//! High-level synchronous session over a [`Transport`].
//!
//! [`Session`] encodes a [`Command`], writes it to the transport, reads bytes
//! until a complete response frame arrives, decodes it, and returns the
//! [`Response`].

use vstd::prelude::*;

use crate::ascii::bytes_eq;
use crate::ascii::is_line_end;
use crate::command::Command;
use crate::command::Response;
use crate::error::Error;
use crate::error::ParseError;
use crate::framing::command_frame;
use crate::framing::command_param_error;
use crate::framing::command_payload;
use crate::framing::encode_into;
use crate::framing::lemma_command_frame_len;
use crate::framing::parser_step;
use crate::framing::Parser;
use crate::transport::Transport;

verus! {

/// How many bytes of an incoming frame are kept to recognise an echo.
pub const ECHO_WINDOW: usize = 32;

/// One received byte while waiting for the reply to a command whose frame,
/// without its terminator, is `sent`: `seen` holds the first bytes of the
/// frame being received and `state` is the response parser's state.
///
/// Returns the new `seen` and parser state and the reply, if this byte
/// completes one. A terminator ends the frame: one identical to `sent` is the
/// device's echo of the command and is skipped; any other reports what the
/// parser reports. What the parser reports on other bytes is not a reply.
pub open spec fn reply_step(sent: Seq<u8>, seen: Seq<u8>, state: (Seq<u8>, bool), b: u8) -> (
    Seq<u8>,
    (Seq<u8>, bool),
    Option<Result<Response, ParseError>>,
) {
    let (next, out) = parser_step(state, b);
    if is_line_end(b) {
        if seen == sent {
            (Seq::empty(), next, None)
        } else {
            (Seq::empty(), next, out)
        }
    } else {
        (if seen.len() < ECHO_WINDOW {
            seen.push(b)
        } else {
            seen
        }, next, None)
    }
}

/// Receiving all of `rx`: the final `seen` and parser state, and every reply
/// completed on the way, in order.
pub open spec fn reply_run(sent: Seq<u8>, seen: Seq<u8>, state: (Seq<u8>, bool), rx: Seq<u8>) -> (
    Seq<u8>,
    (Seq<u8>, bool),
    Seq<Result<Response, ParseError>>,
)
    decreases rx.len(),
{
    if rx.len() == 0 {
        (seen, state, Seq::empty())
    } else {
        let (s1, p1, outs) = reply_run(sent, seen, state, rx.drop_last());
        let (s2, p2, out) = reply_step(sent, s1, p1, rx.last());
        (
            s2,
            p2,
            match out {
                Some(x) => outs.push(x),
                None => outs,
            },
        )
    }
}

/// What a read of the transport does to a [`ReplyReader`] whose window is
/// `seen`, with the response parser in `state`: the next window and parser
/// state, and how the wait ends, if it ends.
///
/// A failed read ends it with the transport's error; a read that delivered no
/// byte ends it with [`Error::Timeout`]; otherwise `byte`, the byte read, is
/// received, and a reply it completes ends the wait (a malformed one as
/// [`Error::Parse`]).
pub open spec fn read_outcome<E>(
    sent: Seq<u8>,
    seen: Seq<u8>,
    state: (Seq<u8>, bool),
    result: Result<usize, E>,
    byte: u8,
) -> ((Seq<u8>, (Seq<u8>, bool)), Option<Result<Response, Error<E>>>) {
    match result {
        Err(e) => ((seen, state), Some(Err(Error::Transport(e)))),
        Ok(n) => if n == 0 {
            ((seen, state), Some(Err(Error::Timeout)))
        } else {
            let (s2, p2, out) = reply_step(sent, seen, state, byte);
            (
                (s2, p2),
                match out {
                    Some(Ok(resp)) => Some(Ok(resp)),
                    Some(Err(e)) => Some(Err(Error::Parse(e))),
                    None => None,
                },
            )
        },
    }
}

/// One call a [`Session`] made to its transport.
pub enum Exchange<E> {
    /// `write` was handed `frame` and returned `outcome`.
    Write { frame: Seq<u8>, outcome: Result<(), E> },
    /// `read` was handed a buffer of `capacity` bytes and returned `count`;
    /// `byte` is the first byte of the buffer afterwards.
    Read { capacity: nat, count: Result<usize, E>, byte: u8 },
}

/// The state of a [`ReplyReader`] for the command frame `sent`, with the
/// response parser starting in `state`, after `reads`: its window and the
/// parser state, when each of them was a one-byte read that left the wait
/// open; `None` otherwise.
pub open spec fn open_reads<E>(sent: Seq<u8>, state: (Seq<u8>, bool), reads: Seq<Exchange<E>>) -> Option<
    (Seq<u8>, (Seq<u8>, bool)),
>
    decreases reads.len(),
{
    if reads.len() == 0 {
        Some((Seq::empty(), state))
    } else {
        match open_reads(sent, state, reads.drop_last()) {
            Some((seen, p)) => match reads.last() {
                Exchange::Read { capacity, count, byte } => if capacity == 1 {
                    let (next, out) = read_outcome(sent, seen, p, count, byte);
                    if out is None {
                        Some(next)
                    } else {
                        None
                    }
                } else {
                    None
                },
                _ => None,
            },
            None => None,
        }
    }
}

/// The outcome of [`Session::send`] for `cmd`, with the response parser in
/// `state` at the start, when its calls to the transport were `events`: the
/// result and the parser state at the end; `None` when `events` are not what
/// sending `cmd` does.
///
/// Sending writes the frame of `cmd` once; a failed write ends it with the
/// transport's error. Then it reads one byte at a time until a read ends the
/// wait (see [`read_outcome`]), or ends it with [`Error::Timeout`] after
/// `u64::MAX` reads that left it open.
pub open spec fn send_outcome<E>(cmd: Command, state: (Seq<u8>, bool), events: Seq<Exchange<E>>) -> Option<
    (Result<Response, Error<E>>, (Seq<u8>, bool)),
> {
    let sent = command_payload(cmd);
    let reads = events.skip(1);
    if events.len() == 0 {
        None
    } else {
        match events[0] {
            Exchange::Write { frame, outcome } => if frame != command_frame(cmd) {
                None
            } else {
                match outcome {
                    Err(e) => if events.len() == 1 {
                        Some((Err(Error::Transport(e)), state))
                    } else {
                        None
                    },
                    Ok(_) => match open_reads(sent, state, reads) {
                        Some((_, p)) => if reads.len() == u64::MAX {
                            Some((Err(Error::Timeout), p))
                        } else {
                            None
                        },
                        None => if reads.len() == 0 || reads.len() > u64::MAX {
                            None
                        } else {
                            match (open_reads(sent, state, reads.drop_last()), reads.last()) {
                                (Some((seen, p)), Exchange::Read { capacity, count, byte }) => {
                                    let ((_, p2), out) = read_outcome(sent, seen, p, count, byte);
                                    match out {
                                        Some(r) => if capacity == 1 {
                                            Some((r, p2))
                                        } else {
                                            None
                                        },
                                        None => None,
                                    }
                                },
                                _ => None,
                            }
                        },
                    },
                }
            },
            _ => None,
        }
    }
}

/// Receives the device's reply to one command, byte by byte, skipping an echo
/// of the command itself.
pub struct ReplyReader {
    sent: Vec<u8>,
    seen: [u8; 32],
    seen_len: usize,
}

impl View for ReplyReader {
    type V = (Seq<u8>, Seq<u8>);

    /// The command frame sent (without terminator), and the first bytes of
    /// the frame being received.
    closed spec fn view(&self) -> (Seq<u8>, Seq<u8>) {
        (self.sent@, self.seen@.take(self.seen_len as int))
    }
}

impl ReplyReader {
    #[verifier::type_invariant]
    closed spec fn wf(self) -> bool {
        self.seen_len <= ECHO_WINDOW
    }

    /// A reader for the reply to the command frame `sent` (without its
    /// terminator).
    pub fn new(sent: &[u8]) -> (r: Self)
        ensures
            r@ == (sent@, Seq::<u8>::empty()),
    {
        let r = ReplyReader { sent: vstd::slice::slice_to_vec(sent), seen: [0u8; 32], seen_len: 0 };
        assert(r@.1 =~= Seq::<u8>::empty());
        r
    }

    /// Takes one received byte, with `parser` holding the response frame being
    /// assembled. Returns the reply when `byte` completes one.
    pub fn feed(&mut self, parser: &mut Parser, byte: u8) -> (r: Option<
        Result<Response, ParseError>,
    >)
        ensures
            final(self)@.0 == old(self)@.0,
            (final(self)@.1, final(parser)@, r) == reply_step(
                old(self)@.0,
                old(self)@.1,
                old(parser)@,
                byte,
            ),
    {
        proof {
            use_type_invariant(&*self);
        }
        if byte == '\r' as u8 || byte == '\n' as u8 {
            let result = parser.feed(byte);
            // Echo suppression: skip frames that are byte-identical to the
            // command we sent (excluding the terminator).
            let seen = vstd::slice::slice_subrange(self.seen.as_slice(), 0, self.seen_len);
            let echo = bytes_eq(seen, self.sent.as_slice());
            self.seen_len = 0;
            assert(self@.1 =~= Seq::<u8>::empty());
            if echo {
                None
            } else {
                result
            }
        } else {
            if self.seen_len < ECHO_WINDOW {
                let ghost before = self@.1;
                self.seen[self.seen_len] = byte;
                self.seen_len = self.seen_len + 1;
                assert(self@.1 =~= before.push(byte));
            }
            parser.feed(byte);
            None
        }
    }

    /// Takes what a one-byte read of the transport returned, `result`, and
    /// `byte`, the byte in the buffer afterwards. Returns how the wait for the
    /// reply ends, if this read ends it.
    pub fn take_read<E>(&mut self, parser: &mut Parser, result: Result<usize, E>, byte: u8) -> (r:
        Option<Result<Response, Error<E>>>)
        ensures
            final(self)@.0 == old(self)@.0,
            ((final(self)@.1, final(parser)@), r) == read_outcome(
                old(self)@.0,
                old(self)@.1,
                old(parser)@,
                result,
                byte,
            ),
    {
        match result {
            Err(e) => Some(Err(Error::Transport(e))),
            Ok(n) => {
                if n == 0 {
                    // Transport returned no data — treat as EOF / timeout.
                    Some(Err(Error::Timeout))
                } else {
                    match self.feed(parser, byte) {
                        Some(Ok(resp)) => Some(Ok(resp)),
                        Some(Err(e)) => Some(Err(Error::Parse(e))),
                        None => None,
                    }
                }
            },
        }
    }
}

/// A synchronous Easycom session.
///
/// Wraps a [`Transport`] and an incremental [`Parser`] to provide a simple
/// request/response interface.
pub struct Session<T: Transport> {
    transport: T,
    parser: Parser,
    exchanges: Ghost<Seq<Exchange<T::Error>>>,
}

impl<T: Transport> Session<T> {
    /// The underlying transport.
    pub closed spec fn inner(&self) -> T {
        self.transport
    }

    /// The state of the response parser: the bytes of an unfinished frame,
    /// and whether that frame is being discarded as overlong.
    pub closed spec fn pending(&self) -> (Seq<u8>, bool) {
        self.parser@
    }

    /// Every call this session made to its transport, in order.
    pub closed spec fn history(&self) -> Seq<Exchange<T::Error>> {
        self.exchanges@
    }

    /// Create a new session backed by `transport`.
    pub fn new(transport: T) -> (r: Self)
        ensures
            r.inner() == transport,
            r.pending() == (Seq::<u8>::empty(), false),
            r.history() == Seq::<Exchange<T::Error>>::empty(),
    {
        Self { transport, parser: Parser::new(), exchanges: Ghost(Seq::empty()) }
    }

    /// Consume `self` and return the underlying transport.
    pub fn into_transport(self) -> (r: T)
        ensures
            r == self.inner(),
    {
        self.transport
    }

    /// Hands `frame` to the transport's `write`, and records the call.
    fn write_frame(&mut self, frame: &[u8]) -> (r: Result<(), T::Error>)
        ensures
            final(self).exchanges@ == old(self).exchanges@.push(
                Exchange::Write { frame: frame@, outcome: r },
            ),
            final(self).parser == old(self).parser,
    {
        let r = self.transport.write(frame);
        proof {
            self.exchanges@ = self.exchanges@.push(Exchange::Write { frame: frame@, outcome: r });
        }
        r
    }

    /// Reads into a one-byte buffer, and records the call. Returns what the
    /// transport returned and the byte in the buffer afterwards.
    fn read_byte(&mut self) -> (r: (Result<usize, T::Error>, u8))
        ensures
            final(self).exchanges@ == old(self).exchanges@.push(
                Exchange::Read { capacity: 1, count: r.0, byte: r.1 },
            ),
            final(self).parser == old(self).parser,
    {
        let mut buf = [0u8; 1];
        let result = self.transport.read(&mut buf);
        let byte = buf[0];
        proof {
            self.exchanges@ = self.exchanges@.push(
                Exchange::Read { capacity: 1, count: result, byte: byte },
            );
        }
        (result, byte)
    }

    /// Encode `cmd`, send it over the transport, and wait for a complete
    /// response frame.
    ///
    /// Bytes are read one at a time and fed to a [`ReplyReader`] until it
    /// completes a reply. A read of no bytes ends the wait with
    /// [`Error::Timeout`]; so does a stream of `u64::MAX` bytes without a reply.
    ///
    /// # Errors
    /// - [`Error::InvalidParam`] — a command parameter was out of its valid
    ///   range; nothing is sent then.
    /// - [`Error::Transport`] — an I/O error occurred.
    /// - [`Error::Parse`] — the device returned a malformed frame.
    /// - [`Error::Timeout`] — the transport delivered no byte.
    ///
    /// The calls made to the transport are appended to [`Session::history`];
    /// [`send_outcome`] gives the result and the parser state for them.
    pub fn send(&mut self, cmd: Command) -> (r: Result<Response, Error<T::Error>>)
        ensures
            command_param_error(cmd) matches Some(msg) ==> r matches Err(Error::InvalidParam(e))
                && e@ == msg && final(self).pending() == old(self).pending()
                && final(self).history() == old(self).history()
                && final(self).inner() == old(self).inner(),
            command_param_error(cmd) is None ==> {
                let before = old(self).history();
                let after = final(self).history();
                &&& before.len() <= after.len()
                &&& after.take(before.len() as int) == before
                &&& send_outcome(cmd, old(self).pending(), after.skip(before.len() as int)) == Some(
                    (r, final(self).pending()),
                )
            },
    {
        proof {
            lemma_command_frame_len(cmd);
        }
        // Encode.
        let mut frame_buf = [0u8; 32];
        let len = match encode_into(&cmd, &mut frame_buf) {
            Ok(n) => n,
            Err(e) => return Err(Error::InvalidParam(e)),
        };
        let ghost h0 = self.exchanges@;
        let ghost start = self.parser@;
        // Send.
        let frame = vstd::slice::slice_subrange(frame_buf.as_slice(), 0, len);
        assert(frame@ =~= command_frame(cmd));
        let w = self.write_frame(frame);
        let ghost written = w;
        match w {
            Err(e) => {
                proof {
                    let ev = self.exchanges@.skip(h0.len() as int);
                    assert(ev =~= seq![Exchange::Write { frame: frame@, outcome: w }]);
                    assert(self.exchanges@.take(h0.len() as int) =~= h0);
                }
                return Err(Error::Transport(e));
            },
            Ok(()) => {},
        }
        // Receive: read byte-by-byte until the reader completes a reply,
        // skipping an echo of the command.
        let sent = vstd::slice::slice_subrange(frame_buf.as_slice(), 0, len - 1);
        assert(sent@ =~= command_payload(cmd));
        let mut reader = ReplyReader::new(sent);
        let ghost mut reads: Seq<Exchange<T::Error>> = Seq::empty();
        let ghost wrote = Exchange::Write { frame: command_frame(cmd), outcome: written };
        assert(self.exchanges@ == h0.push(wrote));
        assert(h0.push(wrote) + reads =~= h0.push(wrote));
        let mut budget: u64 = u64::MAX;
        loop
            invariant
                command_param_error(cmd) is None,
                start == old(self).pending(),
                h0 == old(self).history(),
                wrote matches Exchange::Write { frame, outcome } && frame == command_frame(cmd)
                    && outcome is Ok,
                self.exchanges@ == h0.push(wrote) + reads,
                reader@.0 == command_payload(cmd),
                open_reads(command_payload(cmd), start, reads) == Some((reader@.1, self.parser@)),
                reads.len() + budget == u64::MAX,
            decreases budget,
        {
            if budget == 0 {
                proof {
                    lemma_send_events(h0, wrote, reads);
                    lemma_reads_exhausted(cmd, start, wrote, reads);
                }
                return Err(Error::Timeout);
            }
            budget = budget - 1;
            let (count, byte) = self.read_byte();
            let ghost seen = reader@.1;
            let ghost p = self.parser@;
            let ghost ev = Exchange::Read { capacity: 1, count: count, byte: byte };
            let ghost prev = reads;
            proof {
                reads = reads.push(ev);
                assert(h0.push(wrote) + reads =~= self.exchanges@);
            }
            let outcome = reader.take_read(&mut self.parser, count, byte);
            proof {
                lemma_send_events(h0, wrote, reads);
                lemma_read_step(cmd, start, wrote, prev, ev, seen, p);
            }
            if let Some(r) = outcome {
                return r;
            }
        }
    }
}

/// One more read, after `prev` reads that left the wait open with the window
/// `seen` and the parser in `p`: it either ends the send, or leaves the wait
/// open in the state it reaches.
proof fn lemma_read_step<E>(
    cmd: Command,
    start: (Seq<u8>, bool),
    wrote: Exchange<E>,
    prev: Seq<Exchange<E>>,
    ev: Exchange<E>,
    seen: Seq<u8>,
    p: (Seq<u8>, bool),
)
    requires
        wrote matches Exchange::Write { frame, outcome } && frame == command_frame(cmd)
            && outcome is Ok,
        open_reads(command_payload(cmd), start, prev) == Some((seen, p)),
        ev matches Exchange::Read { capacity, .. } && capacity == 1,
        prev.len() < u64::MAX,
    ensures
        ({
            let events = seq![wrote] + prev.push(ev);
            let (next, out) = read_outcome(command_payload(cmd), seen, p, ev->count, ev->byte);
            &&& out matches Some(r) ==> send_outcome(cmd, start, events) == Some((r, next.1))
            &&& out is None ==> open_reads(command_payload(cmd), start, prev.push(ev)) == Some(next)
        }),
{
    let reads = prev.push(ev);
    let events = seq![wrote] + reads;
    assert(reads.drop_last() =~= prev);
    assert(events.skip(1) =~= reads);
}

/// After `u64::MAX` reads that left the wait open, the send ends with
/// [`Error::Timeout`].
proof fn lemma_reads_exhausted<E>(
    cmd: Command,
    start: (Seq<u8>, bool),
    wrote: Exchange<E>,
    reads: Seq<Exchange<E>>,
)
    requires
        wrote matches Exchange::Write { frame, outcome } && frame == command_frame(cmd)
            && outcome is Ok,
        open_reads(command_payload(cmd), start, reads) is Some,
        reads.len() == u64::MAX,
    ensures
        send_outcome(cmd, start, seq![wrote] + reads) == Some(
            (
                Err::<Response, Error<E>>(Error::Timeout),
                open_reads(command_payload(cmd), start, reads).unwrap().1,
            ),
        ),
{
    let events = seq![wrote] + reads;
    assert(events.skip(1) =~= reads);
}

/// The calls of one send, after the earlier history `h0`: the write `wrote`
/// and then the reads.
proof fn lemma_send_events<E>(h0: Seq<Exchange<E>>, wrote: Exchange<E>, reads: Seq<Exchange<E>>)
    ensures
        ({
            let all = h0.push(wrote) + reads;
            &&& h0.len() <= all.len()
            &&& all.take(h0.len() as int) == h0
            &&& all.skip(h0.len() as int) == seq![wrote] + reads
        }),
{
    let all = h0.push(wrote) + reads;
    assert(all.take(h0.len() as int) =~= h0);
    assert(all.skip(h0.len() as int) =~= seq![wrote] + reads);
}

} // verus!
