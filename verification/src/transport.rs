//! Abstract I/O transport used by [`crate::session::Session`].
//!
//! Implement this trait on any type that can send and receive raw bytes, such
//! as a serial port, TCP stream, or an in-memory mock.

use std::collections::VecDeque;
use vstd::prelude::*;

verus! {

/// `std::io::Error`, the error type of [`MockTransport`]; its values are carried
/// through unread.
#[verifier::external_type_specification]
#[verifier::external_body]
pub struct ExIoError(std::io::Error);

/// A synchronous byte-oriented I/O channel.
///
/// Implementations cover anything from a real serial port to a TCP socket or
/// an in-memory test double.
pub trait Transport {
    /// The error type produced by transport operations.
    type Error;

    /// Write all bytes in `frame` to the transport.
    fn write(&mut self, frame: &[u8]) -> Result<(), Self::Error>;

    /// Read up to `buf.len()` bytes from the transport into `buf`.
    ///
    /// Returns the number of bytes actually read.  A return value of `0` may
    /// indicate that the connection was closed or that no data was available
    /// at this time, depending on the implementation.
    fn read(&mut self, buf: &mut [u8]) -> Result<usize, Self::Error>;
}

// ── In-memory mock transport ───────────────────────────────────────────────────

/// A loopback transport that stores writes in an internal buffer and replays
/// pre-programmed responses on read.
///
/// Useful for unit tests that exercise [`crate::session::Session`] without
/// real hardware.
pub struct MockTransport {
    /// Bytes captured by calls to [`Transport::write`].
    pub written: Vec<u8>,
    /// Pending response bytes not yet consumed by [`Transport::read`].
    pub rx_buf: VecDeque<u8>,
}

impl MockTransport {
    /// Create an empty mock with no pre-programmed responses.
    pub fn new() -> (r: Self)
        ensures
            r.written@ == Seq::<u8>::empty(),
            r.rx_buf@ == Seq::<u8>::empty(),
    {
        Self { written: Vec::new(), rx_buf: VecDeque::new() }
    }

    /// Queue a response frame whose bytes will be drained by subsequent `read`
    /// calls.
    pub fn enqueue_response(&mut self, frame: Vec<u8>)
        ensures
            final(self).rx_buf@ == old(self).rx_buf@ + frame@,
            final(self).written@ == old(self).written@,
    {
        let mut i: usize = 0;
        while i < frame.len()
            invariant
                i <= frame@.len(),
                self.rx_buf@ == old(self).rx_buf@ + frame@.take(i as int),
                self.written@ == old(self).written@,
            decreases frame@.len() - i,
        {
            self.rx_buf.push_back(frame[i]);
            i = i + 1;
            assert(self.rx_buf@ =~= old(self).rx_buf@ + frame@.take(i as int));
        }
        assert(frame@.take(i as int) =~= frame@);
    }
}

impl Default for MockTransport {
    fn default() -> (r: Self)
        ensures
            r.written@ == Seq::<u8>::empty(),
            r.rx_buf@ == Seq::<u8>::empty(),
    {
        Self::new()
    }
}

/// How many bytes a read into a buffer of `capacity` bytes takes from a mock
/// holding `available` bytes.
pub open spec fn mock_read_len(capacity: nat, available: nat) -> nat {
    if capacity < available {
        capacity
    } else {
        available
    }
}

impl Transport for MockTransport {
    type Error = std::io::Error;

    /// Appends `frame` to [`MockTransport::written`]; never fails.
    fn write(&mut self, frame: &[u8]) -> (r: Result<(), Self::Error>)
        ensures
            r is Ok,
            final(self).written@ == old(self).written@ + frame@,
            final(self).rx_buf@ == old(self).rx_buf@,
    {
        self.written.extend_from_slice(frame);
        Ok(())
    }

    /// Moves the first queued bytes, as many as fit, into `buf`; never fails.
    fn read(&mut self, buf: &mut [u8]) -> (r: Result<usize, Self::Error>)
        ensures
            r matches Ok(n) && n == mock_read_len(old(buf)@.len(), old(self).rx_buf@.len())
                && final(buf)@ == old(self).rx_buf@.take(n as int) + old(buf)@.skip(n as int)
                && final(self).rx_buf@ == old(self).rx_buf@.skip(n as int),
            final(self).written@ == old(self).written@,
    {
        let n = if buf.len() < self.rx_buf.len() {
            buf.len()
        } else {
            self.rx_buf.len()
        };
        let mut i: usize = 0;
        while i < n
            invariant
                i <= n,
                n == mock_read_len(old(buf)@.len(), old(self).rx_buf@.len()),
                buf@.len() == old(buf)@.len(),
                self.rx_buf@ == old(self).rx_buf@.skip(i as int),
                buf@ == old(self).rx_buf@.take(i as int) + old(buf)@.skip(i as int),
                self.written@ == old(self).written@,
            decreases n - i,
        {
            let b = self.rx_buf.pop_front().unwrap();
            buf[i] = b;
            i = i + 1;
            assert(self.rx_buf@ =~= old(self).rx_buf@.skip(i as int));
            assert(buf@ =~= old(self).rx_buf@.take(i as int) + old(buf)@.skip(i as int));
        }
        Ok(n)
    }
}

} // verus!
