# easycom

The Easycom antenna rotator control protocol (Yaesu GS-232A/B, Easycomm II and
Easycomm III), written in Verus: every encoder, decoder and parser carries a
contract over a model of the wire format, and Verus proves the code against it.

Layout:

- `src/command.rs` — commands, responses and device states.
- `src/error.rs` — errors and parse failures.
- `src/ascii.rs` — decimal numbers, byte searches and the UTF-8 check.
- `src/framing.rs` — the wire model (`command_frame`, `response_frame`,
  `decoded_response`, `decoded_command`), the encoders and decoders, and the
  incremental `Parser` and `CommandParser`.
- `src/transport.rs` — the `Transport` trait and the in-memory `MockTransport`.
- `src/session.rs` — `Session`, the `ReplyReader` that skips echoes, and the
  record of the calls a session makes to its transport (`Session::history`,
  with `send_outcome` saying what a send returns for them).
- `src/properties.rs` — proofs of how these fit together: response and command
  round trips, the shape of response frames, checksums, streams of frames,
  overlong frames, echo suppression.
- `app/` — `Display` for the errors and a TCP transport.
