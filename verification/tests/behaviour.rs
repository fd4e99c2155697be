use easycom::command::{Command, DeviceStatus, Response};
use easycom::error::{Error, ParseError};
use easycom::framing::{
    decode, decode_command, encode, encode_into, encode_response_into, encode_with_checksum,
    xor_checksum, CommandParser, Parser,
};
use easycom::session::{ReplyReader, Session};
use easycom::transport::{MockTransport, Transport};

fn response_bytes(resp: &Response) -> Vec<u8> {
    let mut buf = [0u8; 32];
    let n = encode_response_into(resp, &mut buf);
    buf[..n].to_vec()
}

fn payload(cmd: &Command) -> Vec<u8> {
    let mut frame = encode(cmd).unwrap();
    frame.pop();
    frame
}

fn all_responses() -> Vec<Response> {
    vec![
        Response::Ack,
        Response::Error,
        Response::Position { az: 0, el: 0 },
        Response::Position { az: 999, el: 999 },
        Response::AzimuthPosition(360),
        Response::ElevationPosition(7),
        Response::Status(DeviceStatus::Idle),
        Response::Status(DeviceStatus::Moving),
        Response::Status(DeviceStatus::Homing),
        Response::Status(DeviceStatus::NotHomed),
        Response::Status(DeviceStatus::HomingAzError),
        Response::Status(DeviceStatus::HomingElError),
        Response::StatusRegister(0),
        Response::StatusRegister(65535),
        Response::ErrorRegister(4),
        Response::ConfigValue { register: 65535, value: i32::MIN },
        Response::ConfigValue { register: 0, value: i32::MAX },
    ]
}

fn all_commands() -> Vec<Command> {
    vec![
        Command::Azimuth(0),
        Command::Azimuth(360),
        Command::Elevation(180),
        Command::AzimuthElevation { az: 360, el: 0 },
        Command::QueryPosition,
        Command::QueryAzimuth,
        Command::QueryElevation,
        Command::Stop,
        Command::Offset { az: -999, el: 999 },
        Command::Offset { az: 0, el: -1 },
        Command::KeepAlive,
        Command::VelocityLeft(u32::MAX),
        Command::VelocityRight(0),
        Command::VelocityUp(12),
        Command::VelocityDown(250),
        Command::GetStatusRegister,
        Command::GetErrorRegister,
        Command::ReadConfig(65535),
        Command::WriteConfig { register: 65535, value: i32::MIN },
        Command::WriteConfig { register: 1, value: 0 },
        Command::Reset,
        Command::Park,
    ]
}

// ── Round trips ──────────────────────────────────────────────────────────────

#[test]
fn response_round_trip_every_variant() {
    for resp in all_responses() {
        let frame = response_bytes(&resp);
        assert_eq!(decode(&frame), Ok(resp));
    }
}

#[test]
fn response_round_trip_fails_beyond_three_digits() {
    // The three-digit field keeps only the lowest three digits.
    let frame = response_bytes(&Response::Position { az: 1000, el: 45 });
    assert_eq!(&frame, b"AZ=000 EL=045\r");
    assert_eq!(decode(&frame), Ok(Response::Position { az: 0, el: 45 }));
}

#[test]
fn command_round_trip_every_variant() {
    for cmd in all_commands() {
        assert_eq!(decode_command(&payload(&cmd)), Some(cmd));
    }
}

#[test]
fn command_round_trip_with_checksum() {
    for cmd in all_commands() {
        let mut buf = [0u8; 32];
        let n = encode_with_checksum(&cmd, &mut buf).unwrap();
        assert_eq!(decode_command(&buf[..n - 1]), Some(cmd));
    }
}

#[test]
fn query_status_reads_back_as_status_register() {
    assert_eq!(decode_command(&payload(&Command::QueryStatus)), Some(Command::GetStatusRegister));
}

#[test]
fn command_checksum_is_not_checked() {
    assert_eq!(decode_command(b"C*00"), Some(Command::QueryPosition));
    assert_eq!(decode_command(b"A090*7F"), Some(Command::Azimuth(90)));
}

#[test]
fn response_checksum_law() {
    let body = b"GE4";
    let good = xor_checksum(body);
    let mut frame = body.to_vec();
    frame.extend_from_slice(format!("*{:02X}\n", good).as_bytes());
    assert_eq!(decode(&frame), Ok(Response::ErrorRegister(4)));
    let mut bad = body.to_vec();
    bad.extend_from_slice(format!("*{:02X}\n", good ^ 1).as_bytes());
    assert_eq!(decode(&bad), Err(ParseError::BadChecksum));
}

#[test]
fn lower_case_checksum_digits_accepted() {
    // "GS2" xor = 0x47 ^ 0x53 ^ 0x32 = 0x26
    assert_eq!(xor_checksum(b"GS2"), 0x26);
    assert_eq!(decode(b"GS2*26\n"), Ok(Response::StatusRegister(2)));
    assert_eq!(decode(b"\x1a*1a\r"), Err(ParseError::UnknownCommand));
}

// ── Encoding ─────────────────────────────────────────────────────────────────

#[test]
fn encode_error_messages_and_untouched_buffer() {
    let mut buf = [7u8; 32];
    assert_eq!(encode_into(&Command::Azimuth(361), &mut buf), Err("azimuth must be 0–360"));
    assert_eq!(encode_into(&Command::Elevation(181), &mut buf), Err("elevation must be 0–180"));
    assert_eq!(
        encode_into(&Command::AzimuthElevation { az: 400, el: 200 }, &mut buf),
        Err("azimuth must be 0–360")
    );
    assert_eq!(
        encode_into(&Command::AzimuthElevation { az: 10, el: 200 }, &mut buf),
        Err("elevation must be 0–180")
    );
    assert_eq!(buf, [7u8; 32]);
    assert_eq!(
        encode(&Command::Elevation(200)),
        Err(Error::InvalidParam("elevation must be 0–180"))
    );
}

#[test]
fn encode_longest_frames() {
    assert_eq!(
        encode(&Command::WriteConfig { register: 65535, value: i32::MIN }).unwrap(),
        b"CW65535,-2147483648\r"
    );
    assert_eq!(encode(&Command::VelocityUp(u32::MAX)).unwrap(), b"VU4294967295\r");
    assert_eq!(encode(&Command::Offset { az: -7, el: 0 }).unwrap(), b"O-007+000\r");
    let mut buf = [0u8; 24];
    let n = encode_with_checksum(&Command::WriteConfig { register: 65535, value: i32::MIN }, &mut buf)
        .unwrap();
    assert_eq!(n, 23);
    assert_eq!(&buf[..20], b"CW65535,-2147483648*");
    assert_eq!(buf[22], b'\r');
}

#[test]
fn encode_into_exact_buffer() {
    let mut buf = [0u8; 5];
    assert_eq!(encode_into(&Command::Azimuth(90), &mut buf), Ok(5));
    assert_eq!(&buf, b"A090\r");
}

#[test]
fn encode_response_extremes() {
    assert_eq!(
        response_bytes(&Response::ConfigValue { register: 65535, value: i32::MIN }),
        b"CR65535,-2147483648\n"
    );
    assert_eq!(response_bytes(&Response::ErrorRegister(0)), b"GE0\n");
    assert_eq!(response_bytes(&Response::Status(DeviceStatus::NotHomed)), b"ST=not_homed\r");
}

#[test]
fn response_frames_have_plain_bodies() {
    let mut all = all_responses();
    all.push(Response::Position { az: 65535, el: 1234 });
    all.push(Response::AzimuthPosition(65535));
    for resp in all {
        let f = response_bytes(&resp);
        assert!((2..=20).contains(&f.len()));
        let (last, body) = f.split_last().unwrap();
        assert!(*last == b'\r' || *last == b'\n');
        assert!(body.iter().all(|&b| (32..127).contains(&b) && b != b'*'));
    }
}

// ── Decoding ─────────────────────────────────────────────────────────────────

#[test]
fn decode_error_variants() {
    assert_eq!(decode(b""), Err(ParseError::UnexpectedEof));
    assert_eq!(decode(b"AZ=090*G0\r"), Err(ParseError::InvalidUtf8));
    assert_eq!(decode(b"AZ=090*0G\r"), Err(ParseError::InvalidUtf8));
    assert_eq!(decode(b"AZ=090*00\r"), Err(ParseError::BadChecksum));
    assert_eq!(decode(b"XYZ\r"), Err(ParseError::UnknownCommand));
}

#[test]
fn decode_terminators_only() {
    assert_eq!(decode(b"\r\n\r"), Ok(Response::Ack));
    assert_eq!(decode(b"+\r\n"), Ok(Response::Ack));
}

#[test]
fn decode_rejects_invalid_utf8() {
    assert_eq!(decode(b"AZ=090 EL=045 \xff\r"), Err(ParseError::UnknownCommand));
    assert_eq!(decode(b"AZ=090 EL=045 \xc3\xa9\r"), Ok(Response::Position { az: 90, el: 45 }));
    assert_eq!(decode(b"AZ12.\xff\r"), Err(ParseError::UnknownCommand));
    assert_eq!(decode(b"AZ12.5\r"), Ok(Response::AzimuthPosition(12)));
}

#[test]
fn decode_number_syntax() {
    // A leading '+' is accepted, as `str::parse` does.
    assert_eq!(decode(b"GS+2\n"), Ok(Response::StatusRegister(2)));
    assert_eq!(decode(b"GS-2\n"), Err(ParseError::UnknownCommand));
    assert_eq!(decode(b"GS65536\n"), Err(ParseError::UnknownCommand));
    assert_eq!(decode(b"GS0000000000000000000001\n"), Ok(Response::StatusRegister(1)));
    assert_eq!(
        decode(b"CR1,-2147483648\n"),
        Ok(Response::ConfigValue { register: 1, value: i32::MIN })
    );
    assert_eq!(decode(b"CR1,2147483648\n"), Err(ParseError::UnknownCommand));
    assert_eq!(decode(b"AZ=+12 EL=045\r"), Ok(Response::Position { az: 12, el: 45 }));
}

#[test]
fn decode_status_names() {
    for (name, st) in [
        ("idle", DeviceStatus::Idle),
        ("moving", DeviceStatus::Moving),
        ("homing", DeviceStatus::Homing),
        ("not_homed", DeviceStatus::NotHomed),
        ("homing_az_error", DeviceStatus::HomingAzError),
        ("homing_el_error", DeviceStatus::HomingElError),
    ] {
        assert_eq!(decode(format!("ST={name}\r").as_bytes()), Ok(Response::Status(st)));
    }
    assert_eq!(decode(b"ST=Idle\r"), Err(ParseError::UnknownCommand));
    assert_eq!(decode(b"ST=idle_\r"), Err(ParseError::UnknownCommand));
}

#[test]
fn decode_axis_fraction_is_dropped() {
    assert_eq!(decode(b"AZ180.9\n"), Ok(Response::AzimuthPosition(180)));
    assert_eq!(decode(b"EL45.x\n"), Ok(Response::ElevationPosition(45)));
    assert_eq!(decode(b"AZ65535\n"), Ok(Response::AzimuthPosition(65535)));
    assert_eq!(decode(b"AZ65536.0\n"), Err(ParseError::UnknownCommand));
}

#[test]
fn decode_labels_anywhere() {
    assert_eq!(decode(b"xxEL=010 AZ=020\r"), Ok(Response::Position { az: 20, el: 10 }));
    assert_eq!(decode(b"AZ=\r"), Err(ParseError::UnknownCommand));
}

#[test]
fn decode_command_edge_cases() {
    assert_eq!(decode_command(b""), None);
    assert_eq!(decode_command(b"*43"), None);
    assert_eq!(decode_command(b"W361 090"), None);
    assert_eq!(decode_command(b"O*010-005"), None);
    assert_eq!(decode_command(b"O+010/005"), None);
    assert_eq!(decode_command(b"GS1"), Some(Command::GetStatusRegister));
    assert_eq!(decode_command(b"GS anything"), Some(Command::GetStatusRegister));
    assert_eq!(decode_command(b"AZ400 EL10"), None);
    assert_eq!(decode_command(b"EL+45"), Some(Command::Elevation(45)));
    assert_eq!(decode_command(b"CW1"), None);
    assert_eq!(decode_command(b"CR"), None);
    assert_eq!(decode_command(b"VL"), None);
    assert_eq!(decode_command(b"\xff"), None);
}

// ── Incremental parsers ──────────────────────────────────────────────────────

#[test]
fn parser_reads_every_encoded_response() {
    for resp in all_responses() {
        let mut p = Parser::new();
        let results = p.feed_slice(&response_bytes(&resp));
        assert_eq!(results, vec![Ok(resp)]);
    }
}

#[test]
fn parser_overflow() {
    let mut p = Parser::default();
    let mut results = Vec::new();
    for _ in 0..70 {
        if let Some(r) = p.feed(b'A') {
            results.push(r);
        }
    }
    // Reported once, on the 65th byte; the rest of the frame is dropped.
    assert_eq!(results, vec![Err(ParseError::UnexpectedEof)]);
    assert_eq!(p.feed(b'\r'), None);
    assert_eq!(p.feed_slice(b"?\n"), vec![Ok(Response::Error)]);
}

#[test]
fn parser_overlong_frame_is_not_read_as_a_frame() {
    let mut p = Parser::new();
    let mut data = vec![b'X'; 64];
    data.extend_from_slice(b"AZ=001 EL=002\r+\r");
    assert_eq!(
        p.feed_slice(&data),
        vec![Err(ParseError::UnexpectedEof), Ok(Response::Ack)]
    );
}

#[test]
fn parser_lone_terminator_is_ack() {
    let mut p = Parser::new();
    assert_eq!(p.feed(b'\r'), Some(Ok(Response::Ack)));
    assert_eq!(p.feed(b'\n'), Some(Ok(Response::Ack)));
    assert_eq!(p.feed_slice(b"\r\n"), vec![Ok(Response::Ack), Ok(Response::Ack)]);
}

#[test]
fn command_parser_reads_every_command() {
    for cmd in all_commands() {
        let mut p = CommandParser::default();
        let frame = encode(&cmd).unwrap();
        for (i, &b) in frame.iter().enumerate() {
            let r = p.feed(b);
            if i + 1 == frame.len() {
                assert_eq!(r, Some(cmd));
            } else {
                assert_eq!(r, None);
            }
        }
    }
}

#[test]
fn command_parser_discards_overlong_frames() {
    let mut p = CommandParser::new();
    for _ in 0..33 {
        assert_eq!(p.feed(b'S'), None);
    }
    assert_eq!(p.feed(b'\n'), None);
    for &b in b"PARK" {
        assert_eq!(p.feed(b), None);
    }
    assert_eq!(p.feed(b'\n'), Some(Command::Park));
}

#[test]
fn command_parser_overlong_tail_is_not_a_command() {
    let mut p = CommandParser::new();
    for _ in 0..33 {
        assert_eq!(p.feed(b'X'), None);
    }
    assert_eq!(p.feed(b'C'), None);
    assert_eq!(p.feed(b'\r'), None);
    assert_eq!(p.feed(b'C'), None);
    assert_eq!(p.feed(b'\r'), Some(Command::QueryPosition));
}

#[test]
fn command_parser_reads_any_frame() {
    for frame in [&b"XYZ"[..], b"GS hello", b"", b"AZ10.5 EL20", b"W361 090"] {
        let mut p = CommandParser::new();
        for &b in frame {
            assert_eq!(p.feed(b), None);
        }
        assert_eq!(p.feed(b'\r'), decode_command(frame));
    }
}

// ── Sessions ─────────────────────────────────────────────────────────────────

#[test]
fn reply_reader_skips_echo() {
    let mut parser = Parser::new();
    let mut reader = ReplyReader::new(b"A090");
    let mut results = Vec::new();
    for &b in b"A090\r+\r" {
        if let Some(r) = reader.feed(&mut parser, b) {
            results.push(r);
        }
    }
    assert_eq!(results, vec![Ok(Response::Ack)]);
}

#[test]
fn session_invalid_param_sends_nothing() {
    let mut session = Session::new(MockTransport::new());
    let err = session.send(Command::Azimuth(361)).unwrap_err();
    assert!(matches!(err, Error::InvalidParam("azimuth must be 0–360")));
    assert!(session.into_transport().written.is_empty());
}

#[test]
fn session_parse_error_and_lf_terminator() {
    let mut mock = MockTransport::new();
    mock.enqueue_response(b"bogus\n".to_vec());
    let mut session = Session::new(mock);
    let err = session.send(Command::Stop).unwrap_err();
    assert!(matches!(err, Error::Parse(ParseError::UnknownCommand)));
}

#[test]
fn session_keep_alive_error_reply_looks_like_echo() {
    // The device's error reply `?` is byte-identical to the keep-alive itself.
    let mut mock = MockTransport::new();
    mock.enqueue_response(b"?\r".to_vec());
    let mut session = Session::new(mock);
    let err = session.send(Command::KeepAlive).unwrap_err();
    assert!(matches!(err, Error::Timeout));
}

#[test]
fn session_consecutive_requests() {
    let mut mock = MockTransport::new();
    mock.enqueue_response(b"GS\nGS2\nCR5,-7\n".to_vec());
    let mut session = Session::new(mock);
    assert_eq!(session.send(Command::GetStatusRegister).unwrap(), Response::StatusRegister(2));
    assert_eq!(
        session.send(Command::ReadConfig(5)).unwrap(),
        Response::ConfigValue { register: 5, value: -7 }
    );
    let t = session.into_transport();
    assert_eq!(&t.written, b"GS\rCR5\r");
    assert!(t.rx_buf.is_empty());
}

#[test]
fn session_lone_terminator_reply_is_ack() {
    let mut mock = MockTransport::new();
    mock.enqueue_response(b"\r".to_vec());
    let mut session = Session::new(mock);
    assert_eq!(session.send(Command::KeepAlive).unwrap(), Response::Ack);
}

#[test]
fn session_skips_overlong_reply() {
    let mut mock = MockTransport::new();
    let mut rx = vec![b'A'; 70];
    rx.extend_from_slice(b"\rAZ=010 EL=020\r");
    mock.enqueue_response(rx);
    let mut session = Session::new(mock);
    assert_eq!(
        session.send(Command::QueryPosition).unwrap(),
        Response::Position { az: 10, el: 20 }
    );
}

/// A transport whose calls fail as configured, counting the calls made.
struct FailingTransport {
    fail_write: bool,
    writes: usize,
    reads: usize,
}

impl Transport for FailingTransport {
    type Error = &'static str;

    fn write(&mut self, _frame: &[u8]) -> Result<(), Self::Error> {
        self.writes += 1;
        if self.fail_write {
            Err("write failed")
        } else {
            Ok(())
        }
    }

    fn read(&mut self, _buf: &mut [u8]) -> Result<usize, Self::Error> {
        self.reads += 1;
        Err("read failed")
    }
}

#[test]
fn session_write_failure_stops_before_reading() {
    let t = FailingTransport { fail_write: true, writes: 0, reads: 0 };
    let mut session = Session::new(t);
    assert_eq!(session.send(Command::Stop), Err(Error::Transport("write failed")));
    let t = session.into_transport();
    assert_eq!((t.writes, t.reads), (1, 0));
}

#[test]
fn session_read_failure_is_transport_error() {
    let t = FailingTransport { fail_write: false, writes: 0, reads: 0 };
    let mut session = Session::new(t);
    assert_eq!(session.send(Command::Stop), Err(Error::Transport("read failed")));
    let t = session.into_transport();
    assert_eq!((t.writes, t.reads), (1, 1));
}

#[test]
fn reply_reader_take_read_outcomes() {
    let mut parser = Parser::new();
    let mut reader = ReplyReader::new(b"C");
    assert_eq!(
        reader.take_read::<&str>(&mut parser, Err("gone"), 0),
        Some(Err(Error::Transport("gone")))
    );
    assert_eq!(reader.take_read::<&str>(&mut parser, Ok(0), b'+'), Some(Err(Error::Timeout)));
    assert_eq!(reader.take_read::<&str>(&mut parser, Ok(1), b'+'), None);
    assert_eq!(reader.take_read::<&str>(&mut parser, Ok(1), b'\r'), Some(Ok(Response::Ack)));
    assert_eq!(reader.take_read::<&str>(&mut parser, Ok(1), b'C'), None);
    assert_eq!(reader.take_read::<&str>(&mut parser, Ok(1), b'\r'), None);
    assert_eq!(
        reader.take_read::<&str>(&mut parser, Ok(1), b'\n'),
        Some(Ok(Response::Ack))
    );
}

#[test]
fn session_skips_several_echoes_and_reads_no_further() {
    let mut mock = MockTransport::new();
    mock.enqueue_response(b"A090\rA090\nA090\r+\rAZ=001 EL=002\r".to_vec());
    let mut session = Session::new(mock);
    assert_eq!(session.send(Command::Azimuth(90)).unwrap(), Response::Ack);
    let t = session.into_transport();
    assert_eq!(&t.written, b"A090\r");
    let rest: Vec<u8> = t.rx_buf.iter().copied().collect();
    assert_eq!(rest, b"AZ=001 EL=002\r".to_vec());
}

// ── Transport and errors ─────────────────────────────────────────────────────

#[test]
fn mock_partial_read() {
    let mut t = MockTransport::default();
    t.enqueue_response(b"ABCDE".to_vec());
    let mut buf = [0u8; 2];
    assert_eq!(t.read(&mut buf).unwrap(), 2);
    assert_eq!(&buf, b"AB");
    assert_eq!(t.read(&mut buf).unwrap(), 2);
    assert_eq!(&buf, b"CD");
    assert_eq!(t.read(&mut buf).unwrap(), 1);
    assert_eq!(&buf, b"ED");
    assert_eq!(t.read(&mut buf).unwrap(), 0);
}

#[test]
fn parse_error_messages() {
    assert_eq!(ParseError::UnexpectedEof.message(), "unexpected end of input");
    assert_eq!(ParseError::InvalidUtf8.message(), "invalid UTF-8 in frame");
    assert_eq!(ParseError::UnknownCommand.message(), "unknown command letter");
    assert_eq!(ParseError::BadChecksum.message(), "checksum mismatch");
}
