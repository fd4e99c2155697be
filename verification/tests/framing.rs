use easycom::command::{Command, DeviceStatus, Response};
use easycom::error::ParseError;
use easycom::framing::{
    decode, decode_command, encode, encode_into, encode_response_into, encode_with_checksum,
    xor_checksum, CommandParser, Parser,
};

// ── encode helpers ────────────────────────────────────────────────────────

fn enc(cmd: &Command) -> Vec<u8> {
    encode(cmd).unwrap()
}

// ── encode tests ──────────────────────────────────────────────────────────

#[test]
fn encode_azimuth() {
    assert_eq!(enc(&Command::Azimuth(90)), b"A090\r");
    assert_eq!(enc(&Command::Azimuth(0)), b"A000\r");
    assert_eq!(enc(&Command::Azimuth(360)), b"A360\r");
}

#[test]
fn encode_elevation() {
    assert_eq!(enc(&Command::Elevation(45)), b"E045\r");
    assert_eq!(enc(&Command::Elevation(180)), b"E180\r");
}

#[test]
fn encode_azimuth_elevation() {
    assert_eq!(enc(&Command::AzimuthElevation { az: 180, el: 90 }), b"W180 090\r");
}

#[test]
fn encode_query_position() {
    assert_eq!(enc(&Command::QueryPosition), b"C\r");
}

#[test]
fn encode_query_azimuth() {
    assert_eq!(enc(&Command::QueryAzimuth), b"AZ\r");
}

#[test]
fn encode_query_elevation() {
    assert_eq!(enc(&Command::QueryElevation), b"EL\r");
}

#[test]
fn encode_stop() {
    assert_eq!(enc(&Command::Stop), b"S\r");
}

#[test]
fn encode_keep_alive() {
    assert_eq!(enc(&Command::KeepAlive), b"?\r");
}

#[test]
fn encode_offset() {
    let mut buf = [0u8; 32];
    let n = encode_into(&Command::Offset { az: 10, el: -5 }, &mut buf).unwrap();
    assert_eq!(&buf[..n], b"O+010-005\r");
}

#[test]
fn encode_rejects_out_of_range() {
    assert!(encode(&Command::Azimuth(361)).is_err());
    assert!(encode(&Command::Elevation(181)).is_err());
    assert!(encode(&Command::AzimuthElevation { az: 400, el: 0 }).is_err());
    assert!(encode(&Command::AzimuthElevation { az: 0, el: 200 }).is_err());
}

// ── checksum encoding ─────────────────────────────────────────────────────

#[test]
fn encode_with_checksum_query() {
    let mut buf = [0u8; 32];
    let n = encode_with_checksum(&Command::QueryPosition, &mut buf).unwrap();
    let frame = &buf[..n];
    // Payload is b"C", checksum = b'C' = 0x43
    assert_eq!(&frame[frame.len() - 4..], b"*43\r");
}

// ── decode tests ──────────────────────────────────────────────────────────

#[test]
fn decode_position() {
    let r = decode(b"AZ=180 EL=090\r").unwrap();
    assert_eq!(r, Response::Position { az: 180, el: 90 });
}

#[test]
fn decode_ack_empty() {
    assert_eq!(decode(b"\r").unwrap(), Response::Ack);
    assert_eq!(decode(b"+\r").unwrap(), Response::Ack);
}

#[test]
fn decode_device_error() {
    assert_eq!(decode(b"?\r").unwrap(), Response::Error);
}

#[test]
fn decode_bad_checksum() {
    // "AZ=090 EL=045*FF\r" — wrong checksum
    let r = decode(b"AZ=090 EL=045*FF\r");
    assert_eq!(r, Err(ParseError::BadChecksum));
}

#[test]
fn decode_good_checksum() {
    // Build a frame with a correct checksum and verify it decodes.
    let payload = b"AZ=090 EL=045";
    let cs = xor_checksum(payload);
    let mut frame: Vec<u8> = payload.to_vec();
    frame.push(b'*');
    frame.push(b"0123456789ABCDEF"[(cs >> 4) as usize]);
    frame.push(b"0123456789ABCDEF"[(cs & 0xF) as usize]);
    frame.push(b'\r');
    assert_eq!(decode(&frame).unwrap(), Response::Position { az: 90, el: 45 });
}

#[test]
fn decode_unexpected_eof() {
    assert_eq!(decode(b""), Err(ParseError::UnexpectedEof));
}

// ── round-trip tests ──────────────────────────────────────────────────────

#[test]
fn round_trip_position_response() {
    // A QueryPosition command produces C\r; device responds AZ=... EL=...
    let cmd = enc(&Command::QueryPosition);
    assert_eq!(cmd, b"C\r");
    let resp = decode(b"AZ=270 EL=030\r").unwrap();
    assert_eq!(resp, Response::Position { az: 270, el: 30 });
}

// ── encode_response_into tests ────────────────────────────────────────────

#[test]
fn encode_response_ack() {
    let mut buf = [0u8; 16];
    let n = encode_response_into(&Response::Ack, &mut buf);
    assert_eq!(&buf[..n], b"+\r");
}

#[test]
fn encode_response_error() {
    let mut buf = [0u8; 16];
    let n = encode_response_into(&Response::Error, &mut buf);
    assert_eq!(&buf[..n], b"?\r");
}

#[test]
fn encode_response_position() {
    let mut buf = [0u8; 16];
    let n = encode_response_into(&Response::Position { az: 270, el: 45 }, &mut buf);
    assert_eq!(&buf[..n], b"AZ=270 EL=045\r");
}

#[test]
fn encode_response_azimuth_position() {
    let mut buf = [0u8; 16];
    let n = encode_response_into(&Response::AzimuthPosition(270), &mut buf);
    assert_eq!(&buf[..n], b"AZ270.0\n");
}

#[test]
fn encode_response_elevation_position() {
    let mut buf = [0u8; 16];
    let n = encode_response_into(&Response::ElevationPosition(45), &mut buf);
    assert_eq!(&buf[..n], b"EL045.0\n");
}

// ── decode_command tests ──────────────────────────────────────────────────

#[test]
fn decode_command_query_position() {
    assert_eq!(decode_command(b"C"), Some(Command::QueryPosition));
}

#[test]
fn decode_command_stop() {
    assert_eq!(decode_command(b"S"), Some(Command::Stop));
}

#[test]
fn decode_command_keep_alive() {
    assert_eq!(decode_command(b"?"), Some(Command::KeepAlive));
}

#[test]
fn decode_command_azimuth() {
    assert_eq!(decode_command(b"A090"), Some(Command::Azimuth(90)));
    assert_eq!(decode_command(b"A360"), Some(Command::Azimuth(360)));
    assert_eq!(decode_command(b"A361"), None); // out of range
}

#[test]
fn decode_command_elevation() {
    assert_eq!(decode_command(b"E045"), Some(Command::Elevation(45)));
    assert_eq!(decode_command(b"E180"), Some(Command::Elevation(180)));
    assert_eq!(decode_command(b"E181"), None);
}

#[test]
fn decode_command_azimuth_elevation() {
    assert_eq!(
        decode_command(b"W180 090"),
        Some(Command::AzimuthElevation { az: 180, el: 90 })
    );
}

#[test]
fn decode_command_offset() {
    assert_eq!(
        decode_command(b"O+010-005"),
        Some(Command::Offset { az: 10, el: -5 })
    );
}

#[test]
fn decode_command_strips_checksum() {
    // "C*43" — checksum stripped, then decoded as QueryPosition
    assert_eq!(decode_command(b"C*43"), Some(Command::QueryPosition));
}

// ── Easycomm II command tests ─────────────────────────────────────────────

#[test]
fn decode_command_query_azimuth() {
    assert_eq!(decode_command(b"AZ"), Some(Command::QueryAzimuth));
}

#[test]
fn decode_command_query_elevation() {
    assert_eq!(decode_command(b"EL"), Some(Command::QueryElevation));
}

#[test]
fn decode_command_easycomm2_set_azimuth() {
    assert_eq!(decode_command(b"AZ180.0"), Some(Command::Azimuth(180)));
    assert_eq!(decode_command(b"AZ45"), Some(Command::Azimuth(45)));
    assert_eq!(decode_command(b"AZ361.0"), None); // out of range
}

#[test]
fn decode_command_easycomm2_set_elevation() {
    assert_eq!(decode_command(b"EL90.0"), Some(Command::Elevation(90)));
    assert_eq!(decode_command(b"EL45"), Some(Command::Elevation(45)));
    assert_eq!(decode_command(b"EL181.0"), None);
}

#[test]
fn decode_command_easycomm2_set_both() {
    assert_eq!(
        decode_command(b"AZ180.0 EL90.0"),
        Some(Command::AzimuthElevation { az: 180, el: 90 })
    );
}

#[test]
fn decode_command_easycomm2_stop() {
    assert_eq!(decode_command(b"SA SE"), Some(Command::Stop));
    assert_eq!(decode_command(b"SA"), Some(Command::Stop));
    assert_eq!(decode_command(b"SE"), Some(Command::Stop));
}

// ── decode response tests (single-axis) ───────────────────────────────────

#[test]
fn decode_azimuth_position() {
    assert_eq!(
        decode(b"AZ=270.0\r").unwrap(),
        Response::AzimuthPosition(270)
    );
}

#[test]
fn decode_elevation_position() {
    assert_eq!(
        decode(b"EL=045.0\r").unwrap(),
        Response::ElevationPosition(45)
    );
}

// ── Easycomm III encode tests ────────────────────────────────────────────

#[test]
fn encode_velocity_left() {
    assert_eq!(enc(&Command::VelocityLeft(100)), b"VL100\r");
}

#[test]
fn encode_velocity_right() {
    assert_eq!(enc(&Command::VelocityRight(0)), b"VR0\r");
}

#[test]
fn encode_velocity_up() {
    assert_eq!(enc(&Command::VelocityUp(5000)), b"VU5000\r");
}

#[test]
fn encode_velocity_down() {
    assert_eq!(enc(&Command::VelocityDown(250)), b"VD250\r");
}

#[test]
fn encode_get_status_register() {
    assert_eq!(enc(&Command::GetStatusRegister), b"GS\r");
}

#[test]
fn encode_get_error_register() {
    assert_eq!(enc(&Command::GetErrorRegister), b"GE\r");
}

#[test]
fn encode_read_config() {
    assert_eq!(enc(&Command::ReadConfig(0)), b"CR0\r");
    assert_eq!(enc(&Command::ReadConfig(5)), b"CR5\r");
}

#[test]
fn encode_write_config() {
    assert_eq!(enc(&Command::WriteConfig { register: 0, value: 1000 }), b"CW0,1000\r");
    assert_eq!(enc(&Command::WriteConfig { register: 3, value: -50 }), b"CW3,-50\r");
}

#[test]
fn encode_reset() {
    assert_eq!(enc(&Command::Reset), b"RESET\r");
}

#[test]
fn encode_park() {
    assert_eq!(enc(&Command::Park), b"PARK\r");
}

// ── Easycomm III decode command tests ─────────────────────────────────────

#[test]
fn decode_command_get_status_register() {
    assert_eq!(decode_command(b"GS"), Some(Command::GetStatusRegister));
}

#[test]
fn decode_command_get_error_register() {
    assert_eq!(decode_command(b"GE"), Some(Command::GetErrorRegister));
}

#[test]
fn decode_command_velocity_left() {
    assert_eq!(decode_command(b"VL100"), Some(Command::VelocityLeft(100)));
}

#[test]
fn decode_command_velocity_right() {
    assert_eq!(decode_command(b"VR0"), Some(Command::VelocityRight(0)));
}

#[test]
fn decode_command_velocity_up() {
    assert_eq!(decode_command(b"VU5000"), Some(Command::VelocityUp(5000)));
}

#[test]
fn decode_command_velocity_down() {
    assert_eq!(decode_command(b"VD250"), Some(Command::VelocityDown(250)));
}

#[test]
fn decode_command_read_config() {
    assert_eq!(decode_command(b"CR0"), Some(Command::ReadConfig(0)));
    assert_eq!(decode_command(b"CR5"), Some(Command::ReadConfig(5)));
}

#[test]
fn decode_command_write_config() {
    assert_eq!(
        decode_command(b"CW0,1000"),
        Some(Command::WriteConfig { register: 0, value: 1000 })
    );
    assert_eq!(
        decode_command(b"CW3,-50"),
        Some(Command::WriteConfig { register: 3, value: -50 })
    );
}

#[test]
fn decode_command_reset() {
    assert_eq!(decode_command(b"RESET"), Some(Command::Reset));
}

#[test]
fn decode_command_park() {
    assert_eq!(decode_command(b"PARK"), Some(Command::Park));
}

// ── Easycomm III decode response tests ────────────────────────────────────

#[test]
fn decode_status_register() {
    assert_eq!(decode(b"GS2\n").unwrap(), Response::StatusRegister(2));
}

#[test]
fn decode_error_register() {
    assert_eq!(decode(b"GE4\n").unwrap(), Response::ErrorRegister(4));
}

#[test]
fn decode_config_value() {
    assert_eq!(
        decode(b"CR0,1000\n").unwrap(),
        Response::ConfigValue { register: 0, value: 1000 }
    );
    assert_eq!(
        decode(b"CR3,-50\n").unwrap(),
        Response::ConfigValue { register: 3, value: -50 }
    );
}

// ── Easycomm III encode response tests ────────────────────────────────────

#[test]
fn encode_response_status_register() {
    let mut buf = [0u8; 32];
    let n = encode_response_into(&Response::StatusRegister(2), &mut buf);
    assert_eq!(&buf[..n], b"GS2\n");
}

#[test]
fn encode_response_error_register() {
    let mut buf = [0u8; 32];
    let n = encode_response_into(&Response::ErrorRegister(4), &mut buf);
    assert_eq!(&buf[..n], b"GE4\n");
}

#[test]
fn encode_response_config_value() {
    let mut buf = [0u8; 32];
    let n = encode_response_into(&Response::ConfigValue { register: 0, value: 1000 }, &mut buf);
    assert_eq!(&buf[..n], b"CR0,1000\n");
}

#[test]
fn command_parser_incremental() {
    let mut p = CommandParser::new();
    let frame = b"A090\r";
    let mut result = None;
    for &b in frame {
        result = p.feed(b);
    }
    assert_eq!(result, Some(Command::Azimuth(90)));
}

// ── status tests ──────────────────────────────────────────────────────────

#[test]
fn encode_query_status() {
    assert_eq!(enc(&Command::QueryStatus), b"GS\r");
}

#[test]
fn decode_status_idle() {
    assert_eq!(decode(b"ST=idle\r").unwrap(), Response::Status(DeviceStatus::Idle));
}

#[test]
fn decode_status_moving() {
    assert_eq!(decode(b"ST=moving\r").unwrap(), Response::Status(DeviceStatus::Moving));
}

#[test]
fn decode_status_homing() {
    assert_eq!(decode(b"ST=homing\r").unwrap(), Response::Status(DeviceStatus::Homing));
}

#[test]
fn decode_status_not_homed() {
    assert_eq!(decode(b"ST=not_homed\r").unwrap(), Response::Status(DeviceStatus::NotHomed));
}

#[test]
fn decode_status_homing_az_error() {
    assert_eq!(
        decode(b"ST=homing_az_error\r").unwrap(),
        Response::Status(DeviceStatus::HomingAzError)
    );
}

#[test]
fn decode_status_homing_el_error() {
    assert_eq!(
        decode(b"ST=homing_el_error\r").unwrap(),
        Response::Status(DeviceStatus::HomingElError)
    );
}

#[test]
fn decode_status_unknown() {
    assert_eq!(decode(b"ST=bogus\r"), Err(ParseError::UnknownCommand));
}

#[test]
fn encode_response_status() {
    let mut buf = [0u8; 32];
    let n = encode_response_into(&Response::Status(DeviceStatus::HomingAzError), &mut buf);
    assert_eq!(&buf[..n], b"ST=homing_az_error\r");
}

#[test]
fn decode_command_gs_maps_to_get_status_register() {
    // Bare "GS" on the wire maps to Easycomm III GetStatusRegister.
    assert_eq!(decode_command(b"GS"), Some(Command::GetStatusRegister));
}

#[test]
fn round_trip_status_response() {
    let resp = Response::Status(DeviceStatus::Idle);
    let mut buf = [0u8; 32];
    let n = encode_response_into(&resp, &mut buf);
    assert_eq!(decode(&buf[..n]).unwrap(), resp);
}

// ── Parser tests ──────────────────────────────────────────────────────────

#[test]
fn parser_incremental() {
    let mut p = Parser::new();
    let data = b"AZ=045 EL=010\r";
    let mut results = Vec::new();
    for &b in data {
        if let Some(r) = p.feed(b) {
            results.push(r);
        }
    }
    assert_eq!(results.len(), 1);
    assert_eq!(results[0].as_ref().unwrap(), &Response::Position { az: 45, el: 10 });
}

#[test]
fn parser_multiple_frames() {
    let mut p = Parser::new();
    let data = b"?\rAZ=090 EL=000\r";
    let results = p.feed_slice(data);
    assert_eq!(results.len(), 2);
    assert_eq!(results[0].as_ref().unwrap(), &Response::Error);
    assert_eq!(results[1].as_ref().unwrap(), &Response::Position { az: 90, el: 0 });
}
