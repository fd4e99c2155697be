//! Frame encoding and decoding for the Easycom protocol.
//!
//! Supports GS-232A/B, Easycomm II, and Easycomm III command formats:
//!
//! GS-232 commands:
//! - `A<NNN>\r`  — set azimuth, 3 zero-padded decimal digits
//! - `E<NNN>\r`  — set elevation, 3 zero-padded decimal digits
//! - `W<NNN> <NNN>\r` — set azimuth and elevation (space-separated)
//! - `C\r`       — query current position (both axes)
//! - `S\r`       — stop
//!
//! Easycomm II commands:
//! - `AZ\r`      — query azimuth
//! - `EL\r`      — query elevation
//! - `AZnnn.n\r` — set azimuth (decimal degrees)
//! - `ELnnn.n\r` — set elevation (decimal degrees)
//! - `AZnnn.n ELnnn.n\r` — set both axes
//! - `SA SE\r`   — stop all axes
//!
//! Easycomm III commands:
//! - `VL<speed>\r` / `VR<speed>\r` — velocity left/right (mdeg/s)
//! - `VU<speed>\r` / `VD<speed>\r` — velocity up/down (mdeg/s)
//! - `GS\r`      — get status register (bitmask)
//! - `GE\r`      — get error register (bitmask)
//! - `CR<reg>\r` — read configuration register
//! - `CW<reg>,<val>\r` — write configuration register
//! - `RESET\r`   — reset device
//! - `PARK\r`    — move to park position
//!
//! An optional XOR checksum may be appended as `*XX` (ASCII hex) before `\r`.
//!
//! Response formats:
//! - `AZ=NNN EL=NNN\r` — position response to a `C` query
//! - `AZ=NNN.N\r`      — azimuth-only response (Easycomm II)
//! - `EL=NNN.N\r`      — elevation-only response (Easycomm II)
//! - `ST=<status>\r`   — status response (`idle`, `moving`, `homing`,
//!   `not_homed`, `homing_az_error`, `homing_el_error`)
//! - `GS<val>\n`       — status register bitmask (Easycomm III)
//! - `GE<val>\n`       — error register bitmask (Easycomm III)
//! - `CR<reg>,<val>\n` — configuration register value (Easycomm III)
//! - `+\r` or an empty `\r` — acknowledgement
//! - `?\r` — device error

use vstd::prelude::*;

use crate::ascii::ascii_digit;
use crate::ascii::bytes_eq;
use crate::ascii::decimal;
use crate::ascii::find_byte;
use crate::ascii::find_label;
use crate::ascii::is_utf8;
use crate::ascii::parse_i32;
use crate::ascii::parse_u16;
use crate::ascii::parse_u32;
use crate::ascii::rfind_byte_before;
use crate::ascii::starts_with;
use crate::ascii::find_from;
use crate::ascii::first_index;
use crate::ascii::has_prefix;
use crate::ascii::is_digit;
use crate::ascii::is_line_end;
use crate::ascii::last_index_before;
use crate::ascii::parse_i32_text;
use crate::ascii::parse_unsigned;
use crate::ascii::lemma_decimal;
use crate::ascii::lemma_text_bytes;
use crate::ascii::signed_decimal;
use crate::ascii::splice;
use crate::ascii::text;
use crate::ascii::three_digits;
use crate::ascii::write_3digits;
use crate::ascii::write_i32;
use crate::ascii::write_u32;
use crate::command::Command;
use crate::command::DeviceStatus;
use crate::command::Response;
use crate::error::Error;
use crate::error::ParseError;
use vstd::utf8::valid_utf8;

verus! {

// ── Model of the encoded frames ──────────────────────────────────────────────

/// Message reported for an azimuth outside 0–360.
pub open spec fn azimuth_range_text() -> Seq<char> {
    "azimuth must be 0–360"@
}

/// Message reported for an elevation outside 0–180.
pub open spec fn elevation_range_text() -> Seq<char> {
    "elevation must be 0–180"@
}

/// The parameter fault of a command, if any: azimuths above 360 and
/// elevations above 180 cannot be sent (the azimuth is checked first).
pub open spec fn command_param_error(cmd: Command) -> Option<Seq<char>> {
    match cmd {
        Command::Azimuth(az) => if az > 360 {
            Some(azimuth_range_text())
        } else {
            None
        },
        Command::Elevation(el) => if el > 180 {
            Some(elevation_range_text())
        } else {
            None
        },
        Command::AzimuthElevation { az, el } => if az > 360 {
            Some(azimuth_range_text())
        } else if el > 180 {
            Some(elevation_range_text())
        } else {
            None
        },
        _ => None,
    }
}

/// Sign character and three zero-padded digits of the magnitude of `v`.
pub open spec fn signed_three_digits(v: int) -> Seq<u8> {
    seq![if v >= 0 { '+' as u8 } else { '-' as u8 }] + three_digits(
        if v >= 0 { v as nat } else { (-v) as nat },
    )
}

/// The bytes of a command frame before its `\r` terminator.
pub open spec fn command_payload(cmd: Command) -> Seq<u8> {
    match cmd {
        Command::Azimuth(az) => text("A") + three_digits(az as nat),
        Command::Elevation(el) => text("E") + three_digits(el as nat),
        Command::AzimuthElevation { az, el } => text("W") + three_digits(az as nat) + text(" ")
            + three_digits(el as nat),
        Command::QueryPosition => text("C"),
        Command::QueryAzimuth => text("AZ"),
        Command::QueryElevation => text("EL"),
        Command::QueryStatus => text("GS"),
        Command::Stop => text("S"),
        Command::KeepAlive => text("?"),
        Command::Offset { az, el } => text("O") + signed_three_digits(az as int)
            + signed_three_digits(el as int),
        Command::VelocityLeft(speed) => text("VL") + decimal(speed as nat),
        Command::VelocityRight(speed) => text("VR") + decimal(speed as nat),
        Command::VelocityUp(speed) => text("VU") + decimal(speed as nat),
        Command::VelocityDown(speed) => text("VD") + decimal(speed as nat),
        Command::GetStatusRegister => text("GS"),
        Command::GetErrorRegister => text("GE"),
        Command::ReadConfig(reg) => text("CR") + decimal(reg as nat),
        Command::WriteConfig { register, value } => text("CW") + decimal(register as nat) + text(
            ",",
        ) + signed_decimal(value as int),
        Command::Reset => text("RESET"),
        Command::Park => text("PARK"),
    }
}

/// The complete command frame: the payload followed by `\r`.
pub open spec fn command_frame(cmd: Command) -> Seq<u8> {
    command_payload(cmd) + text("\r")
}

/// XOR of all bytes of `s`.
pub open spec fn xor_all(s: Seq<u8>) -> u8
    decreases s.len(),
{
    if s.len() == 0 {
        0
    } else {
        xor_all(s.drop_last()) ^ s.last()
    }
}

/// Upper-case hexadecimal digit for a value below 16.
pub open spec fn hex_char(v: u8) -> u8 {
    if v < 10 {
        (v + '0' as u8) as u8
    } else {
        (v - 10 + 'A' as u8) as u8
    }
}

/// The `*XX` suffix carrying checksum `c` in upper-case hexadecimal.
pub open spec fn checksum_suffix(c: u8) -> Seq<u8> {
    seq!['*' as u8, hex_char(c >> 4), hex_char(c & 0x0f)]
}

/// A command frame with its checksum: payload, `*XX`, then `\r`.
pub open spec fn checksummed_command_frame(cmd: Command) -> Seq<u8> {
    command_payload(cmd) + checksum_suffix(xor_all(command_payload(cmd))) + text("\r")
}

/// The wire name of each device status.
pub open spec fn status_name(s: DeviceStatus) -> Seq<char> {
    match s {
        DeviceStatus::Idle => "idle"@,
        DeviceStatus::Moving => "moving"@,
        DeviceStatus::Homing => "homing"@,
        DeviceStatus::NotHomed => "not_homed"@,
        DeviceStatus::HomingAzError => "homing_az_error"@,
        DeviceStatus::HomingElError => "homing_el_error"@,
    }
}

/// The wire name of a device status, as bytes.
pub open spec fn status_bytes(s: DeviceStatus) -> Seq<u8> {
    status_name(s).map_values(|c: char| c as u8)
}

/// The complete response frame a device sends for `resp`.
pub open spec fn response_frame(resp: Response) -> Seq<u8> {
    match resp {
        Response::Ack => text("+\r"),
        Response::Error => text("?\r"),
        Response::Position { az, el } => text("AZ=") + three_digits(az as nat) + text(" EL=")
            + three_digits(el as nat) + text("\r"),
        Response::AzimuthPosition(az) => text("AZ") + three_digits(az as nat) + text(".0\n"),
        Response::ElevationPosition(el) => text("EL") + three_digits(el as nat) + text(".0\n"),
        Response::Status(status) => text("ST=") + status_bytes(status) + text("\r"),
        Response::StatusRegister(v) => text("GS") + decimal(v as nat) + text("\n"),
        Response::ErrorRegister(v) => text("GE") + decimal(v as nat) + text("\n"),
        Response::ConfigValue { register, value } => text("CR") + decimal(register as nat) + text(
            ",",
        ) + signed_decimal(value as int) + text("\n"),
    }
}

// ── Encoding ─────────────────────────────────────────────────────────────────

/// Compute the XOR checksum of `data`.
pub fn xor_checksum(data: &[u8]) -> (r: u8)
    ensures
        r == xor_all(data@),
{
    let mut acc: u8 = 0;
    let mut i: usize = 0;
    while i < data.len()
        invariant
            i <= data@.len(),
            acc == xor_all(data@.take(i as int)),
        decreases data@.len() - i,
    {
        assert(data@.take(i + 1).drop_last() =~= data@.take(i as int));
        acc = acc ^ data[i];
        i = i + 1;
    }
    assert(data@.take(i as int) =~= data@);
    acc
}

/// Upper-case hexadecimal digit for a value below 16.
fn hex_digit(v: u8) -> (r: u8)
    requires
        v < 16,
    ensures
        r == hex_char(v),
{
    if v < 10 {
        v + '0' as u8
    } else {
        v - 10 + 'A' as u8
    }
}

/// Write a two-hex-digit checksum suffix `*XX` into `buf` starting at `pos`.
/// Returns the new position after the suffix.
fn write_checksum(buf: &mut [u8], pos: usize, checksum: u8) -> (r: usize)
    requires
        pos + 3 <= old(buf)@.len(),
    ensures
        r == pos + 3,
        final(buf)@ == splice(old(buf)@, pos as int, checksum_suffix(checksum)),
{
    assert(checksum >> 4 < 16 && checksum & 0x0f < 16) by (bit_vector);
    buf[pos] = '*' as u8;
    buf[pos + 1] = hex_digit(checksum >> 4);
    buf[pos + 2] = hex_digit(checksum & 0x0f);
    assert(final(buf)@ =~= splice(old(buf)@, pos as int, checksum_suffix(checksum)));
    pos + 3
}

/// Every command frame is between 2 and 20 bytes long.
pub proof fn lemma_command_frame_len(cmd: Command)
    ensures
        2 <= command_frame(cmd).len() <= 20,
        command_frame(cmd).len() == command_payload(cmd).len() + 1,
{
    reveal_strlit("A");
    reveal_strlit("E");
    reveal_strlit("W");
    reveal_strlit(" ");
    reveal_strlit("C");
    reveal_strlit("AZ");
    reveal_strlit("EL");
    reveal_strlit("GS");
    reveal_strlit("S");
    reveal_strlit("?");
    reveal_strlit("O");
    reveal_strlit("VL");
    reveal_strlit("VR");
    reveal_strlit("VU");
    reveal_strlit("VD");
    reveal_strlit("GE");
    reveal_strlit("CR");
    reveal_strlit("CW");
    reveal_strlit(",");
    reveal_strlit("RESET");
    reveal_strlit("PARK");
    reveal_strlit("\r");
    match cmd {
        Command::VelocityLeft(s) => lemma_decimal(s as nat),
        Command::VelocityRight(s) => lemma_decimal(s as nat),
        Command::VelocityUp(s) => lemma_decimal(s as nat),
        Command::VelocityDown(s) => lemma_decimal(s as nat),
        Command::ReadConfig(r) => lemma_decimal(r as nat),
        Command::WriteConfig { register, value } => {
            lemma_decimal(register as nat);
            if value < 0 {
                lemma_decimal((-value) as nat);
            } else {
                lemma_decimal(value as nat);
            }
        },
        _ => {},
    }
}

/// Write a sign character followed by a zero-padded 3-digit decimal. Returns new pos.
fn write_signed_3digits(buf: &mut [u8], pos: usize, n: i16) -> (r: usize)
    requires
        pos + 4 <= old(buf)@.len(),
    ensures
        r == pos + 4,
        final(buf)@ == splice(old(buf)@, pos as int, signed_three_digits(n as int)),
{
    buf[pos] = if n >= 0 { '+' as u8 } else { '-' as u8 };
    let magnitude: u16 = if n >= 0 { n as u16 } else { (-(n as i32)) as u16 };
    let ghost mid = buf@;
    let r = write_3digits(buf, pos + 1, magnitude);
    assert(final(buf)@ =~= splice(old(buf)@, pos as int, signed_three_digits(n as int)));
    r
}

/// Write `<letter><NNN>\r` and return total length.
fn format_cmd_3digit(letter: u8, value: u16, buf: &mut [u8]) -> (r: usize)
    requires
        5 <= old(buf)@.len(),
    ensures
        r == 5,
        final(buf)@ == splice(
            old(buf)@,
            0,
            seq![letter] + three_digits(value as nat) + seq!['\r' as u8],
        ),
{
    buf[0] = letter;
    write_3digits(buf, 1, value);
    buf[4] = '\r' as u8;
    assert(final(buf)@ =~= splice(
        old(buf)@,
        0,
        seq![letter] + three_digits(value as nat) + seq!['\r' as u8],
    ));
    5
}

/// Encode a velocity command: `<prefix><speed>\r`.
fn write_velocity_cmd(buf: &mut [u8], prefix: &[u8; 2], speed: u32) -> (r: Result<
    usize,
    &'static str,
>)
    requires
        decimal(speed as nat).len() + 3 <= old(buf)@.len(),
    ensures
        r == Ok::<usize, &'static str>((decimal(speed as nat).len() + 3) as usize),
        final(buf)@ == splice(
            old(buf)@,
            0,
            prefix@ + decimal(speed as nat) + seq!['\r' as u8],
        ),
{
    buf[0] = prefix[0];
    buf[1] = prefix[1];
    let pos = write_u32(buf, 2, speed);
    buf[pos] = '\r' as u8;
    assert(final(buf)@ =~= splice(
        old(buf)@,
        0,
        prefix@ + decimal(speed as nat) + seq!['\r' as u8],
    ));
    Ok(pos + 1)
}

/// Writes the bytes of `word` at the start of `buf`, then `\r`. Returns the
/// frame length.
fn write_word_frame(buf: &mut [u8], word: &[u8]) -> (r: usize)
    requires
        word@.len() + 1 <= old(buf)@.len(),
    ensures
        r == word@.len() + 1,
        final(buf)@ == splice(old(buf)@, 0, word@ + seq!['\r' as u8]),
{
    let n = copy_bytes(buf, 0, word);
    buf[n] = '\r' as u8;
    assert(final(buf)@ =~= splice(old(buf)@, 0, word@ + seq!['\r' as u8]));
    n + 1
}

/// The encoding of the angle-setting commands (`A`, `E`, `W`).
fn encode_set_angle(cmd: &Command, buf: &mut [u8]) -> (r: Result<usize, &'static str>)
    requires
        command_param_error(*cmd) is None ==> command_frame(*cmd).len() <= old(buf)@.len(),
        cmd is Azimuth || cmd is Elevation || cmd is AzimuthElevation,
    ensures
        match command_param_error(*cmd) {
            Some(msg) => r matches Err(e) && e@ == msg && final(buf)@ == old(buf)@,
            None => r == Ok::<usize, &'static str>(command_frame(*cmd).len() as usize)
                && final(buf)@ == splice(old(buf)@, 0, command_frame(*cmd)),
        },
{
    proof {
        reveal_strlit("A");
        reveal_strlit("E");
        reveal_strlit("W");
        reveal_strlit(" ");
        reveal_strlit("\r");
    }
    let ghost frame = command_frame(*cmd);
    match cmd {
        Command::Azimuth(az) => {
            if *az > 360 {
                return Err("azimuth must be 0–360");
            }
            let payload = format_cmd_3digit('A' as u8, *az, buf);
            assert(frame =~= seq!['A' as u8] + three_digits(*az as nat) + seq!['\r' as u8]);
            Ok(payload)
        },
        Command::Elevation(el) => {
            if *el > 180 {
                return Err("elevation must be 0–180");
            }
            let payload = format_cmd_3digit('E' as u8, *el, buf);
            assert(frame =~= seq!['E' as u8] + three_digits(*el as nat) + seq!['\r' as u8]);
            Ok(payload)
        },
        Command::AzimuthElevation { az, el } => {
            if *az > 360 {
                return Err("azimuth must be 0–360");
            }
            if *el > 180 {
                return Err("elevation must be 0–180");
            }
            // "WAZZ ELL\r"
            buf[0] = 'W' as u8;
            write_3digits(buf, 1, *az);
            buf[4] = ' ' as u8;
            write_3digits(buf, 5, *el);
            buf[8] = '\r' as u8;
            assert(final(buf)@ =~= splice(old(buf)@, 0, frame));
            Ok(9)
        },
        _ => vstd::pervasive::unreached(),
    }
}

/// The encoding of the commands that carry no parameter.
fn encode_keyword(cmd: &Command, buf: &mut [u8]) -> (r: usize)
    requires
        command_frame(*cmd).len() <= old(buf)@.len(),
        cmd is QueryPosition || cmd is QueryAzimuth || cmd is QueryElevation || cmd is QueryStatus
            || cmd is Stop || cmd is KeepAlive || cmd is GetStatusRegister || cmd is GetErrorRegister
            || cmd is Reset || cmd is Park,
    ensures
        r == command_frame(*cmd).len(),
        final(buf)@ == splice(old(buf)@, 0, command_frame(*cmd)),
{
    proof {
        reveal_strlit("C");
        reveal_strlit("AZ");
        reveal_strlit("EL");
        reveal_strlit("GS");
        reveal_strlit("S");
        reveal_strlit("?");
        reveal_strlit("GE");
        reveal_strlit("RESET");
        reveal_strlit("PARK");
        reveal_strlit("\r");
    }
    let ghost frame = command_frame(*cmd);
    match cmd {
        Command::QueryPosition => {
            let n = write_word_frame(buf, &['C' as u8]);
            assert(frame =~= seq!['C' as u8] + seq!['\r' as u8]);
            n
        },
        Command::QueryAzimuth => {
            let n = write_word_frame(buf, &['A' as u8, 'Z' as u8]);
            assert(frame =~= seq!['A' as u8, 'Z' as u8] + seq!['\r' as u8]);
            n
        },
        Command::QueryElevation => {
            let n = write_word_frame(buf, &['E' as u8, 'L' as u8]);
            assert(frame =~= seq!['E' as u8, 'L' as u8] + seq!['\r' as u8]);
            n
        },
        Command::QueryStatus | Command::GetStatusRegister => {
            let n = write_word_frame(buf, &['G' as u8, 'S' as u8]);
            assert(frame =~= seq!['G' as u8, 'S' as u8] + seq!['\r' as u8]);
            n
        },
        Command::Stop => {
            let n = write_word_frame(buf, &['S' as u8]);
            assert(frame =~= seq!['S' as u8] + seq!['\r' as u8]);
            n
        },
        Command::KeepAlive => {
            let n = write_word_frame(buf, &['?' as u8]);
            assert(frame =~= seq!['?' as u8] + seq!['\r' as u8]);
            n
        },
        Command::GetErrorRegister => {
            let n = write_word_frame(buf, &['G' as u8, 'E' as u8]);
            assert(frame =~= seq!['G' as u8, 'E' as u8] + seq!['\r' as u8]);
            n
        },
        Command::Reset => {
            let n = write_word_frame(
                buf,
                &['R' as u8, 'E' as u8, 'S' as u8, 'E' as u8, 'T' as u8],
            );
            assert(frame =~= seq!['R' as u8, 'E' as u8, 'S' as u8, 'E' as u8, 'T' as u8] + seq![
                '\r' as u8,
            ]);
            n
        },
        Command::Park => {
            let n = write_word_frame(buf, &['P' as u8, 'A' as u8, 'R' as u8, 'K' as u8]);
            assert(frame =~= seq!['P' as u8, 'A' as u8, 'R' as u8, 'K' as u8] + seq!['\r' as u8]);
            n
        },
        _ => vstd::pervasive::unreached(),
    }
}

/// The encoding of the Easycomm III velocity commands.
fn encode_velocity(cmd: &Command, buf: &mut [u8]) -> (r: Result<usize, &'static str>)
    requires
        command_frame(*cmd).len() <= old(buf)@.len(),
        cmd is VelocityLeft || cmd is VelocityRight || cmd is VelocityUp || cmd is VelocityDown,
    ensures
        r == Ok::<usize, &'static str>(command_frame(*cmd).len() as usize),
        final(buf)@ == splice(old(buf)@, 0, command_frame(*cmd)),
{
    proof {
        reveal_strlit("VL");
        reveal_strlit("VR");
        reveal_strlit("VU");
        reveal_strlit("VD");
        reveal_strlit("\r");
    }
    let ghost frame = command_frame(*cmd);
    match cmd {
        Command::VelocityLeft(speed) => {
            let r = write_velocity_cmd(buf, &['V' as u8, 'L' as u8], *speed);
            assert(frame =~= seq!['V' as u8, 'L' as u8] + decimal(*speed as nat) + seq!['\r' as u8]);
            r
        },
        Command::VelocityRight(speed) => {
            let r = write_velocity_cmd(buf, &['V' as u8, 'R' as u8], *speed);
            assert(frame =~= seq!['V' as u8, 'R' as u8] + decimal(*speed as nat) + seq!['\r' as u8]);
            r
        },
        Command::VelocityUp(speed) => {
            let r = write_velocity_cmd(buf, &['V' as u8, 'U' as u8], *speed);
            assert(frame =~= seq!['V' as u8, 'U' as u8] + decimal(*speed as nat) + seq!['\r' as u8]);
            r
        },
        Command::VelocityDown(speed) => {
            let r = write_velocity_cmd(buf, &['V' as u8, 'D' as u8], *speed);
            assert(frame =~= seq!['V' as u8, 'D' as u8] + decimal(*speed as nat) + seq!['\r' as u8]);
            r
        },
        _ => vstd::pervasive::unreached(),
    }
}

/// The encoding of the commands with a numeric argument of variable width.
fn encode_numeric(cmd: &Command, buf: &mut [u8]) -> (r: Result<usize, &'static str>)
    requires
        command_frame(*cmd).len() <= old(buf)@.len(),
        cmd is Offset || cmd is ReadConfig || cmd is WriteConfig,
    ensures
        r == Ok::<usize, &'static str>(command_frame(*cmd).len() as usize),
        final(buf)@ == splice(old(buf)@, 0, command_frame(*cmd)),
{
    proof {
        reveal_strlit("O");
        reveal_strlit("CR");
        reveal_strlit("CW");
        reveal_strlit(",");
        reveal_strlit("\r");
    }
    let ghost frame = command_frame(*cmd);
    match cmd {
        Command::Offset { az, el } => {
            // "O+AZZ+ELL\r" — sign-prefixed 3-digit values
            buf[0] = 'O' as u8;
            let pos = write_signed_3digits(buf, 1, *az);
            let pos = write_signed_3digits(buf, pos, *el);
            buf[pos] = '\r' as u8;
            assert(final(buf)@ =~= splice(old(buf)@, 0, frame));
            Ok(pos + 1)
        },
        Command::ReadConfig(reg) => {
            buf[0] = 'C' as u8;
            buf[1] = 'R' as u8;
            let pos = write_u32(buf, 2, *reg as u32);
            buf[pos] = '\r' as u8;
            assert(final(buf)@ =~= splice(old(buf)@, 0, frame));
            Ok(pos + 1)
        },
        Command::WriteConfig { register, value } => {
            buf[0] = 'C' as u8;
            buf[1] = 'W' as u8;
            let pos = write_u32(buf, 2, *register as u32);
            buf[pos] = ',' as u8;
            let pos = write_i32(buf, pos + 1, *value);
            buf[pos] = '\r' as u8;
            assert(final(buf)@ =~= splice(old(buf)@, 0, frame));
            Ok(pos + 1)
        },
        _ => vstd::pervasive::unreached(),
    }
}

/// Encode a [`Command`] into `buf` (fixed-buffer variant).
///
/// Returns the number of bytes written, or an error message if a parameter is
/// out of range; nothing is written then.
pub fn encode_into(cmd: &Command, buf: &mut [u8]) -> (r: Result<usize, &'static str>)
    requires
        command_param_error(*cmd) is None ==> command_frame(*cmd).len() <= old(buf)@.len(),
    ensures
        match command_param_error(*cmd) {
            Some(msg) => r matches Err(e) && e@ == msg && final(buf)@ == old(buf)@,
            None => r == Ok::<usize, &'static str>(command_frame(*cmd).len() as usize)
                && final(buf)@ == splice(old(buf)@, 0, command_frame(*cmd)),
        },
{
    match cmd {
        Command::Azimuth(_) | Command::Elevation(_) | Command::AzimuthElevation { .. } => {
            encode_set_angle(cmd, buf)
        },
        Command::VelocityLeft(_) | Command::VelocityRight(_) | Command::VelocityUp(_)
        | Command::VelocityDown(_) => encode_velocity(cmd, buf),
        Command::Offset { .. } | Command::ReadConfig(_) | Command::WriteConfig { .. } => {
            encode_numeric(cmd, buf)
        },
        _ => Ok(encode_keyword(cmd, buf)),
    }
}

/// Encode a [`Command`] into a byte frame and return it as a `Vec<u8>`.
///
/// The returned bytes include the trailing `\r` terminator.
///
/// # Errors
/// Returns [`Error::InvalidParam`] if an angle value is out of the valid range
/// (azimuth 0–360, elevation 0–180).
pub fn encode(cmd: &Command) -> (r: Result<Vec<u8>, Error<core::convert::Infallible>>)
    ensures
        match command_param_error(*cmd) {
            Some(msg) => r matches Err(Error::InvalidParam(e)) && e@ == msg,
            None => r matches Ok(v) && v@ == command_frame(*cmd),
        },
{
    // Maximum frame length is 20 bytes — a 32-byte buf is safe.
    proof {
        lemma_command_frame_len(*cmd);
    }
    let mut buf = [0u8; 32];
    let len = match encode_into(cmd, &mut buf) {
        Ok(n) => n,
        Err(e) => return Err(Error::InvalidParam(e)),
    };
    let frame = vstd::slice::slice_subrange(buf.as_slice(), 0, len);
    let v = vstd::slice::slice_to_vec(frame);
    assert(v@ =~= command_frame(*cmd));
    Ok(v)
}

/// Encode a [`Command`] with an XOR checksum into `buf`.
///
/// Returns the number of bytes written, or an error message if a parameter is
/// out of range.
pub fn encode_with_checksum(cmd: &Command, buf: &mut [u8]) -> (r: Result<usize, &'static str>)
    requires
        command_param_error(*cmd) is None ==> checksummed_command_frame(*cmd).len()
            <= old(buf)@.len(),
    ensures
        match command_param_error(*cmd) {
            Some(msg) => r matches Err(e) && e@ == msg && final(buf)@ == old(buf)@,
            None => r == Ok::<usize, &'static str>(
                checksummed_command_frame(*cmd).len() as usize,
            ) && final(buf)@ == splice(old(buf)@, 0, checksummed_command_frame(*cmd)),
        },
{
    proof {
        lemma_command_frame_len(*cmd);
        reveal_strlit("\r");
    }
    // Build the payload (everything before the terminator).
    let frame_len = match encode_into(cmd, buf) {
        Ok(n) => n,
        Err(e) => return Err(e),
    };
    let payload_end = frame_len - 1;  // exclude the trailing \r
    let ghost payload = command_payload(*cmd);
    assert(buf@.take(payload_end as int) =~= payload);
    let checksum = xor_checksum(vstd::slice::slice_subrange(&*buf, 0, payload_end));
    let pos = write_checksum(buf, payload_end, checksum);
    buf[pos] = '\r' as u8;
    assert(final(buf)@ =~= splice(old(buf)@, 0, checksummed_command_frame(*cmd)));
    Ok(pos + 1)
}

/// Copies `src` into `buf` at `pos`. Returns the position after it.
fn copy_bytes(buf: &mut [u8], pos: usize, src: &[u8]) -> (r: usize)
    requires
        pos + src@.len() <= old(buf)@.len(),
    ensures
        r == pos + src@.len(),
        final(buf)@ == splice(old(buf)@, pos as int, src@),
{
    let blen = buf.len();
    let mut i: usize = 0;
    while i < src.len()
        invariant
            i <= src@.len(),
            pos + src@.len() <= buf@.len(),
            buf@.len() == old(buf)@.len(),
            buf@.len() == blen,
            forall|j: int| 0 <= j < pos ==> buf@[j] == old(buf)@[j],
            forall|j: int| 0 <= j < i ==> buf@[pos + j] == src@[j],
            forall|j: int| pos + i <= j < buf@.len() ==> buf@[j] == old(buf)@[j],
        decreases src@.len() - i,
    {
        buf[pos + i] = src[i];
        i = i + 1;
    }
    assert(buf@ =~= splice(old(buf)@, pos as int, src@));
    pos + i
}

/// Return the wire-format string for a [`DeviceStatus`].
fn status_to_str(status: &DeviceStatus) -> (r: &'static str)
    ensures
        r@ == status_name(*status),
{
    match status {
        DeviceStatus::Idle => "idle",
        DeviceStatus::Moving => "moving",
        DeviceStatus::Homing => "homing",
        DeviceStatus::NotHomed => "not_homed",
        DeviceStatus::HomingAzError => "homing_az_error",
        DeviceStatus::HomingElError => "homing_el_error",
    }
}

/// Status names are ASCII, so their UTF-8 bytes are their characters.
proof fn lemma_status_bytes(status: DeviceStatus)
    ensures
        vstd::utf8::encode_utf8(status_name(status)) == status_bytes(status),
        3 <= status_bytes(status).len() <= 15,
{
    reveal_strlit("idle");
    reveal_strlit("moving");
    reveal_strlit("homing");
    reveal_strlit("not_homed");
    reveal_strlit("homing_az_error");
    reveal_strlit("homing_el_error");
    let chars = status_name(status);
    assert(vstd::utf8::is_ascii_chars(chars));
    vstd::utf8::is_ascii_chars_encode_utf8(chars);
    assert(vstd::utf8::encode_utf8(chars) =~= status_bytes(status));
}

/// Every response frame is between 2 and 20 bytes long.
pub proof fn lemma_response_frame_len(resp: Response)
    ensures
        2 <= response_frame(resp).len() <= 20,
{
    reveal_strlit("+\r");
    reveal_strlit("?\r");
    reveal_strlit("AZ=");
    reveal_strlit(" EL=");
    reveal_strlit("\r");
    reveal_strlit("AZ");
    reveal_strlit("EL");
    reveal_strlit(".0\n");
    reveal_strlit("ST=");
    reveal_strlit("GS");
    reveal_strlit("GE");
    reveal_strlit("CR");
    reveal_strlit(",");
    reveal_strlit("\n");
    match resp {
        Response::Status(st) => lemma_status_bytes(st),
        Response::StatusRegister(v) => lemma_decimal(v as nat),
        Response::ErrorRegister(v) => lemma_decimal(v as nat),
        Response::ConfigValue { register, value } => {
            lemma_decimal(register as nat);
            if value < 0 {
                lemma_decimal((-value) as nat);
            } else {
                lemma_decimal(value as nat);
            }
        },
        _ => {},
    }
}

/// Encode a [`Response`] into `buf` (fixed-buffer variant).
///
/// Returns the number of bytes written. Every frame fits in 20 bytes.
pub fn encode_response_into(resp: &Response, buf: &mut [u8]) -> (r: usize)
    requires
        response_frame(*resp).len() <= old(buf)@.len(),
    ensures
        r == response_frame(*resp).len(),
        final(buf)@ == splice(old(buf)@, 0, response_frame(*resp)),
{
    match resp {
        Response::Ack | Response::Error | Response::Position { .. } => encode_fixed_response(
            resp,
            buf,
        ),
        Response::AzimuthPosition(_) | Response::ElevationPosition(_) | Response::Status(_) => {
            encode_text_response(resp, buf)
        },
        _ => encode_register_response(resp, buf),
    }
}

/// The encoding of acknowledgements, device errors and positions.
fn encode_fixed_response(resp: &Response, buf: &mut [u8]) -> (r: usize)
    requires
        response_frame(*resp).len() <= old(buf)@.len(),
        resp is Ack || resp is Error || resp is Position,
    ensures
        r == response_frame(*resp).len(),
        final(buf)@ == splice(old(buf)@, 0, response_frame(*resp)),
{
    proof {
        reveal_strlit("+\r");
        reveal_strlit("?\r");
        reveal_strlit("AZ=");
        reveal_strlit(" EL=");
        reveal_strlit("\r");
    }
    let ghost frame = response_frame(*resp);
    match resp {
        Response::Ack => {
            buf[0] = '+' as u8;
            buf[1] = '\r' as u8;
            assert(final(buf)@ =~= splice(old(buf)@, 0, frame));
            2
        },
        Response::Error => {
            buf[0] = '?' as u8;
            buf[1] = '\r' as u8;
            assert(final(buf)@ =~= splice(old(buf)@, 0, frame));
            2
        },
        Response::Position { az, el } => {
            // "AZ=NNN EL=NNN\r" — 14 bytes
            buf[0] = 'A' as u8;
            buf[1] = 'Z' as u8;
            buf[2] = '=' as u8;
            write_3digits(buf, 3, *az);
            buf[6] = ' ' as u8;
            buf[7] = 'E' as u8;
            buf[8] = 'L' as u8;
            buf[9] = '=' as u8;
            write_3digits(buf, 10, *el);
            buf[13] = '\r' as u8;
            assert(final(buf)@ =~= splice(old(buf)@, 0, frame));
            14
        },
        _ => vstd::pervasive::unreached(),
    }
}

/// The encoding of single-axis positions and device status.
fn encode_text_response(resp: &Response, buf: &mut [u8]) -> (r: usize)
    requires
        response_frame(*resp).len() <= old(buf)@.len(),
        resp is AzimuthPosition || resp is ElevationPosition || resp is Status,
    ensures
        r == response_frame(*resp).len(),
        final(buf)@ == splice(old(buf)@, 0, response_frame(*resp)),
{
    proof {
        reveal_strlit("AZ");
        reveal_strlit("EL");
        reveal_strlit(".0\n");
        reveal_strlit("ST=");
        reveal_strlit("\r");
    }
    let ghost frame = response_frame(*resp);
    match resp {
        Response::AzimuthPosition(az) => {
            // "AZNNN.0\n" — 8 bytes (Easycomm II, no '=')
            buf[0] = 'A' as u8;
            buf[1] = 'Z' as u8;
            write_3digits(buf, 2, *az);
            buf[5] = '.' as u8;
            buf[6] = '0' as u8;
            buf[7] = '\n' as u8;
            assert(final(buf)@ =~= splice(old(buf)@, 0, frame));
            8
        },
        Response::ElevationPosition(el) => {
            // "ELNNN.0\n" — 8 bytes (Easycomm II, no '=')
            buf[0] = 'E' as u8;
            buf[1] = 'L' as u8;
            write_3digits(buf, 2, *el);
            buf[5] = '.' as u8;
            buf[6] = '0' as u8;
            buf[7] = '\n' as u8;
            assert(final(buf)@ =~= splice(old(buf)@, 0, frame));
            8
        },
        Response::Status(status) => {
            // "ST=<status>\r"
            proof {
                lemma_status_bytes(*status);
            }
            buf[0] = 'S' as u8;
            buf[1] = 'T' as u8;
            buf[2] = '=' as u8;
            let value = status_to_str(status).as_bytes();
            let pos = copy_bytes(buf, 3, value);
            buf[pos] = '\r' as u8;
            assert(final(buf)@ =~= splice(old(buf)@, 0, frame));
            pos + 1
        },
        _ => vstd::pervasive::unreached(),
    }
}

/// The encoding of the Easycomm III register and configuration values.
fn encode_register_response(resp: &Response, buf: &mut [u8]) -> (r: usize)
    requires
        response_frame(*resp).len() <= old(buf)@.len(),
        resp is StatusRegister || resp is ErrorRegister || resp is ConfigValue,
    ensures
        r == response_frame(*resp).len(),
        final(buf)@ == splice(old(buf)@, 0, response_frame(*resp)),
{
    proof {
        reveal_strlit("GS");
        reveal_strlit("GE");
        reveal_strlit("CR");
        reveal_strlit(",");
        reveal_strlit("\n");
    }
    let ghost frame = response_frame(*resp);
    match resp {
        Response::StatusRegister(val) => {
            // "GS<val>\n"
            buf[0] = 'G' as u8;
            buf[1] = 'S' as u8;
            let pos = write_u32(buf, 2, *val as u32);
            buf[pos] = '\n' as u8;
            assert(final(buf)@ =~= splice(old(buf)@, 0, frame));
            pos + 1
        },
        Response::ErrorRegister(val) => {
            // "GE<val>\n"
            buf[0] = 'G' as u8;
            buf[1] = 'E' as u8;
            let pos = write_u32(buf, 2, *val as u32);
            buf[pos] = '\n' as u8;
            assert(final(buf)@ =~= splice(old(buf)@, 0, frame));
            pos + 1
        },
        Response::ConfigValue { register, value } => {
            // "CR<reg>,<val>\n"
            buf[0] = 'C' as u8;
            buf[1] = 'R' as u8;
            let pos = write_u32(buf, 2, *register as u32);
            buf[pos] = ',' as u8;
            let pos = write_i32(buf, pos + 1, *value);
            buf[pos] = '\n' as u8;
            assert(final(buf)@ =~= splice(old(buf)@, 0, frame));
            pos + 1
        },
        _ => vstd::pervasive::unreached(),
    }
}

// ── Model of response decoding ───────────────────────────────────────────────

/// `s` without its trailing `\r`/`\n` bytes.
pub open spec fn trim_line_end(s: Seq<u8>) -> Seq<u8>
    decreases s.len(),
{
    if s.len() > 0 && is_line_end(s.last()) {
        trim_line_end(s.drop_last())
    } else {
        s
    }
}

/// The value of a hexadecimal digit of either case.
pub open spec fn hex_value(b: u8) -> Option<u8> {
    if '0' as u8 <= b <= '9' as u8 {
        Some((b - '0' as u8) as u8)
    } else if 'a' as u8 <= b <= 'f' as u8 {
        Some((b - 'a' as u8 + 10) as u8)
    } else if 'A' as u8 <= b <= 'F' as u8 {
        Some((b - 'A' as u8 + 10) as u8)
    } else {
        None
    }
}

/// Where the checksum of a trimmed response frame starts: the last `*` that is
/// followed by at least two more bytes.
pub open spec fn checksum_star(t: Seq<u8>) -> Option<int> {
    last_index_before(t, '*' as u8, t.len() - 2)
}

/// The value after the label (`AZ=` or `EL=`) of a position response: the three
/// bytes after the first occurrence of the label, read as a `u16`.
pub open spec fn labeled_value(p: Seq<u8>, label: Seq<u8>) -> Option<nat> {
    match find_from(p, label, 0) {
        Some(i) => if i + label.len() + 3 <= p.len() {
            parse_unsigned(p.subrange(i + label.len(), i + label.len() + 3), 0xffff)
        } else {
            None
        },
        None => None,
    }
}

/// `AZ=NNN EL=NNN`: at least 13 bytes of UTF-8 holding both labelled values.
pub open spec fn position_reply(p: Seq<u8>) -> Option<Response> {
    if p.len() >= 13 && valid_utf8(p) {
        match (labeled_value(p, text("AZ=")), labeled_value(p, text("EL="))) {
            (Some(az), Some(el)) => Some(Response::Position { az: az as u16, el: el as u16 }),
            _ => None,
        }
    } else {
        None
    }
}

/// A decimal number, possibly with a fractional part, truncated to a `u16`:
/// the part before the first `.` must read as a `u16`.
pub open spec fn float_u16(s: Seq<u8>) -> Option<nat> {
    if s.len() == 0 {
        None
    } else {
        match first_index(s, '.' as u8) {
            Some(dot) => parse_unsigned(s.take(dot), 0xffff),
            None => parse_unsigned(s, 0xffff),
        }
    }
}

/// The value of a single-axis report after its `AZ`/`EL` prefix: an optional `=`
/// and a decimal number.
pub open spec fn axis_value(rest: Seq<u8>) -> Option<nat> {
    if rest.len() > 0 && rest[0] == '=' as u8 {
        float_u16(rest.skip(1))
    } else {
        float_u16(rest)
    }
}

/// `AZ[=]NNN.N` or `EL[=]NNN.N` on UTF-8 text.
pub open spec fn single_axis_reply(p: Seq<u8>) -> Option<Response> {
    if !valid_utf8(p) {
        None
    } else if has_prefix(p, text("AZ")) {
        match axis_value(p.skip(2)) {
            Some(v) => Some(Response::AzimuthPosition(v as u16)),
            None => None,
        }
    } else if has_prefix(p, text("EL")) {
        match axis_value(p.skip(2)) {
            Some(v) => Some(Response::ElevationPosition(v as u16)),
            None => None,
        }
    } else {
        None
    }
}

/// The device status whose wire name is `s`.
pub open spec fn status_named(s: Seq<u8>) -> Option<DeviceStatus> {
    if s == status_bytes(DeviceStatus::Idle) {
        Some(DeviceStatus::Idle)
    } else if s == status_bytes(DeviceStatus::Moving) {
        Some(DeviceStatus::Moving)
    } else if s == status_bytes(DeviceStatus::Homing) {
        Some(DeviceStatus::Homing)
    } else if s == status_bytes(DeviceStatus::NotHomed) {
        Some(DeviceStatus::NotHomed)
    } else if s == status_bytes(DeviceStatus::HomingAzError) {
        Some(DeviceStatus::HomingAzError)
    } else if s == status_bytes(DeviceStatus::HomingElError) {
        Some(DeviceStatus::HomingElError)
    } else {
        None
    }
}

/// `ST=<status>` on UTF-8 text.
pub open spec fn status_reply(p: Seq<u8>) -> Option<Response> {
    if valid_utf8(p) && has_prefix(p, text("ST=")) {
        match status_named(p.skip(3)) {
            Some(st) => Some(Response::Status(st)),
            None => None,
        }
    } else {
        None
    }
}

/// `CR<reg>,<val>` after the `CR` prefix: the register before the first comma
/// and the signed value after it.
pub open spec fn config_reply(rest: Seq<u8>) -> Option<Response> {
    match first_index(rest, ',' as u8) {
        Some(c) => match (parse_unsigned(rest.take(c), 0xffff), parse_i32_text(rest.skip(c + 1))) {
            (Some(reg), Some(val)) => Some(
                Response::ConfigValue { register: reg as u16, value: val as i32 },
            ),
            _ => None,
        },
        None => None,
    }
}

/// `GS<val>`, `GE<val>` and `CR<reg>,<val>` on UTF-8 text.
pub open spec fn register_reply(p: Seq<u8>) -> Option<Response> {
    if !valid_utf8(p) {
        None
    } else if has_prefix(p, text("GS")) {
        match parse_unsigned(p.skip(2), 0xffff) {
            Some(v) => Some(Response::StatusRegister(v as u16)),
            None => None,
        }
    } else if has_prefix(p, text("GE")) {
        match parse_unsigned(p.skip(2), 0xffff) {
            Some(v) => Some(Response::ErrorRegister(v as u16)),
            None => None,
        }
    } else if has_prefix(p, text("CR")) {
        config_reply(p.skip(2))
    } else {
        None
    }
}

/// What a response payload (checksum and terminator removed) means.
pub open spec fn response_payload(p: Seq<u8>) -> Result<Response, ParseError> {
    if p == text("?") {
        Ok(Response::Error)
    } else if p.len() == 0 || p == text("+") {
        Ok(Response::Ack)
    } else if let Some(r) = position_reply(p) {
        Ok(r)
    } else if let Some(r) = single_axis_reply(p) {
        Ok(r)
    } else if let Some(r) = status_reply(p) {
        Ok(r)
    } else if let Some(r) = register_reply(p) {
        Ok(r)
    } else {
        Err(ParseError::UnknownCommand)
    }
}

/// What a complete response frame means: trailing `\r`/`\n` are dropped, a
/// frame of only terminators is an acknowledgement, and a `*XX` checksum, when
/// present, must be hexadecimal and match the XOR of the payload before it.
pub open spec fn decoded_response(input: Seq<u8>) -> Result<Response, ParseError> {
    if input.len() == 0 {
        Err(ParseError::UnexpectedEof)
    } else {
        let t = trim_line_end(input);
        if t.len() == 0 {
            Ok(Response::Ack)
        } else {
            match checksum_star(t) {
                Some(star) => match (hex_value(t[star + 1]), hex_value(t[star + 2])) {
                    (Some(hi), Some(lo)) => if xor_all(t.take(star)) != hi * 16 + lo {
                        Err(ParseError::BadChecksum)
                    } else {
                        response_payload(t.take(star))
                    },
                    _ => Err(ParseError::InvalidUtf8),
                },
                None => response_payload(t),
            }
        }
    }
}

// ── Decoding ─────────────────────────────────────────────────────────────────

/// The value of a hexadecimal digit of either case.
fn parse_hex_nibble(b: u8) -> (r: Option<u8>)
    ensures
        r == hex_value(b),
{
    if '0' as u8 <= b && b <= '9' as u8 {
        Some(b - '0' as u8)
    } else if 'a' as u8 <= b && b <= 'f' as u8 {
        Some(b - 'a' as u8 + 10)
    } else if 'A' as u8 <= b && b <= 'F' as u8 {
        Some(b - 'A' as u8 + 10)
    } else {
        None
    }
}

/// Length of `input` once its trailing `\r`/`\n` bytes are dropped.
fn trimmed_len(input: &[u8]) -> (n: usize)
    ensures
        n <= input@.len(),
        trim_line_end(input@) == input@.take(n as int),
{
    let mut j = input.len();
    assert(input@.take(j as int) =~= input@);
    while j > 0 && (input[j - 1] == '\r' as u8 || input[j - 1] == '\n' as u8)
        invariant
            j <= input@.len(),
            trim_line_end(input@) == trim_line_end(input@.take(j as int)),
        decreases j,
    {
        assert(input@.take(j as int).drop_last() =~= input@.take(j - 1));
        j = j - 1;
    }
    j
}

/// Find `label` (three bytes) in `s` and parse the 3 decimal digits following it.
fn parse_labeled_value(s: &[u8], a: u8, b: u8, c: u8) -> (r: Option<u16>)
    ensures
        match r {
            Some(v) => labeled_value(s@, seq![a, b, c]) == Some(v as nat),
            None => labeled_value(s@, seq![a, b, c]) is None,
        },
{
    let idx = find_label(s, a, b, c)?;
    if idx > s.len() || s.len() - idx < 6 {
        return None;
    }
    let digits = vstd::slice::slice_subrange(s, idx + 3, idx + 6);
    parse_u16(digits)
}

/// Attempt to parse `AZ=NNN EL=NNN` (the labels may appear anywhere).
fn try_parse_position(data: &[u8]) -> (r: Option<Response>)
    ensures
        r == position_reply(data@),
{
    proof {
        reveal_strlit("AZ=");
        reveal_strlit("EL=");
    }
    // Expected: "AZ=NNN EL=NNN"  (13 bytes minimum)
    if data.len() < 13 {
        return None;
    }
    if !is_utf8(data) {
        return None;
    }
    assert(text("AZ=") =~= seq!['A' as u8, 'Z' as u8, '=' as u8]);
    assert(text("EL=") =~= seq!['E' as u8, 'L' as u8, '=' as u8]);
    let az = parse_labeled_value(data, 'A' as u8, 'Z' as u8, '=' as u8)?;
    let el = parse_labeled_value(data, 'E' as u8, 'L' as u8, '=' as u8)?;
    Some(Response::Position { az, el })
}

/// Parse a decimal number (possibly with fractional part) and truncate to u16.
fn parse_float_u16(s: &[u8]) -> (r: Option<u16>)
    ensures
        match r {
            Some(v) => float_u16(s@) == Some(v as nat),
            None => float_u16(s@) is None,
        },
{
    if s.len() == 0 {
        return None;
    }
    let int_part = match find_byte(s, '.' as u8) {
        Some(dot) => vstd::slice::slice_subrange(s, 0, dot),
        None => s,
    };
    parse_u16(int_part)
}

/// The value of a single-axis report after its prefix: an optional `=` and a
/// decimal number.
fn parse_axis_value(rest: &[u8]) -> (r: Option<u16>)
    ensures
        match r {
            Some(v) => axis_value(rest@) == Some(v as nat),
            None => axis_value(rest@) is None,
        },
{
    if rest.len() > 0 && rest[0] == '=' as u8 {
        parse_float_u16(vstd::slice::slice_subrange(rest, 1, rest.len()))
    } else {
        parse_float_u16(rest)
    }
}

/// Attempt to parse a single-axis position: `AZNNN.N` or `ELNNN.N` (with or without `=`).
fn try_parse_single_axis(data: &[u8]) -> (r: Option<Response>)
    ensures
        r == single_axis_reply(data@),
{
    proof {
        reveal_strlit("AZ");
        reveal_strlit("EL");
    }
    if !is_utf8(data) {
        return None;
    }
    let rest = if data.len() >= 2 {
        vstd::slice::slice_subrange(data, 2, data.len())
    } else {
        data
    };
    // Accept both "AZ=NNN.N" and "AZNNN.N"
    if starts_with(data, &['A' as u8, 'Z' as u8]) {
        assert(text("AZ") =~= seq!['A' as u8, 'Z' as u8]);
        let deg = parse_axis_value(rest)?;
        return Some(Response::AzimuthPosition(deg));
    }
    assert(text("AZ") =~= seq!['A' as u8, 'Z' as u8]);
    if starts_with(data, &['E' as u8, 'L' as u8]) {
        assert(text("EL") =~= seq!['E' as u8, 'L' as u8]);
        let deg = parse_axis_value(rest)?;
        return Some(Response::ElevationPosition(deg));
    }
    assert(text("EL") =~= seq!['E' as u8, 'L' as u8]);
    None
}

/// Map a status string to a [`DeviceStatus`] variant.
fn status_from_str(s: &[u8]) -> (r: Option<DeviceStatus>)
    ensures
        r == status_named(s@),
{
    proof {
        lemma_status_bytes(DeviceStatus::Idle);
        lemma_status_bytes(DeviceStatus::Moving);
        lemma_status_bytes(DeviceStatus::Homing);
        lemma_status_bytes(DeviceStatus::NotHomed);
        lemma_status_bytes(DeviceStatus::HomingAzError);
        lemma_status_bytes(DeviceStatus::HomingElError);
    }
    if bytes_eq(s, "idle".as_bytes()) {
        Some(DeviceStatus::Idle)
    } else if bytes_eq(s, "moving".as_bytes()) {
        Some(DeviceStatus::Moving)
    } else if bytes_eq(s, "homing".as_bytes()) {
        Some(DeviceStatus::Homing)
    } else if bytes_eq(s, "not_homed".as_bytes()) {
        Some(DeviceStatus::NotHomed)
    } else if bytes_eq(s, "homing_az_error".as_bytes()) {
        Some(DeviceStatus::HomingAzError)
    } else if bytes_eq(s, "homing_el_error".as_bytes()) {
        Some(DeviceStatus::HomingElError)
    } else {
        None
    }
}

/// Attempt to parse `ST=<status>`.
fn try_parse_status(data: &[u8]) -> (r: Option<Response>)
    ensures
        r == status_reply(data@),
{
    proof {
        reveal_strlit("ST=");
    }
    assert(text("ST=") =~= seq!['S' as u8, 'T' as u8, '=' as u8]);
    if !is_utf8(data) || !starts_with(data, &['S' as u8, 'T' as u8, '=' as u8]) {
        return None;
    }
    let value = vstd::slice::slice_subrange(data, 3, data.len());
    let status = status_from_str(value)?;
    Some(Response::Status(status))
}

/// The configuration value report after its `CR` prefix: `<reg>,<val>`.
fn parse_config_value(rest: &[u8]) -> (r: Option<Response>)
    ensures
        r == config_reply(rest@),
{
    let n = rest.len();
    let comma = find_byte(rest, ',' as u8)?;
    let reg = parse_u16(vstd::slice::slice_subrange(rest, 0, comma))?;
    let val = parse_i32(vstd::slice::slice_subrange(rest, comma + 1, n))?;
    Some(Response::ConfigValue { register: reg, value: val })
}

/// Attempt to parse Easycomm III register responses: `GS<val>`, `GE<val>`, `CR<reg>,<val>`.
fn try_parse_register(data: &[u8]) -> (r: Option<Response>)
    ensures
        r == register_reply(data@),
{
    proof {
        reveal_strlit("GS");
        reveal_strlit("GE");
        reveal_strlit("CR");
    }
    assert(text("GS") =~= seq!['G' as u8, 'S' as u8]);
    assert(text("GE") =~= seq!['G' as u8, 'E' as u8]);
    assert(text("CR") =~= seq!['C' as u8, 'R' as u8]);
    if !is_utf8(data) {
        return None;
    }
    let rest = if data.len() >= 2 {
        vstd::slice::slice_subrange(data, 2, data.len())
    } else {
        data
    };
    if starts_with(data, &['G' as u8, 'S' as u8]) {
        let v = parse_u16(rest)?;
        return Some(Response::StatusRegister(v));
    }
    if starts_with(data, &['G' as u8, 'E' as u8]) {
        let v = parse_u16(rest)?;
        return Some(Response::ErrorRegister(v));
    }
    if starts_with(data, &['C' as u8, 'R' as u8]) {
        return parse_config_value(rest);
    }
    None
}

/// Decode a response payload: the frame without its terminator and checksum.
fn decode_payload(payload: &[u8]) -> (r: Result<Response, ParseError>)
    ensures
        r == response_payload(payload@),
{
    proof {
        reveal_strlit("?");
        reveal_strlit("+");
    }
    assert(text("?") =~= seq!['?' as u8]);
    assert(text("+") =~= seq!['+' as u8]);
    // Device error.
    if payload.len() == 1 && payload[0] == '?' as u8 {
        assert(payload@ =~= text("?"));
        return Ok(Response::Error);
    }
    // Acknowledgement (empty frame or just `+`).
    if payload.len() == 0 || (payload.len() == 1 && payload[0] == '+' as u8) {
        assert(payload@.len() == 0 || payload@ =~= text("+"));
        return Ok(Response::Ack);
    }
    // Position: "AZ=NNN EL=NNN"
    if let Some(pos_resp) = try_parse_position(payload) {
        return Ok(pos_resp);
    }
    // Single-axis position: "AZ=NNN.N" or "EL=NNN.N"
    if let Some(axis_resp) = try_parse_single_axis(payload) {
        return Ok(axis_resp);
    }
    // Status: "ST=<status>"
    if let Some(status_resp) = try_parse_status(payload) {
        return Ok(status_resp);
    }
    // Easycomm III registers: "GS<val>", "GE<val>", "CR<reg>,<val>"
    if let Some(reg_resp) = try_parse_register(payload) {
        return Ok(reg_resp);
    }
    Err(ParseError::UnknownCommand)
}

/// Decode a complete response frame (including the trailing `\r`).
///
/// Handles optional `*XX` checksums and trims trailing `\r`/`\n` whitespace.
pub fn decode(input: &[u8]) -> (r: Result<Response, ParseError>)
    ensures
        r == decoded_response(input@),
{
    if input.len() == 0 {
        return Err(ParseError::UnexpectedEof);
    }
    // Strip trailing CR/LF.
    let end = trimmed_len(input);
    if end == 0 {
        // A lone \r is treated as an Ack.
        return Ok(Response::Ack);
    }
    let trimmed = vstd::slice::slice_subrange(input, 0, end);
    // Check for and strip optional `*XX` checksum.
    let star = if end >= 2 {
        rfind_byte_before(trimmed, '*' as u8, end - 2)
    } else {
        None
    };
    assert(end < 2 ==> checksum_star(trimmed@) is None);
    match star {
        Some(star) => {
            let hi = match parse_hex_nibble(trimmed[star + 1]) {
                Some(v) => v,
                None => return Err(ParseError::InvalidUtf8),
            };
            let lo = match parse_hex_nibble(trimmed[star + 2]) {
                Some(v) => v,
                None => return Err(ParseError::InvalidUtf8),
            };
            let expected = (hi << 4) | lo;
            assert(hi < 16 && lo < 16 ==> (hi << 4) | lo == hi * 16 + lo) by (bit_vector);
            let payload = vstd::slice::slice_subrange(trimmed, 0, star);
            let actual = xor_checksum(payload);
            if actual != expected {
                return Err(ParseError::BadChecksum);
            }
            decode_payload(payload)
        },
        None => decode_payload(trimmed),
    }
}

// ── Model of command decoding ────────────────────────────────────────────────

/// A command frame without its optional `*XX` checksum: when the frame has at
/// least three bytes and its last `*` is followed by at least two bytes, that
/// `*` and everything after it are dropped.
pub open spec fn strip_command_checksum(f: Seq<u8>) -> Seq<u8> {
    if f.len() >= 3 {
        match last_index_before(f, '*' as u8, f.len() as int) {
            Some(pos) => if pos + 3 <= f.len() {
                f.take(pos)
            } else {
                f
            },
            None => f,
        }
    } else {
        f
    }
}

/// Three ASCII digits read as a decimal number.
pub open spec fn digits3(d0: u8, d1: u8, d2: u8) -> Option<nat> {
    if is_digit(d0) && is_digit(d1) && is_digit(d2) {
        Some(((d0 - '0' as u8) * 100 + (d1 - '0' as u8) * 10 + (d2 - '0' as u8)) as nat)
    } else {
        None
    }
}

/// A `+` or `-` sign followed by three ASCII digits.
pub open spec fn signed_digits3(sign: u8, d0: u8, d1: u8, d2: u8) -> Option<int> {
    match digits3(d0, d1, d2) {
        Some(m) => if sign == '+' as u8 {
            Some(m as int)
        } else if sign == '-' as u8 {
            Some(-m)
        } else {
            None
        },
        None => None,
    }
}

/// The commands written as an exact keyword.
pub open spec fn keyword_command(f: Seq<u8>) -> Option<Command> {
    if f == text("C") {
        Some(Command::QueryPosition)
    } else if f == text("S") {
        Some(Command::Stop)
    } else if f == text("?") {
        Some(Command::KeepAlive)
    } else if f == text("GS") {
        Some(Command::GetStatusRegister)
    } else if f == text("GE") {
        Some(Command::GetErrorRegister)
    } else if f == text("AZ") {
        Some(Command::QueryAzimuth)
    } else if f == text("EL") {
        Some(Command::QueryElevation)
    } else {
        None
    }
}

/// The GS-232 fixed-length commands `Annn`, `Ennn`, `Wnnn nnn` and `O±nnn±nnn`
/// with angles in range.
pub open spec fn fixed_command(f: Seq<u8>) -> Option<Command> {
    if f.len() == 4 && f[0] == 'A' as u8 {
        match digits3(f[1], f[2], f[3]) {
            Some(az) => if az <= 360 {
                Some(Command::Azimuth(az as u16))
            } else {
                None
            },
            None => None,
        }
    } else if f.len() == 4 && f[0] == 'E' as u8 {
        match digits3(f[1], f[2], f[3]) {
            Some(el) => if el <= 180 {
                Some(Command::Elevation(el as u16))
            } else {
                None
            },
            None => None,
        }
    } else if f.len() == 8 && f[0] == 'W' as u8 && f[4] == ' ' as u8 {
        match (digits3(f[1], f[2], f[3]), digits3(f[5], f[6], f[7])) {
            (Some(az), Some(el)) => if az <= 360 && el <= 180 {
                Some(Command::AzimuthElevation { az: az as u16, el: el as u16 })
            } else {
                None
            },
            _ => None,
        }
    } else if f.len() == 9 && f[0] == 'O' as u8 {
        match (signed_digits3(f[1], f[2], f[3], f[4]), signed_digits3(f[5], f[6], f[7], f[8])) {
            (Some(az), Some(el)) => Some(Command::Offset { az: az as i16, el: el as i16 }),
            _ => None,
        }
    } else {
        None
    }
}

/// `<reg>,<val>` after the `CW` prefix.
pub open spec fn write_config_command(rest: Seq<u8>) -> Option<Command> {
    match first_index(rest, ',' as u8) {
        Some(c) => match (parse_unsigned(rest.take(c), 0xffff), parse_i32_text(rest.skip(c + 1))) {
            (Some(reg), Some(val)) => Some(
                Command::WriteConfig { register: reg as u16, value: val as i32 },
            ),
            _ => None,
        },
        None => None,
    }
}

/// `AZnnn.n ELnnn.n`: the parts before and after the first space.
pub open spec fn both_axes_command(left: Seq<u8>, right: Seq<u8>) -> Option<Command> {
    if has_prefix(left, text("AZ")) && has_prefix(right, text("EL")) {
        match (float_u16(left.skip(2)), float_u16(right.skip(2))) {
            (Some(az), Some(el)) => if az <= 360 && el <= 180 {
                Some(Command::AzimuthElevation { az: az as u16, el: el as u16 })
            } else {
                None
            },
            _ => None,
        }
    } else {
        None
    }
}

/// The Easycomm II angle commands `AZnnn.n ELnnn.n`, `AZnnn.n` and `ELnnn.n`.
pub open spec fn easycomm_angle_command(s: Seq<u8>) -> Option<Command> {
    let combined = match first_index(s, ' ' as u8) {
        Some(sp) => both_axes_command(s.take(sp), s.skip(sp + 1)),
        None => None,
    };
    if combined is Some {
        combined
    } else if has_prefix(s, text("AZ")) {
        match float_u16(s.skip(2)) {
            Some(az) => if az <= 360 {
                Some(Command::Azimuth(az as u16))
            } else {
                None
            },
            None => None,
        }
    } else if has_prefix(s, text("EL")) {
        match float_u16(s.skip(2)) {
            Some(el) => if el <= 180 {
                Some(Command::Elevation(el as u16))
            } else {
                None
            },
            None => None,
        }
    } else {
        None
    }
}

/// The Easycomm II/III variable-length commands, on UTF-8 text.
pub open spec fn easycomm_command(s: Seq<u8>) -> Option<Command> {
    if !valid_utf8(s) {
        None
    } else if s == text("RESET") {
        Some(Command::Reset)
    } else if s == text("PARK") {
        Some(Command::Park)
    } else if s == text("SA SE") || s == text("SA") || s == text("SE") {
        Some(Command::Stop)
    } else if has_prefix(s, text("VL")) {
        match parse_unsigned(s.skip(2), 0xffff_ffff) {
            Some(v) => Some(Command::VelocityLeft(v as u32)),
            None => None,
        }
    } else if has_prefix(s, text("VR")) {
        match parse_unsigned(s.skip(2), 0xffff_ffff) {
            Some(v) => Some(Command::VelocityRight(v as u32)),
            None => None,
        }
    } else if has_prefix(s, text("VU")) {
        match parse_unsigned(s.skip(2), 0xffff_ffff) {
            Some(v) => Some(Command::VelocityUp(v as u32)),
            None => None,
        }
    } else if has_prefix(s, text("VD")) {
        match parse_unsigned(s.skip(2), 0xffff_ffff) {
            Some(v) => Some(Command::VelocityDown(v as u32)),
            None => None,
        }
    } else if has_prefix(s, text("CW")) {
        write_config_command(s.skip(2))
    } else if has_prefix(s, text("CR")) {
        match parse_unsigned(s.skip(2), 0xffff) {
            Some(v) => Some(Command::ReadConfig(v as u16)),
            None => None,
        }
    } else if has_prefix(s, text("GS")) && s.len() > 2 {
        Some(Command::GetStatusRegister)
    } else {
        easycomm_angle_command(s)
    }
}

/// The host command that a raw frame (bytes before the `\r`) encodes, if any.
pub open spec fn decoded_command(frame: Seq<u8>) -> Option<Command> {
    let f = strip_command_checksum(frame);
    if f.len() == 0 {
        None
    } else if let Some(c) = keyword_command(f) {
        Some(c)
    } else if let Some(c) = fixed_command(f) {
        Some(c)
    } else {
        easycomm_command(f)
    }
}

// ── Device-side command parsing ─────────────────────────────────────────────

/// Strip an optional `*XX` XOR-checksum suffix from a command frame.
fn strip_cmd_checksum(frame: &[u8]) -> (r: &[u8])
    ensures
        r@ == strip_command_checksum(frame@),
{
    if frame.len() >= 3 {
        if let Some(pos) = rfind_byte_before(frame, '*' as u8, frame.len()) {
            if frame.len() - pos >= 3 {
                return vstd::slice::slice_subrange(frame, 0, pos);
            }
        }
    }
    frame
}

fn parse_u16_3digit(d0: u8, d1: u8, d2: u8) -> (r: Option<u16>)
    ensures
        match r {
            Some(v) => digits3(d0, d1, d2) == Some(v as nat),
            None => digits3(d0, d1, d2) is None,
        },
{
    let a = ascii_digit(d0)? as u16;
    let b = ascii_digit(d1)? as u16;
    let c = ascii_digit(d2)? as u16;
    Some(a * 100 + b * 10 + c)
}

fn parse_signed_3digit(sign: u8, d0: u8, d1: u8, d2: u8) -> (r: Option<i16>)
    ensures
        match r {
            Some(v) => signed_digits3(sign, d0, d1, d2) == Some(v as int),
            None => signed_digits3(sign, d0, d1, d2) is None,
        },
{
    let mag = parse_u16_3digit(d0, d1, d2)? as i16;
    if sign == '+' as u8 {
        Some(mag)
    } else if sign == '-' as u8 {
        Some(-mag)
    } else {
        None
    }
}

/// Exact-match commands (unambiguous, checked first).
fn parse_keyword(f: &[u8]) -> (r: Option<Command>)
    ensures
        r == keyword_command(f@),
{
    proof {
        reveal_strlit("C");
        reveal_strlit("S");
        reveal_strlit("?");
        reveal_strlit("GS");
        reveal_strlit("GE");
        reveal_strlit("AZ");
        reveal_strlit("EL");
    }
    assert(text("C") =~= seq!['C' as u8]);
    assert(text("S") =~= seq!['S' as u8]);
    assert(text("?") =~= seq!['?' as u8]);
    assert(text("GS") =~= seq!['G' as u8, 'S' as u8]);
    assert(text("GE") =~= seq!['G' as u8, 'E' as u8]);
    assert(text("AZ") =~= seq!['A' as u8, 'Z' as u8]);
    assert(text("EL") =~= seq!['E' as u8, 'L' as u8]);
    if f.len() == 1 {
        if f[0] == 'C' as u8 {
            assert(f@ =~= text("C"));
            return Some(Command::QueryPosition);
        }
        if f[0] == 'S' as u8 {
            assert(f@ =~= text("S"));
            return Some(Command::Stop);
        }
        if f[0] == '?' as u8 {
            assert(f@ =~= text("?"));
            return Some(Command::KeepAlive);
        }
    } else if f.len() == 2 {
        if f[0] == 'G' as u8 && f[1] == 'S' as u8 {
            assert(f@ =~= text("GS"));
            return Some(Command::GetStatusRegister);
        }
        if f[0] == 'G' as u8 && f[1] == 'E' as u8 {
            assert(f@ =~= text("GE"));
            return Some(Command::GetErrorRegister);
        }
        if f[0] == 'A' as u8 && f[1] == 'Z' as u8 {
            assert(f@ =~= text("AZ"));
            return Some(Command::QueryAzimuth);
        }
        if f[0] == 'E' as u8 && f[1] == 'L' as u8 {
            assert(f@ =~= text("EL"));
            return Some(Command::QueryElevation);
        }
    }
    None
}

/// GS-232 fixed-length patterns.
fn parse_fixed(f: &[u8]) -> (r: Option<Command>)
    ensures
        r == fixed_command(f@),
{
    if f.len() == 4 && f[0] == 'A' as u8 {
        match parse_u16_3digit(f[1], f[2], f[3]) {
            Some(az) => if az <= 360 {
                Some(Command::Azimuth(az))
            } else {
                None
            },
            None => None,
        }
    } else if f.len() == 4 && f[0] == 'E' as u8 {
        match parse_u16_3digit(f[1], f[2], f[3]) {
            Some(el) => if el <= 180 {
                Some(Command::Elevation(el))
            } else {
                None
            },
            None => None,
        }
    } else if f.len() == 8 && f[0] == 'W' as u8 && f[4] == ' ' as u8 {
        let az = parse_u16_3digit(f[1], f[2], f[3]);
        let el = parse_u16_3digit(f[5], f[6], f[7]);
        match (az, el) {
            (Some(az), Some(el)) => if az <= 360 && el <= 180 {
                Some(Command::AzimuthElevation { az, el })
            } else {
                None
            },
            _ => None,
        }
    } else if f.len() == 9 && f[0] == 'O' as u8 {
        match (parse_signed_3digit(f[1], f[2], f[3], f[4]), parse_signed_3digit(f[5], f[6], f[7], f[8])) {
            (Some(az), Some(el)) => Some(Command::Offset { az, el }),
            _ => None,
        }
    } else {
        None
    }
}

/// `<reg>,<val>` after the `CW` prefix.
fn parse_write_config(rest: &[u8]) -> (r: Option<Command>)
    ensures
        r == write_config_command(rest@),
{
    let n = rest.len();
    let comma = find_byte(rest, ',' as u8)?;
    let reg = parse_u16(vstd::slice::slice_subrange(rest, 0, comma))?;
    let val = parse_i32(vstd::slice::slice_subrange(rest, comma + 1, n))?;
    Some(Command::WriteConfig { register: reg, value: val })
}

/// `AZnnn.n ELnnn.n`: the parts before and after the first space.
fn parse_both_axes(left: &[u8], right: &[u8]) -> (r: Option<Command>)
    ensures
        r == both_axes_command(left@, right@),
{
    proof {
        reveal_strlit("AZ");
        reveal_strlit("EL");
    }
    assert(text("AZ") =~= seq!['A' as u8, 'Z' as u8]);
    assert(text("EL") =~= seq!['E' as u8, 'L' as u8]);
    if !starts_with(left, &['A' as u8, 'Z' as u8]) || !starts_with(right, &['E' as u8, 'L' as u8]) {
        return None;
    }
    let az = parse_float_u16(vstd::slice::slice_subrange(left, 2, left.len()));
    let el = parse_float_u16(vstd::slice::slice_subrange(right, 2, right.len()));
    match (az, el) {
        (Some(az), Some(el)) => if az <= 360 && el <= 180 {
            Some(Command::AzimuthElevation { az, el })
        } else {
            None
        },
        _ => None,
    }
}

/// The Easycomm II angle commands `AZnnn.n ELnnn.n`, `AZnnn.n` and `ELnnn.n`.
fn parse_easycomm_angles(s: &[u8]) -> (r: Option<Command>)
    ensures
        r == easycomm_angle_command(s@),
{
    proof {
        reveal_strlit("AZ");
        reveal_strlit("EL");
    }
    assert(text("AZ") =~= seq!['A' as u8, 'Z' as u8]);
    assert(text("EL") =~= seq!['E' as u8, 'L' as u8]);
    let n = s.len();
    // Combined set: "AZnnn.n ELnnn.n"
    if let Some(space_idx) = find_byte(s, ' ' as u8) {
        let left = vstd::slice::slice_subrange(s, 0, space_idx);
        let right = vstd::slice::slice_subrange(s, space_idx + 1, n);
        if let Some(cmd) = parse_both_axes(left, right) {
            return Some(cmd);
        }
    }
    // Single-axis set: "AZnnn.n" or "ELnnn.n"
    if starts_with(s, &['A' as u8, 'Z' as u8]) {
        let az = parse_float_u16(vstd::slice::slice_subrange(s, 2, n))?;
        if az <= 360 {
            return Some(Command::Azimuth(az));
        }
        return None;
    }
    if starts_with(s, &['E' as u8, 'L' as u8]) {
        let el = parse_float_u16(vstd::slice::slice_subrange(s, 2, n))?;
        if el <= 180 {
            return Some(Command::Elevation(el));
        }
    }
    None
}

/// The Easycomm III velocity commands `VL`, `VR`, `VU` and `VD` with a speed.
fn parse_velocity(s: &[u8]) -> (r: Option<Option<Command>>)
    requires
        valid_utf8(s@),
    ensures
        match r {
            Some(c) => c == easycomm_command(s@) && (has_prefix(s@, text("VL")) || has_prefix(s@, text("VR"))
                || has_prefix(s@, text("VU")) || has_prefix(s@, text("VD"))),
            None => !(has_prefix(s@, text("VL")) || has_prefix(s@, text("VR"))
                || has_prefix(s@, text("VU")) || has_prefix(s@, text("VD"))),
        },
{
    proof {
        reveal_strlit("VL");
        reveal_strlit("VR");
        reveal_strlit("VU");
        reveal_strlit("VD");
        reveal_strlit("RESET");
        reveal_strlit("PARK");
        reveal_strlit("SA SE");
        reveal_strlit("SA");
        reveal_strlit("SE");
    }
    assert(text("VL") =~= seq!['V' as u8, 'L' as u8]);
    assert(text("VR") =~= seq!['V' as u8, 'R' as u8]);
    assert(text("VU") =~= seq!['V' as u8, 'U' as u8]);
    assert(text("VD") =~= seq!['V' as u8, 'D' as u8]);
    assert(text("RESET")[0] == 'R' as u8);
    assert(text("PARK")[0] == 'P' as u8);
    assert(text("SA SE")[0] == 'S' as u8);
    assert(text("SA")[0] == 'S' as u8);
    assert(text("SE")[0] == 'S' as u8);
    if s.len() < 2 || s[0] != 'V' as u8 {
        return None;
    }
    let val = vstd::slice::slice_subrange(s, 2, s.len());
    assert(val@ =~= s@.skip(2));
    assert(s@.take(2) =~= seq![s@[0], s@[1]]);
    if s[1] == 'L' as u8 {
        Some(
            match parse_u32(val) {
                Some(v) => Some(Command::VelocityLeft(v)),
                None => None,
            },
        )
    } else if s[1] == 'R' as u8 {
        Some(
            match parse_u32(val) {
                Some(v) => Some(Command::VelocityRight(v)),
                None => None,
            },
        )
    } else if s[1] == 'U' as u8 {
        Some(
            match parse_u32(val) {
                Some(v) => Some(Command::VelocityUp(v)),
                None => None,
            },
        )
    } else if s[1] == 'D' as u8 {
        Some(
            match parse_u32(val) {
                Some(v) => Some(Command::VelocityDown(v)),
                None => None,
            },
        )
    } else {
        None
    }
}

/// Parse Easycomm II/III variable-length commands.
fn try_parse_easycomm(frame: &[u8]) -> (r: Option<Command>)
    ensures
        r == easycomm_command(frame@),
{
    proof {
        reveal_strlit("RESET");
        reveal_strlit("PARK");
        reveal_strlit("SA SE");
        reveal_strlit("SA");
        reveal_strlit("SE");
        reveal_strlit("CW");
        reveal_strlit("CR");
        reveal_strlit("GS");
        reveal_strlit("VL");
        reveal_strlit("VR");
        reveal_strlit("VU");
        reveal_strlit("VD");
    }
    if !is_utf8(frame) {
        return None;
    }
    proof {
        lemma_text_bytes("RESET");
        lemma_text_bytes("PARK");
        lemma_text_bytes("SA SE");
        lemma_text_bytes("SA");
        lemma_text_bytes("SE");
    }
    let s = frame;
    let n = s.len();
    // Multi-character keywords.
    if bytes_eq(s, "RESET".as_bytes()) {
        return Some(Command::Reset);
    }
    if bytes_eq(s, "PARK".as_bytes()) {
        return Some(Command::Park);
    }
    // Stop variants: SA SE, SA, SE
    if bytes_eq(s, "SA SE".as_bytes()) || bytes_eq(s, "SA".as_bytes()) || bytes_eq(s, "SE".as_bytes()) {
        return Some(Command::Stop);
    }
    // Velocity commands: VL/VR/VU/VD<speed>
    if let Some(cmd) = parse_velocity(s) {
        return cmd;
    }
    assert(text("CW") =~= seq!['C' as u8, 'W' as u8]);
    assert(text("CR") =~= seq!['C' as u8, 'R' as u8]);
    assert(text("GS") =~= seq!['G' as u8, 'S' as u8]);
    // Config write: CW<reg>,<val>
    if starts_with(s, &['C' as u8, 'W' as u8]) {
        return parse_write_config(vstd::slice::slice_subrange(s, 2, n));
    }
    // Config read: CR<reg>
    if starts_with(s, &['C' as u8, 'R' as u8]) {
        let reg = parse_u16(vstd::slice::slice_subrange(s, 2, n))?;
        return Some(Command::ReadConfig(reg));
    }
    // Status register with value: GS<val> (bare GS handled in exact match)
    if starts_with(s, &['G' as u8, 'S' as u8]) && n > 2 {
        return Some(Command::GetStatusRegister);
    }
    parse_easycomm_angles(s)
}

/// Parse a raw frame (bytes *before* the `\r`) as an Easycom host command.
///
/// Supports GS-232 fixed-length commands, Easycomm II, and Easycomm III
/// variable-length commands.
///
/// Returns `None` for unknown or out-of-range frames.
pub fn decode_command(frame: &[u8]) -> (r: Option<Command>)
    ensures
        r == decoded_command(frame@),
{
    let frame = strip_cmd_checksum(frame);
    if frame.len() == 0 {
        return None;
    }
    if let Some(cmd) = parse_keyword(frame) {
        return Some(cmd);
    }
    if let Some(cmd) = parse_fixed(frame) {
        return Some(cmd);
    }
    // Easycomm II/III variable-length patterns.
    try_parse_easycomm(frame)
}

// ── Incremental parsers ──────────────────────────────────────────────────────

/// Maximum raw command frame length (bytes before the trailing `\r`).
/// Longest command: `CW65535,-2147483648` = 19 bytes; 32 leaves headroom.
pub const MAX_CMD_FRAME: usize = 32;

/// One byte fed to a [`CommandParser`] in `state`: the bytes of the frame
/// received so far, and whether that frame overran [`MAX_CMD_FRAME`] and is
/// being discarded. Returns the next state and the command reported.
///
/// A terminator ends the frame and reports its decoding, or nothing when the
/// frame was discarded. A byte beyond [`MAX_CMD_FRAME`] starts discarding,
/// which lasts until the next terminator.
pub open spec fn command_parser_step(state: (Seq<u8>, bool), b: u8) -> (
    (Seq<u8>, bool),
    Option<Command>,
) {
    let (pending, discarding) = state;
    if is_line_end(b) {
        (
            (Seq::empty(), false),
            if discarding {
                None
            } else {
                decoded_command(pending)
            },
        )
    } else if discarding {
        ((Seq::empty(), true), None)
    } else if pending.len() < MAX_CMD_FRAME {
        ((pending.push(b), false), None)
    } else {
        ((Seq::empty(), true), None)
    }
}

/// Feeding all of `data` to a [`CommandParser`] in `state`, one byte at a
/// time: its state afterwards and what each call reports.
pub open spec fn command_parser_trace(state: (Seq<u8>, bool), data: Seq<u8>) -> (
    (Seq<u8>, bool),
    Seq<Option<Command>>,
)
    decreases data.len(),
{
    if data.len() == 0 {
        (state, Seq::empty())
    } else {
        let (mid, outs) = command_parser_trace(state, data.drop_last());
        let (next, r) = command_parser_step(mid, data.last());
        (next, outs.push(r))
    }
}

/// Byte-by-byte accumulator that parses incoming *host commands* from frames
/// terminated with `\r`.
///
/// This is the device-side counterpart to [`Parser`], which decodes *device
/// responses*.  Use `CommandParser` in rotator firmware; use `Parser` in
/// host-side controller software.
pub struct CommandParser {
    buf: [u8; 32],
    len: usize,
    discarding: bool,
}

impl View for CommandParser {
    type V = (Seq<u8>, bool);

    /// The bytes of the frame received so far, and whether the frame is being
    /// discarded as overlong.
    closed spec fn view(&self) -> (Seq<u8>, bool) {
        (self.buf@.take(self.len as int), self.discarding)
    }
}

impl CommandParser {
    #[verifier::type_invariant]
    closed spec fn wf(self) -> bool {
        &&& self.len <= MAX_CMD_FRAME
        &&& self.discarding ==> self.len == 0
    }

    /// Create a new, empty parser.
    pub fn new() -> (r: Self)
        ensures
            r@ == (Seq::<u8>::empty(), false),
    {
        let r = Self { buf: [0u8; 32], len: 0, discarding: false };
        assert(r@.0 =~= Seq::<u8>::empty());
        r
    }

    /// Feed one byte.
    ///
    /// Returns `Some(command)` when a complete `\r`-terminated frame has been
    /// assembled and successfully decoded, `None` otherwise.
    /// Malformed or overlong frames are silently discarded.
    pub fn feed(&mut self, byte: u8) -> (r: Option<Command>)
        ensures
            (final(self)@, r) == command_parser_step(old(self)@, byte),
            final(self)@.0.len() <= MAX_CMD_FRAME,
            final(self)@.1 ==> final(self)@.0.len() == 0,
    {
        proof {
            use_type_invariant(&*self);
        }
        if byte == '\r' as u8 || byte == '\n' as u8 {
            let cmd = if self.discarding {
                None
            } else {
                decode_command(vstd::slice::slice_subrange(self.buf.as_slice(), 0, self.len))
            };
            self.len = 0;
            self.discarding = false;
            assert(self@.0 =~= Seq::<u8>::empty());
            cmd
        } else if self.discarding {
            assert(self@.0 =~= Seq::<u8>::empty());
            None
        } else if self.len < MAX_CMD_FRAME {
            let ghost before = self@.0;
            self.buf[self.len] = byte;
            self.len = self.len + 1;
            assert(self@.0 =~= before.push(byte));
            None
        } else {
            // Overlong: drop what was received and the rest of the frame.
            self.len = 0;
            self.discarding = true;
            assert(self@.0 =~= Seq::<u8>::empty());
            None
        }
    }
}

impl Default for CommandParser {
    fn default() -> (r: Self)
        ensures
            r@ == (Seq::<u8>::empty(), false),
    {
        Self::new()
    }
}

/// Maximum size of a single Easycom frame (generous bound for a fixed buffer).
pub const MAX_FRAME: usize = 64;

/// One byte fed to a [`Parser`] in `state`: the bytes of the frame received so
/// far, and whether that frame overran [`MAX_FRAME`] and is being discarded.
/// Returns the next state and what the parser reports.
///
/// A terminator ends the frame and reports the decoding of the frame with its
/// terminator, as [`decode`] gives it (so an empty frame is an
/// acknowledgement), or nothing when the frame was discarded. A byte beyond
/// [`MAX_FRAME`] reports [`ParseError::UnexpectedEof`] and starts discarding,
/// which lasts until the next terminator.
pub open spec fn parser_step(state: (Seq<u8>, bool), b: u8) -> (
    (Seq<u8>, bool),
    Option<Result<Response, ParseError>>,
) {
    let (pending, discarding) = state;
    if is_line_end(b) {
        (
            (Seq::empty(), false),
            if discarding {
                None
            } else {
                Some(decoded_response(pending.push(b)))
            },
        )
    } else if discarding {
        ((Seq::empty(), true), None)
    } else if pending.len() < MAX_FRAME {
        ((pending.push(b), false), None)
    } else {
        ((Seq::empty(), true), Some(Err(ParseError::UnexpectedEof)))
    }
}

/// Feeding all of `data` to a [`Parser`] in `state`: its state afterwards and
/// every result reported, in order.
pub open spec fn parser_run(state: (Seq<u8>, bool), data: Seq<u8>) -> (
    (Seq<u8>, bool),
    Seq<Result<Response, ParseError>>,
)
    decreases data.len(),
{
    if data.len() == 0 {
        (state, Seq::empty())
    } else {
        let (mid, out) = parser_run(state, data.drop_last());
        let (next, r) = parser_step(mid, data.last());
        (
            next,
            match r {
                Some(x) => out.push(x),
                None => out,
            },
        )
    }
}

/// A frame ended by a terminator decodes as its bytes before the terminator,
/// except that an empty frame is an acknowledgement.
pub proof fn lemma_terminated_frame(pending: Seq<u8>, b: u8)
    requires
        is_line_end(b),
    ensures
        decoded_response(pending.push(b)) == if pending.len() == 0 {
            Ok(Response::Ack)
        } else {
            decoded_response(pending)
        },
{
    assert(pending.push(b).drop_last() =~= pending);
    if pending.len() == 0 {
        assert(trim_line_end(pending) =~= Seq::<u8>::empty());
    }
}

/// Incremental byte-by-byte parser.
///
/// Feed bytes with [`Parser::feed`]; each call returns `Some(result)` when a
/// complete frame has been assembled, or `None` if more data is needed.
pub struct Parser {
    buf: [u8; 64],
    len: usize,
    discarding: bool,
}

impl View for Parser {
    type V = (Seq<u8>, bool);

    /// The bytes of the frame received so far, and whether the frame is being
    /// discarded as overlong.
    closed spec fn view(&self) -> (Seq<u8>, bool) {
        (self.buf@.take(self.len as int), self.discarding)
    }
}

impl Parser {
    #[verifier::type_invariant]
    closed spec fn wf(self) -> bool {
        &&& self.len <= MAX_FRAME
        &&& self.discarding ==> self.len == 0
    }

    /// Create a new, empty parser.
    pub fn new() -> (r: Self)
        ensures
            r@ == (Seq::<u8>::empty(), false),
    {
        let r = Self { buf: [0u8; 64], len: 0, discarding: false };
        assert(r@.0 =~= Seq::<u8>::empty());
        r
    }

    /// Feed one byte to the parser.
    ///
    /// Returns `Some(Ok(response))` when a complete frame ending with `\r` is
    /// received, `Some(Err(_))` if the frame is malformed, or `None` if more
    /// bytes are needed.
    ///
    /// Overlong frames (exceeding the internal buffer) are discarded and a
    /// [`ParseError::UnexpectedEof`] is returned once, for the byte that
    /// overruns the buffer; the rest of the frame is dropped, and the
    /// terminator that ends it returns `None`. An empty frame (a terminator
    /// alone) is an acknowledgement.
    pub fn feed(&mut self, byte: u8) -> (r: Option<Result<Response, ParseError>>)
        ensures
            (final(self)@, r) == parser_step(old(self)@, byte),
            final(self)@.0.len() <= MAX_FRAME,
            final(self)@.1 ==> final(self)@.0.len() == 0,
    {
        proof {
            use_type_invariant(&*self);
        }
        if byte == '\r' as u8 || byte == '\n' as u8 {
            // Frame complete — decode what we have.
            let result = if self.discarding {
                None
            } else if self.len == 0 {
                Some(Ok(Response::Ack))
            } else {
                Some(decode(vstd::slice::slice_subrange(self.buf.as_slice(), 0, self.len)))
            };
            proof {
                lemma_terminated_frame(self@.0, byte);
            }
            self.len = 0;
            self.discarding = false;
            assert(self@.0 =~= Seq::<u8>::empty());
            result
        } else if self.discarding {
            assert(self@.0 =~= Seq::<u8>::empty());
            None
        } else if self.len < MAX_FRAME {
            let ghost before = self@.0;
            self.buf[self.len] = byte;
            self.len = self.len + 1;
            assert(self@.0 =~= before.push(byte));
            None
        } else {
            // Buffer overflow — discard the frame, up to its terminator.
            self.len = 0;
            self.discarding = true;
            assert(self@.0 =~= Seq::<u8>::empty());
            Some(Err(ParseError::UnexpectedEof))
        }
    }

    /// Feed a slice of bytes, collecting any complete frames.
    ///
    /// Returns a `Vec<Result<Response, ParseError>>` for each complete frame
    /// found in `data`.
    pub fn feed_slice(&mut self, data: &[u8]) -> (r: Vec<Result<Response, ParseError>>)
        ensures
            (final(self)@, r@) == parser_run(old(self)@, data@),
    {
        let mut out: Vec<Result<Response, ParseError>> = Vec::new();
        let mut i: usize = 0;
        while i < data.len()
            invariant
                i <= data@.len(),
                (self@, out@) == parser_run(old(self)@, data@.take(i as int)),
            decreases data@.len() - i,
        {
            assert(data@.take(i + 1).drop_last() =~= data@.take(i as int));
            if let Some(r) = self.feed(data[i]) {
                out.push(r);
            }
            i = i + 1;
        }
        assert(data@.take(i as int) =~= data@);
        out
    }
}

impl Default for Parser {
    fn default() -> (r: Self)
        ensures
            r@ == (Seq::<u8>::empty(), false),
    {
        Self::new()
    }
}

} // verus!
