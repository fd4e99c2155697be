//! How the encoders, decoders, incremental parsers and reply handling fit
//! together: round trips, checksums, streams of frames and echoes.

use vstd::prelude::*;

use crate::ascii::decimal;
use crate::ascii::find_from;
use crate::ascii::is_ascii;
use crate::ascii::is_digit;
use crate::ascii::is_line_end;
use crate::ascii::is_printable;
use crate::ascii::printable;
use crate::ascii::last_index_before;
use crate::ascii::lemma_absent_byte;
use crate::ascii::lemma_absent_pattern;
use crate::ascii::lemma_ascii_concat;
use crate::ascii::lemma_ascii_is_utf8;
use crate::ascii::lemma_decimal;
use crate::ascii::lemma_decimal_ascii;
use crate::ascii::lemma_decimal_parse;
use crate::ascii::lemma_find_skip;
use crate::ascii::lemma_first_index_after;
use crate::ascii::lemma_signed_decimal_parse;
use crate::ascii::lemma_three_digits;
use crate::ascii::signed_decimal;
use crate::ascii::text;
use crate::ascii::three_digits;
use crate::command::Command;
use crate::command::DeviceStatus;
use crate::command::Response;
use crate::error::ParseError;
use crate::framing::checksum_star;
use crate::framing::checksum_suffix;
use crate::framing::hex_value;
use crate::framing::lemma_response_frame_len;
use crate::framing::parser_run;
use crate::framing::parser_step;
use crate::framing::lemma_terminated_frame;
use crate::framing::MAX_FRAME;
use crate::framing::MAX_CMD_FRAME;
use crate::framing::command_frame;
use crate::framing::command_parser_trace;
use crate::framing::lemma_command_frame_len;
use crate::session::reply_run;
use crate::session::reply_step;
use crate::session::ECHO_WINDOW;
use crate::session::ReplyReader;
use crate::session::Exchange;
use crate::session::open_reads;
use crate::session::send_outcome;
use crate::error::Error;
use crate::framing::xor_all;
use crate::framing::command_param_error;
use crate::framing::command_payload;
use crate::framing::decoded_command;
use crate::framing::digits3;
use crate::framing::strip_command_checksum;
use crate::framing::decoded_response;
use crate::framing::response_frame;
use crate::framing::response_payload;
use crate::framing::status_bytes;
use crate::framing::trim_line_end;
use vstd::utf8::valid_utf8;
use crate::ascii::strip_plus;
use crate::ascii::parse_unsigned;
use crate::ascii::has_prefix;
use crate::ascii::digits_value;
use crate::ascii::all_digits;
use crate::framing::float_u16;
use crate::framing::easycomm_command;
use crate::framing::status_named;

verus! {

/// A response frame without `*` whose body does not end in a terminator
/// decodes as its body.
proof fn lemma_decode_plain(body: Seq<u8>, term: u8)
    requires
        is_line_end(term),
        body.len() > 0,
        !is_line_end(body.last()),
        forall|i: int| 0 <= i < body.len() ==> body[i] != '*' as u8,
    ensures
        decoded_response(body.push(term)) == response_payload(body),
{
    let f = body.push(term);
    assert(f.drop_last() =~= body);
    assert(trim_line_end(f) == trim_line_end(body));
    lemma_absent_byte(body, '*' as u8, body.len() - 2);
    assert(checksum_star(body) is None);
}

/// `AZ=NNN EL=NNN` reads back as the position.
proof fn lemma_position_round_trip(az: u16, el: u16)
    requires
        az < 1000,
        el < 1000,
    ensures
        decoded_response(response_frame(Response::Position { az, el })) == Ok::<
            Response,
            crate::error::ParseError,
        >(Response::Position { az, el }),
        printable(response_frame(Response::Position { az, el }).drop_last()),
        is_line_end(response_frame(Response::Position { az, el }).last()),
{
    reveal_strlit("AZ=");
    reveal_strlit(" EL=");
    reveal_strlit("EL=");
    reveal_strlit("\r");
    reveal_strlit("?");
    reveal_strlit("+");
    lemma_three_digits(az as nat);
    lemma_three_digits(el as nat);
    let ta = three_digits(az as nat);
    let te = three_digits(el as nat);
    let body = text("AZ=") + ta + text(" EL=") + te;
    assert(response_frame(Response::Position { az, el }) =~= body.push('\r' as u8));
    assert(body.len() == 13);
    assert(body[0] == 'A' as u8);
    assert(body[1] == 'Z' as u8);
    assert(body[2] == '=' as u8);
    assert(body[3] == ta[0]);
    assert(body[4] == ta[1]);
    assert(body[5] == ta[2]);
    assert(body[6] == ' ' as u8);
    assert(body[7] == 'E' as u8);
    assert(body[8] == 'L' as u8);
    assert(body[9] == '=' as u8);
    assert(body[10] == te[0]);
    assert(body[11] == te[1]);
    assert(body[12] == te[2]);
    assert(is_digit(ta[0]) && is_digit(ta[1]) && is_digit(ta[2]));
    assert(is_digit(te[0]) && is_digit(te[1]) && is_digit(te[2]));
    assert forall|i: int| 0 <= i < body.len() implies body[i] != '*' as u8 && is_printable(
        body[i],
    ) by {
        assert(0 <= i <= 12);
    }
    assert(response_frame(Response::Position { az, el }).drop_last() =~= body);
    lemma_decode_plain(body, '\r' as u8);
    // UTF-8
    assert(is_ascii(text("AZ=")));
    assert(is_ascii(text(" EL=")));
    lemma_ascii_concat(text("AZ="), ta);
    lemma_ascii_concat(text("AZ=") + ta, text(" EL="));
    lemma_ascii_concat(text("AZ=") + ta + text(" EL="), te);
    lemma_ascii_is_utf8(body);
    // AZ= is found at 0.
    assert(body.subrange(0, 3) =~= text("AZ="));
    assert(body.subrange(3, 6) =~= ta);
    // EL= is found at 7.
    let pat = text("EL=");
    assert(pat[0] == 'E' as u8);
    assert(body.subrange(7, 10) =~= pat);
    assert(find_from(body, pat, 7) == Some(7int));
    lemma_find_skip(body, pat, 6);
    lemma_find_skip(body, pat, 5);
    lemma_find_skip(body, pat, 4);
    lemma_find_skip(body, pat, 3);
    lemma_find_skip(body, pat, 2);
    lemma_find_skip(body, pat, 1);
    lemma_find_skip(body, pat, 0);
    assert(body.subrange(10, 13) =~= te);
    assert(body != text("?"));
    assert(body != text("+"));
}

/// `AZNNN.0` and `ELNNN.0` read back as the single-axis position.
proof fn lemma_axis_round_trip(resp: Response)
    requires
        resp matches Response::AzimuthPosition(az) ==> az < 1000,
        resp matches Response::ElevationPosition(el) ==> el < 1000,
        resp is AzimuthPosition || resp is ElevationPosition,
    ensures
        decoded_response(response_frame(resp)) == Ok::<Response, crate::error::ParseError>(resp),
        printable(response_frame(resp).drop_last()),
        is_line_end(response_frame(resp).last()),
{
    reveal_strlit("AZ");
    reveal_strlit("EL");
    reveal_strlit(".0\n");
    reveal_strlit(".0");
    reveal_strlit("?");
    reveal_strlit("+");
    let (prefix, v) = match resp {
        Response::AzimuthPosition(az) => (text("AZ"), az),
        Response::ElevationPosition(el) => (text("EL"), el),
        _ => (text("AZ"), 0u16),
    };
    lemma_three_digits(v as nat);
    let t = three_digits(v as nat);
    let body = prefix + t + text(".0");
    assert(response_frame(resp) =~= body.push('\n' as u8));
    assert(body.len() == 7);
    assert(body[2] == t[0]);
    assert(body[3] == t[1]);
    assert(body[4] == t[2]);
    assert(body[5] == '.' as u8);
    assert(body[6] == '0' as u8);
    assert(is_digit(t[0]) && is_digit(t[1]) && is_digit(t[2]));
    assert forall|i: int| 0 <= i < body.len() implies body[i] != '*' as u8 && is_printable(
        body[i],
    ) by {
        assert(0 <= i <= 6);
    }
    assert(response_frame(resp).drop_last() =~= body);
    lemma_decode_plain(body, '\n' as u8);
    assert(is_ascii(prefix));
    assert(is_ascii(text(".0")));
    lemma_ascii_concat(prefix, t);
    lemma_ascii_concat(prefix + t, text(".0"));
    lemma_ascii_is_utf8(body);
    assert(body.take(2) =~= prefix);
    assert(text("AZ") != text("EL"));
    let rest = body.skip(2);
    assert(rest =~= t + seq!['.' as u8] + seq!['0' as u8]);
    assert forall|i: int| 0 <= i < t.len() implies t[i] != '.' as u8 by {
        assert(is_digit(t[i]));
    }
    lemma_first_index_after(t, '.' as u8, seq!['0' as u8]);
    assert(rest.take(3) =~= t);
    assert(body != text("?"));
    assert(body != text("+"));
}

/// `ST=<status>` reads back as the status.
proof fn lemma_status_round_trip(st: DeviceStatus)
    ensures
        decoded_response(response_frame(Response::Status(st))) == Ok::<
            Response,
            crate::error::ParseError,
        >(Response::Status(st)),
        printable(response_frame(Response::Status(st)).drop_last()),
        is_line_end(response_frame(Response::Status(st)).last()),
{
    reveal_strlit("ST=");
    reveal_strlit("AZ=");
    reveal_strlit("AZ");
    reveal_strlit("EL");
    reveal_strlit("GS");
    reveal_strlit("GE");
    reveal_strlit("CR");
    reveal_strlit("\r");
    reveal_strlit("?");
    reveal_strlit("+");
    reveal_strlit("idle");
    reveal_strlit("moving");
    reveal_strlit("homing");
    reveal_strlit("not_homed");
    reveal_strlit("homing_az_error");
    reveal_strlit("homing_el_error");
    let name = status_bytes(st);
    let body = text("ST=") + name;
    assert(response_frame(Response::Status(st)) =~= body.push('\r' as u8));
    // Names are lower-case letters and underscores.
    assert forall|i: int| 0 <= i < name.len() implies 95 <= #[trigger] name[i] <= 122 by {
        match st {
            DeviceStatus::Idle => {},
            DeviceStatus::Moving => {},
            DeviceStatus::Homing => {},
            DeviceStatus::NotHomed => {},
            DeviceStatus::HomingAzError => {},
            DeviceStatus::HomingElError => {},
        }
    }
    assert(3 <= name.len() <= 15);
    assert forall|i: int| 0 <= i < body.len() implies body[i] != '*' as u8 && body[i] != 'A' as u8
        && body[i] < 128 && is_printable(body[i]) by {
        if i >= 3 {
            assert(body[i] == name[i - 3]);
        }
    }
    assert(response_frame(Response::Status(st)).drop_last() =~= body);
    assert(body.last() == name.last());
    lemma_decode_plain(body, '\r' as u8);
    lemma_ascii_is_utf8(body);
    lemma_absent_pattern(body, text("AZ="), 0);
    assert(body.take(3) =~= text("ST="));
    assert(body.skip(3) =~= name);
    assert(status_bytes(DeviceStatus::Idle).len() == 4);
    assert(status_bytes(DeviceStatus::Moving).len() == 6);
    assert(status_bytes(DeviceStatus::Homing).len() == 6);
    assert(status_bytes(DeviceStatus::NotHomed).len() == 9);
    assert(status_bytes(DeviceStatus::HomingAzError).len() == 15);
    assert(status_bytes(DeviceStatus::HomingElError).len() == 15);
    assert(status_bytes(DeviceStatus::Moving) != status_bytes(DeviceStatus::Homing)) by {
        assert(status_bytes(DeviceStatus::Moving)[0] != status_bytes(DeviceStatus::Homing)[0]);
    }
    assert(status_bytes(DeviceStatus::HomingAzError) != status_bytes(DeviceStatus::HomingElError)) by {
        assert(status_bytes(DeviceStatus::HomingAzError)[7] != status_bytes(
            DeviceStatus::HomingElError,
        )[7]);
    }
    assert(body[0] == 'S' as u8);
    assert(body != text("?"));
    assert(body != text("+"));
}

/// `GS<val>` and `GE<val>` read back as the register value.
proof fn lemma_register_round_trip(resp: Response)
    requires
        resp is StatusRegister || resp is ErrorRegister,
    ensures
        decoded_response(response_frame(resp)) == Ok::<Response, crate::error::ParseError>(resp),
        printable(response_frame(resp).drop_last()),
        is_line_end(response_frame(resp).last()),
{
    reveal_strlit("GS");
    reveal_strlit("GE");
    reveal_strlit("AZ");
    reveal_strlit("EL");
    reveal_strlit("ST=");
    reveal_strlit("\n");
    reveal_strlit("?");
    reveal_strlit("+");
    let (prefix, v) = match resp {
        Response::StatusRegister(v) => (text("GS"), v),
        Response::ErrorRegister(v) => (text("GE"), v),
        _ => (text("GS"), 0u16),
    };
    lemma_decimal(v as nat);
    lemma_decimal_ascii(v as nat);
    lemma_decimal_parse(v as nat, 0xffff);
    let d = decimal(v as nat);
    let body = prefix + d;
    assert(response_frame(resp) =~= body.push('\n' as u8));
    assert(body.len() <= 7);
    assert forall|i: int| 0 <= i < body.len() implies body[i] != '*' as u8 && body[i] < 128
        && is_printable(body[i]) by {
        if i >= 2 {
            assert(body[i] == d[i - 2]);
            assert(is_digit(d[i - 2]));
        }
    }
    assert(response_frame(resp).drop_last() =~= body);
    assert(body.last() == d.last());
    assert(is_digit(d[d.len() - 1]));
    lemma_decode_plain(body, '\n' as u8);
    lemma_ascii_is_utf8(body);
    assert(body.take(2) =~= prefix);
    assert(body.skip(2) =~= d);
    assert(body[0] == 'G' as u8);
    assert(text("GS")[1] != text("GE")[1]);
    assert(body != text("?"));
    assert(body != text("+"));
}

/// The bytes of a signed decimal rendering: a leading `-` or digits.
proof fn lemma_signed_decimal_bytes(v: int)
    ensures
        signed_decimal(v).len() >= 1,
        forall|i: int|
            #![trigger signed_decimal(v)[i]]
            0 <= i < signed_decimal(v).len() ==> is_digit(signed_decimal(v)[i]) || (i == 0
                && signed_decimal(v)[i] == '-' as u8),
{
    let dv = signed_decimal(v);
    if v < 0 {
        lemma_decimal((-v) as nat);
        assert forall|i: int| 0 < i < dv.len() implies is_digit(#[trigger] dv[i]) by {
            assert(dv[i] == decimal((-v) as nat)[i - 1]);
        }
    } else {
        lemma_decimal(v as nat);
    }
}

/// `CR<reg>,<val>` reads back as the configuration value.
proof fn lemma_config_round_trip(register: u16, value: i32)
    ensures
        decoded_response(response_frame(Response::ConfigValue { register, value })) == Ok::<
            Response,
            crate::error::ParseError,
        >(Response::ConfigValue { register, value }),
        printable(response_frame(Response::ConfigValue { register, value }).drop_last()),
        is_line_end(response_frame(Response::ConfigValue { register, value }).last()),
{
    reveal_strlit("CR");
    reveal_strlit(",");
    reveal_strlit("GS");
    reveal_strlit("GE");
    reveal_strlit("AZ=");
    reveal_strlit("AZ");
    reveal_strlit("EL");
    reveal_strlit("ST=");
    reveal_strlit("\n");
    reveal_strlit("?");
    reveal_strlit("+");
    lemma_decimal(register as nat);
    lemma_decimal_ascii(register as nat);
    lemma_decimal_parse(register as nat, 0xffff);
    lemma_signed_decimal_parse(value as int);
    let dr = decimal(register as nat);
    let dv = signed_decimal(value as int);
    lemma_signed_decimal_bytes(value as int);
    let rest = dr + seq![',' as u8] + dv;
    let body = text("CR") + rest;
    assert(response_frame(Response::ConfigValue { register, value }) =~= body.push('\n' as u8));
    assert forall|i: int| 0 <= i < dr.len() implies dr[i] != ',' as u8 by {
        assert(is_digit(dr[i]));
    }
    assert forall|i: int| 0 <= i < body.len() implies body[i] != '*' as u8 && body[i] != 'A' as u8
        && body[i] < 128 && is_printable(body[i]) by {
        if 2 <= i < 2 + dr.len() {
            assert(body[i] == dr[i - 2]);
            assert(is_digit(dr[i - 2]));
        } else if i > 2 + dr.len() {
            assert(body[i] == dv[i - 3 - dr.len()]);
        }
    }
    assert(body.last() == dv.last());
    assert(response_frame(Response::ConfigValue { register, value }).drop_last() =~= body);
    lemma_decode_plain(body, '\n' as u8);
    lemma_ascii_is_utf8(body);
    lemma_absent_pattern(body, text("AZ="), 0);
    assert(body.take(2) =~= text("CR"));
    assert(body.skip(2) =~= rest);
    lemma_first_index_after(dr, ',' as u8, dv);
    assert(rest.take(dr.len() as int) =~= dr);
    assert(rest.skip(dr.len() as int + 1) =~= dv);
    assert(body[0] == 'C' as u8);
    assert(body != text("?"));
    assert(body != text("+"));
}

/// Angles that the three-digit fields of a response frame can carry.
pub open spec fn response_fits_frame(resp: Response) -> bool {
    match resp {
        Response::Position { az, el } => az < 1000 && el < 1000,
        Response::AzimuthPosition(az) => az < 1000,
        Response::ElevationPosition(el) => el < 1000,
        _ => true,
    }
}

/// Every response frame that [`crate::framing::encode_response_into`] writes
/// decodes back to the same response, as long as its angles fit the three
/// digits of their field.
pub proof fn lemma_response_round_trip(resp: Response)
    requires
        response_fits_frame(resp),
    ensures
        decoded_response(response_frame(resp)) == Ok::<Response, crate::error::ParseError>(resp),
        printable(response_frame(resp).drop_last()),
        is_line_end(response_frame(resp).last()),
{
    reveal_strlit("+\r");
    reveal_strlit("?\r");
    reveal_strlit("?");
    reveal_strlit("+");
    match resp {
        Response::Ack => {
            let body = text("+");
            assert(response_frame(resp) =~= body.push('\r' as u8));
            assert(response_frame(resp).drop_last() =~= body);
            lemma_decode_plain(body, '\r' as u8);
        },
        Response::Error => {
            let body = text("?");
            assert(response_frame(resp) =~= body.push('\r' as u8));
            assert(response_frame(resp).drop_last() =~= body);
            lemma_decode_plain(body, '\r' as u8);
        },
        Response::Position { az, el } => lemma_position_round_trip(az, el),
        Response::AzimuthPosition(_) | Response::ElevationPosition(_) => lemma_axis_round_trip(
            resp,
        ),
        Response::Status(st) => lemma_status_round_trip(st),
        Response::StatusRegister(_) | Response::ErrorRegister(_) => lemma_register_round_trip(
            resp,
        ),
        Response::ConfigValue { register, value } => lemma_config_round_trip(register, value),
    }
}

/// The checksum suffix is three bytes: `*` and two upper-case hex digits that
/// read back as the checksum's nibbles.
proof fn lemma_checksum_suffix(c: u8)
    ensures
        checksum_suffix(c).len() == 3,
        checksum_suffix(c)[0] == '*' as u8,
        checksum_suffix(c)[1] != '*' as u8,
        checksum_suffix(c)[2] != '*' as u8,
        !is_line_end(checksum_suffix(c)[2]),
        hex_value(checksum_suffix(c)[1]) == Some(c >> 4),
        hex_value(checksum_suffix(c)[2]) == Some(c & 0x0f),
        (c >> 4) * 16 + (c & 0x0f) == c,
{
    assert(c >> 4 < 16 && c & 0x0f < 16) by (bit_vector);
    assert((c >> 4) * 16 + (c & 0x0f) == c) by (bit_vector);
}

/// A response frame with a `*XX` checksum means what the frame without it
/// means when the checksum is the XOR of the payload, and is refused with
/// [`ParseError::BadChecksum`] otherwise.
pub proof fn lemma_response_checksum(payload: Seq<u8>, checksum: u8, term: u8)
    requires
        is_line_end(term),
        forall|i: int| 0 <= i < payload.len() ==> payload[i] != '*' as u8,
        payload.len() > 0 ==> !is_line_end(payload.last()),
    ensures
        decoded_response(payload + checksum_suffix(checksum) + seq![term]) == (if checksum
            == xor_all(payload) {
            decoded_response(payload.push(term))
        } else {
            Err(ParseError::BadChecksum)
        }),
{
    lemma_checksum_suffix(checksum);
    let t = payload + checksum_suffix(checksum);
    let f = t + seq![term];
    assert(f.drop_last() =~= t);
    assert(trim_line_end(f) == trim_line_end(t));
    assert(t.last() == checksum_suffix(checksum)[2]);
    assert(trim_line_end(t) == t);
    assert(t[payload.len() as int] == '*' as u8);
    assert(last_index_before(t, '*' as u8, t.len() - 2) == Some(payload.len() as int));
    assert(t[payload.len() as int + 1] == checksum_suffix(checksum)[1]);
    assert(t[payload.len() as int + 2] == checksum_suffix(checksum)[2]);
    assert(t.take(payload.len() as int) =~= payload);
    let g = payload.push(term);
    assert(g.drop_last() =~= payload);
    if payload.len() > 0 {
        assert(trim_line_end(g) == trim_line_end(payload));
        assert(trim_line_end(payload) == payload);
        lemma_absent_byte(payload, '*' as u8, payload.len() - 2);
    } else {
        reveal_strlit("?");
        assert(trim_line_end(payload) == payload);
        assert(response_payload(payload) == Ok::<Response, ParseError>(Response::Ack));
    }
}

// ── Commands ─────────────────────────────────────────────────────────────────

/// A frame without `*` carries no checksum to strip.
proof fn lemma_no_checksum(f: Seq<u8>)
    requires
        forall|i: int| 0 <= i < f.len() ==> f[i] != '*' as u8,
    ensures
        strip_command_checksum(f) == f,
{
    lemma_absent_byte(f, '*' as u8, f.len() as int);
}

/// Three zero-padded digits read back through [`digits3`].
proof fn lemma_digits3(n: nat)
    requires
        n < 1000,
    ensures
        ({
            let t = three_digits(n);
            digits3(t[0], t[1], t[2]) == Some(n)
        }),
{
    let t = three_digits(n);
    assert(t[0] == (n / 100) % 10 + 48);
    assert(t[1] == (n / 10) % 10 + 48);
    assert(t[2] == n % 10 + 48);
    assert(((n / 100) % 10) * 100 + ((n / 10) % 10) * 10 + n % 10 == n);
}

/// Every command payload is printable ASCII.
pub proof fn lemma_command_payload_printable(cmd: Command)
    ensures
        printable(command_payload(cmd)),
{
    reveal_strlit("A");
    reveal_strlit("E");
    reveal_strlit("W");
    reveal_strlit(" ");
    reveal_strlit("C");
    reveal_strlit("AZ");
    reveal_strlit("EL");
    reveal_strlit("GS");
    reveal_strlit("S");
    reveal_strlit("?");
    reveal_strlit("O");
    reveal_strlit("VL");
    reveal_strlit("VR");
    reveal_strlit("VU");
    reveal_strlit("VD");
    reveal_strlit("GE");
    reveal_strlit("CR");
    reveal_strlit("CW");
    reveal_strlit(",");
    reveal_strlit("RESET");
    reveal_strlit("PARK");
    let p = command_payload(cmd);
    match cmd {
        Command::Azimuth(_) | Command::Elevation(_) | Command::AzimuthElevation { .. }
        | Command::Offset { .. } => {
            assert forall|i: int| 0 <= i < p.len() implies is_printable(#[trigger] p[i]) by {
                match cmd {
                    Command::Azimuth(az) => if i > 0 {
                        assert(p[i] == three_digits(az as nat)[i - 1]);
                    },
                    Command::Elevation(el) => if i > 0 {
                        assert(p[i] == three_digits(el as nat)[i - 1]);
                    },
                    Command::AzimuthElevation { az, el } => if 1 <= i < 4 {
                        assert(p[i] == three_digits(az as nat)[i - 1]);
                    } else if 5 <= i {
                        assert(p[i] == three_digits(el as nat)[i - 5]);
                    },
                    Command::Offset { az, el } => {
                        let ma: nat = if az >= 0 { az as nat } else { (-az) as nat };
                        let me: nat = if el >= 0 { el as nat } else { (-el) as nat };
                        if 2 <= i < 5 {
                            assert(p[i] == three_digits(ma)[i - 2]);
                        } else if 6 <= i {
                            assert(p[i] == three_digits(me)[i - 6]);
                        }
                    },
                    _ => {},
                }
            }
        },
        Command::VelocityLeft(_) | Command::VelocityRight(_) | Command::VelocityUp(_)
        | Command::VelocityDown(_) | Command::ReadConfig(_) | Command::WriteConfig { .. } => {
            lemma_numeric_command_round_trip(cmd);
        },
        Command::QueryStatus => {},
        _ => {
            lemma_keyword_command_round_trip(cmd);
        },
    }
}

/// The payloads of the GS-232 angle commands read back as the command.
proof fn lemma_angle_command_round_trip(cmd: Command)
    requires
        cmd is Azimuth || cmd is Elevation || cmd is AzimuthElevation || cmd is Offset,
        command_param_error(cmd) is None,
        cmd matches Command::Offset { az, el } ==> -1000 < az < 1000 && -1000 < el < 1000,
    ensures
        decoded_command(command_payload(cmd)) == Some(cmd),
        forall|i: int|
            0 <= i < command_payload(cmd).len() ==> command_payload(cmd)[i] != '*' as u8,
        printable(command_payload(cmd)),
{
    reveal_strlit("A");
    reveal_strlit("E");
    reveal_strlit("W");
    reveal_strlit(" ");
    reveal_strlit("O");
    reveal_strlit("C");
    reveal_strlit("S");
    reveal_strlit("?");
    reveal_strlit("GS");
    reveal_strlit("GE");
    reveal_strlit("AZ");
    reveal_strlit("EL");
    let p = command_payload(cmd);
    match cmd {
        Command::Azimuth(az) => {
            lemma_three_digits(az as nat);
            lemma_digits3(az as nat);
            let t = three_digits(az as nat);
            assert(p[1] == t[0] && p[2] == t[1] && p[3] == t[2]);
        },
        Command::Elevation(el) => {
            lemma_three_digits(el as nat);
            lemma_digits3(el as nat);
            let t = three_digits(el as nat);
            assert(p[1] == t[0] && p[2] == t[1] && p[3] == t[2]);
        },
        Command::AzimuthElevation { az, el } => {
            lemma_three_digits(az as nat);
            lemma_digits3(az as nat);
            lemma_three_digits(el as nat);
            lemma_digits3(el as nat);
            let ta = three_digits(az as nat);
            let te = three_digits(el as nat);
            assert(p[1] == ta[0] && p[2] == ta[1] && p[3] == ta[2] && p[4] == ' ' as u8);
            assert(p[5] == te[0] && p[6] == te[1] && p[7] == te[2]);
        },
        Command::Offset { az, el } => {
            let ma: nat = if az >= 0 { az as nat } else { (-az) as nat };
            let me: nat = if el >= 0 { el as nat } else { (-el) as nat };
            lemma_three_digits(ma);
            lemma_digits3(ma);
            lemma_three_digits(me);
            lemma_digits3(me);
            let ta = three_digits(ma);
            let te = three_digits(me);
            assert(p[2] == ta[0] && p[3] == ta[1] && p[4] == ta[2]);
            assert(p[6] == te[0] && p[7] == te[1] && p[8] == te[2]);
        },
        _ => {},
    }
    assert forall|i: int| 0 <= i < p.len() implies p[i] != '*' as u8 && is_printable(p[i]) by {
        match cmd {
            Command::Azimuth(az) => {
                if i > 0 {
                    assert(is_digit(three_digits(az as nat)[i - 1]));
                }
            },
            Command::Elevation(el) => {
                if i > 0 {
                    assert(is_digit(three_digits(el as nat)[i - 1]));
                }
            },
            Command::AzimuthElevation { az, el } => {
                if 1 <= i < 4 {
                    assert(is_digit(three_digits(az as nat)[i - 1]));
                } else if 5 <= i {
                    assert(is_digit(three_digits(el as nat)[i - 5]));
                }
            },
            Command::Offset { az, el } => {
                let ma: nat = if az >= 0 { az as nat } else { (-az) as nat };
                let me: nat = if el >= 0 { el as nat } else { (-el) as nat };
                if 2 <= i < 5 {
                    assert(is_digit(three_digits(ma)[i - 2]));
                } else if 6 <= i {
                    assert(is_digit(three_digits(me)[i - 6]));
                }
            },
            _ => {},
        }
    }
    lemma_no_checksum(p);
}

/// The payloads of the parameterless commands, except `QueryStatus`, read
/// back as the command.
proof fn lemma_keyword_command_round_trip(cmd: Command)
    requires
        cmd is QueryPosition || cmd is QueryAzimuth || cmd is QueryElevation || cmd is Stop
            || cmd is KeepAlive || cmd is GetStatusRegister || cmd is GetErrorRegister
            || cmd is Reset || cmd is Park,
    ensures
        decoded_command(command_payload(cmd)) == Some(cmd),
        forall|i: int|
            0 <= i < command_payload(cmd).len() ==> command_payload(cmd)[i] != '*' as u8,
        printable(command_payload(cmd)),
{
    reveal_strlit("C");
    reveal_strlit("S");
    reveal_strlit("?");
    reveal_strlit("GS");
    reveal_strlit("GE");
    reveal_strlit("AZ");
    reveal_strlit("EL");
    reveal_strlit("RESET");
    reveal_strlit("PARK");
    let p = command_payload(cmd);
    assert forall|i: int| 0 <= i < p.len() implies p[i] != '*' as u8 && p[i] < 128 && is_printable(
        p[i],
    ) by {
        match cmd {
            Command::Reset => {
                assert(0 <= i < 5);
            },
            Command::Park => {
                assert(0 <= i < 4);
            },
            _ => {},
        }
    }
    lemma_no_checksum(p);
    match cmd {
        Command::Reset | Command::Park => {
            lemma_ascii_is_utf8(p);
            assert(p[0] != 'A' as u8 && p[0] != 'E' as u8);
        },
        _ => {},
    }
    assert(text("GS")[1] != text("GE")[1]);
    assert(text("AZ")[0] != text("GS")[0]);
    assert(text("AZ")[0] != text("GE")[0]);
    assert(text("EL")[0] != text("GS")[0]);
    assert(text("EL")[0] != text("GE")[0]);
    assert(text("EL")[0] != text("AZ")[0]);
    assert(text("C")[0] != text("S")[0]);
    assert(text("C")[0] != text("?")[0]);
    assert(text("S")[0] != text("?")[0]);
    assert(text("RESET")[0] != text("PARK")[0]);
}

/// The bytes of the payloads of the Easycomm III commands with a number.
proof fn lemma_numeric_payload_bytes(cmd: Command)
    requires
        cmd is VelocityLeft || cmd is VelocityRight || cmd is VelocityUp || cmd is VelocityDown
            || cmd is ReadConfig || cmd is WriteConfig,
    ensures
        vstd::utf8::valid_utf8(command_payload(cmd)),
        forall|i: int|
            0 <= i < command_payload(cmd).len() ==> command_payload(cmd)[i] != '*' as u8,
        printable(command_payload(cmd)),
{
    reveal_strlit("VL");
    reveal_strlit("VR");
    reveal_strlit("VU");
    reveal_strlit("VD");
    reveal_strlit("CR");
    reveal_strlit("CW");
    reveal_strlit(",");
    reveal_strlit("C");
    reveal_strlit("S");
    reveal_strlit("?");
    reveal_strlit("GS");
    reveal_strlit("GE");
    reveal_strlit("AZ");
    reveal_strlit("EL");
    reveal_strlit("RESET");
    reveal_strlit("PARK");
    reveal_strlit("SA SE");
    reveal_strlit("SA");
    reveal_strlit("SE");
    let p = command_payload(cmd);
    let (prefix, n, max): (Seq<u8>, nat, nat) = match cmd {
        Command::VelocityLeft(v) => (text("VL"), v as nat, 0xffff_ffff),
        Command::VelocityRight(v) => (text("VR"), v as nat, 0xffff_ffff),
        Command::VelocityUp(v) => (text("VU"), v as nat, 0xffff_ffff),
        Command::VelocityDown(v) => (text("VD"), v as nat, 0xffff_ffff),
        Command::ReadConfig(r) => (text("CR"), r as nat, 0xffff),
        Command::WriteConfig { register, value } => (text("CW"), register as nat, 0xffff),
        _ => (text("CR"), 0, 0),
    };
    lemma_decimal(n);
    lemma_decimal_ascii(n);
    lemma_decimal_parse(n, max);
    let d = decimal(n);
    let tail: Seq<u8> = match cmd {
        Command::WriteConfig { register, value } => seq![',' as u8] + signed_decimal(value as int),
        _ => Seq::empty(),
    };
    match cmd {
        Command::WriteConfig { register, value } => {
            lemma_signed_decimal_bytes(value as int);
            lemma_signed_decimal_parse(value as int);
        },
        _ => {},
    }
    assert(p =~= prefix + d + tail);
    assert(p.len() >= 3);
    assert forall|i: int| 0 <= i < p.len() implies p[i] != '*' as u8 && p[i] < 128 && is_printable(
        p[i],
    ) by {
        if 2 <= i < 2 + d.len() {
            assert(p[i] == d[i - 2]);
            assert(is_digit(d[i - 2]));
        } else if i > 2 + d.len() {
            assert(p[i] == tail[i - 2 - d.len()]);
            if let Command::WriteConfig { register, value } = cmd {
                assert(tail[i - 2 - d.len()] == signed_decimal(value as int)[i - 3 - d.len()]);
            }
        }
    }
    lemma_ascii_is_utf8(p);
}

/// The payloads of the Easycomm III commands with a number read back as the
/// command.
proof fn lemma_numeric_command_round_trip(cmd: Command)
    requires
        cmd is VelocityLeft || cmd is VelocityRight || cmd is VelocityUp || cmd is VelocityDown
            || cmd is ReadConfig || cmd is WriteConfig,
    ensures
        decoded_command(command_payload(cmd)) == Some(cmd),
        forall|i: int|
            0 <= i < command_payload(cmd).len() ==> command_payload(cmd)[i] != '*' as u8,
        printable(command_payload(cmd)),
{
    reveal_strlit("VL");
    reveal_strlit("VR");
    reveal_strlit("VU");
    reveal_strlit("VD");
    reveal_strlit("CR");
    reveal_strlit("CW");
    reveal_strlit(",");
    reveal_strlit("C");
    reveal_strlit("S");
    reveal_strlit("?");
    reveal_strlit("GS");
    reveal_strlit("GE");
    reveal_strlit("AZ");
    reveal_strlit("EL");
    reveal_strlit("RESET");
    reveal_strlit("PARK");
    reveal_strlit("SA SE");
    reveal_strlit("SA");
    reveal_strlit("SE");
    let p = command_payload(cmd);
    let (prefix, n, max): (Seq<u8>, nat, nat) = match cmd {
        Command::VelocityLeft(v) => (text("VL"), v as nat, 0xffff_ffff),
        Command::VelocityRight(v) => (text("VR"), v as nat, 0xffff_ffff),
        Command::VelocityUp(v) => (text("VU"), v as nat, 0xffff_ffff),
        Command::VelocityDown(v) => (text("VD"), v as nat, 0xffff_ffff),
        Command::ReadConfig(r) => (text("CR"), r as nat, 0xffff),
        Command::WriteConfig { register, value } => (text("CW"), register as nat, 0xffff),
        _ => (text("CR"), 0, 0),
    };
    lemma_decimal(n);
    lemma_decimal_ascii(n);
    lemma_decimal_parse(n, max);
    let d = decimal(n);
    let tail: Seq<u8> = match cmd {
        Command::WriteConfig { register, value } => seq![',' as u8] + signed_decimal(value as int),
        _ => Seq::empty(),
    };
    match cmd {
        Command::WriteConfig { register, value } => {
            lemma_signed_decimal_bytes(value as int);
            lemma_signed_decimal_parse(value as int);
        },
        _ => {},
    }
    assert(p =~= prefix + d + tail);
    assert(p.len() >= 3);
    lemma_numeric_payload_bytes(cmd);
    lemma_no_checksum(p);
    assert(p.take(2) =~= prefix);
    assert(p.skip(2) =~= d + tail);
    match cmd {
        Command::WriteConfig { register, value } => {
            assert forall|i: int| 0 <= i < d.len() implies d[i] != ',' as u8 by {
                assert(is_digit(d[i]));
            }
            lemma_first_index_after(d, ',' as u8, signed_decimal(value as int));
            assert(d + tail =~= d + seq![',' as u8] + signed_decimal(value as int));
            assert((d + tail).take(d.len() as int) =~= d);
            assert((d + tail).skip(d.len() as int + 1) =~= signed_decimal(value as int));
        },
        _ => {
            assert(d + tail =~= d);
        },
    }
    assert(p[0] != 'A' as u8 && p[0] != 'E' as u8 && p[0] != 'W' as u8 && p[0] != 'O' as u8);
    assert(p != text("RESET")) by {
        assert(p[0] != text("RESET")[0] || p[1] != text("RESET")[1]);
    }
    assert(p != text("PARK")) by {
        assert(p[0] != text("PARK")[0]);
    }
    assert(p != text("SA SE") && p != text("SA") && p != text("SE")) by {
        assert(p[0] != 'S' as u8);
    }
    assert(text("VL")[1] != text("VR")[1]);
    assert(text("VL")[1] != text("VU")[1]);
    assert(text("VL")[1] != text("VD")[1]);
    assert(text("VR")[1] != text("VU")[1]);
    assert(text("VR")[1] != text("VD")[1]);
    assert(text("VU")[1] != text("VD")[1]);
    assert(text("CR")[1] != text("CW")[1]);
}

/// Commands whose frame reads back as themselves: `QueryStatus` shares its
/// `GS` frame with `GetStatusRegister`, and an offset beyond three digits does
/// not fit its field.
pub open spec fn command_fits_frame(cmd: Command) -> bool {
    match cmd {
        Command::QueryStatus => false,
        Command::Offset { az, el } => -1000 < az < 1000 && -1000 < el < 1000,
        _ => true,
    }
}

/// Every command that [`crate::framing::encode_into`] accepts decodes back,
/// through [`crate::framing::decode_command`], to the same command, when its
/// frame identifies it.
pub proof fn lemma_command_round_trip(cmd: Command)
    requires
        command_param_error(cmd) is None,
        command_fits_frame(cmd),
    ensures
        decoded_command(command_payload(cmd)) == Some(cmd),
        forall|i: int|
            0 <= i < command_payload(cmd).len() ==> command_payload(cmd)[i] != '*' as u8,
        printable(command_payload(cmd)),
{
    match cmd {
        Command::Azimuth(_) | Command::Elevation(_) | Command::AzimuthElevation { .. }
        | Command::Offset { .. } => lemma_angle_command_round_trip(cmd),
        Command::VelocityLeft(_) | Command::VelocityRight(_) | Command::VelocityUp(_)
        | Command::VelocityDown(_) | Command::ReadConfig(_) | Command::WriteConfig { .. } => {
            lemma_numeric_command_round_trip(cmd)
        },
        _ => lemma_keyword_command_round_trip(cmd),
    }
}

/// The device-side parser drops a `*XX` checksum without checking it: a frame
/// with no `*` of its own decodes the same with any checksum appended.
pub proof fn lemma_command_checksum_ignored(payload: Seq<u8>, checksum: u8)
    requires
        forall|i: int| 0 <= i < payload.len() ==> payload[i] != '*' as u8,
    ensures
        decoded_command(payload + checksum_suffix(checksum)) == decoded_command(payload),
{
    let f = payload + checksum_suffix(checksum);
    assert(checksum >> 4 < 16 && checksum & 0x0f < 16) by (bit_vector);
    assert(f[payload.len() as int + 1] != '*' as u8);
    assert(f[payload.len() as int + 2] != '*' as u8);
    assert(f[payload.len() as int] == '*' as u8);
    assert(last_index_before(f, '*' as u8, f.len() as int) == Some(payload.len() as int)) by {
        assert(last_index_before(f, '*' as u8, f.len() - 1) == last_index_before(
            f,
            '*' as u8,
            f.len() - 2,
        ));
    }
    assert(f.take(payload.len() as int) =~= payload);
    lemma_no_checksum(payload);
}

/// A checksummed command frame, as [`crate::framing::encode_with_checksum`]
/// writes it, decodes back to its command.
pub proof fn lemma_checksummed_command_round_trip(cmd: Command)
    requires
        command_param_error(cmd) is None,
        command_fits_frame(cmd),
    ensures
        decoded_command(command_payload(cmd) + checksum_suffix(xor_all(command_payload(cmd))))
            == Some(cmd),
{
    lemma_command_round_trip(cmd);
    lemma_command_checksum_ignored(command_payload(cmd), xor_all(command_payload(cmd)));
}

// ── Shape of response frames ─────────────────────────────────────────────────

/// Printable bytes other than `*`.
pub open spec fn plain(s: Seq<u8>) -> bool {
    forall|i: int| 0 <= i < s.len() ==> is_printable(#[trigger] s[i]) && s[i] != '*' as u8
}

proof fn lemma_plain_concat(a: Seq<u8>, b: Seq<u8>)
    requires
        plain(a),
        plain(b),
    ensures
        plain(a + b),
{
    assert forall|i: int| 0 <= i < (a + b).len() implies is_printable(#[trigger] (a + b)[i]) && (a
        + b)[i] != '*' as u8 by {
        if i < a.len() {
            assert((a + b)[i] == a[i]);
        } else {
            assert((a + b)[i] == b[i - a.len()]);
        }
    }
}

/// Digits, and numbers written in decimal with or without a sign, are plain.
proof fn lemma_plain_numbers(n: nat)
    ensures
        plain(three_digits(n)),
        plain(decimal(n)),
        plain(signed_decimal(n as int)),
        plain(signed_decimal(-(n as int))),
{
    lemma_decimal(n);
    let d = decimal(n);
    assert forall|i: int| 0 <= i < d.len() implies is_printable(#[trigger] d[i]) && d[i]
        != '*' as u8 by {
        assert(is_digit(d[i]));
    }
    assert(plain(seq!['-' as u8]));
    lemma_plain_concat(seq!['-' as u8], d);
    if n == 0 {
        assert(signed_decimal(-(n as int)) == d);
    }
}

/// Every response frame is 2 to 20 bytes long and ends in a terminator, and
/// every byte before the terminator is printable and not `*`: a frame never
/// carries a terminator or a checksum marker before its end.
pub proof fn lemma_response_frame_shape(resp: Response)
    ensures
        2 <= response_frame(resp).len() <= 20,
        is_line_end(response_frame(resp).last()),
        plain(response_frame(resp).drop_last()),
{
    reveal_strlit("+\r");
    reveal_strlit("?\r");
    reveal_strlit("AZ=");
    reveal_strlit(" EL=");
    reveal_strlit("\r");
    reveal_strlit("AZ");
    reveal_strlit("EL");
    reveal_strlit(".0\n");
    reveal_strlit(".0");
    reveal_strlit("ST=");
    reveal_strlit("GS");
    reveal_strlit("GE");
    reveal_strlit("CR");
    reveal_strlit(",");
    reveal_strlit("\n");
    reveal_strlit("idle");
    reveal_strlit("moving");
    reveal_strlit("homing");
    reveal_strlit("not_homed");
    reveal_strlit("homing_az_error");
    reveal_strlit("homing_el_error");
    lemma_response_frame_len(resp);
    let f = response_frame(resp);
    let cr = text("\r");
    let lf = text("\n");
    match resp {
        Response::Ack | Response::Error => {
            assert(plain(f.drop_last()));
        },
        Response::Position { az, el } => {
            lemma_plain_numbers(az as nat);
            lemma_plain_numbers(el as nat);
            let body = text("AZ=") + three_digits(az as nat) + text(" EL=") + three_digits(
                el as nat,
            );
            assert(plain(text("AZ=")));
            assert(plain(text(" EL=")));
            lemma_plain_concat(text("AZ="), three_digits(az as nat));
            lemma_plain_concat(text("AZ=") + three_digits(az as nat), text(" EL="));
            lemma_plain_concat(text("AZ=") + three_digits(az as nat) + text(" EL="), three_digits(
                el as nat,
            ));
            assert(f =~= body + cr);
            assert(f.drop_last() =~= body);
        },
        Response::AzimuthPosition(a) | Response::ElevationPosition(a) => {
            lemma_plain_numbers(a as nat);
            let label = if resp is AzimuthPosition {
                text("AZ")
            } else {
                text("EL")
            };
            let body = label + three_digits(a as nat) + text(".0");
            assert(plain(label));
            assert(plain(text(".0")));
            lemma_plain_concat(label, three_digits(a as nat));
            lemma_plain_concat(label + three_digits(a as nat), text(".0"));
            assert(f =~= body + lf);
            assert(f.drop_last() =~= body);
        },
        Response::Status(st) => {
            let name = status_bytes(st);
            assert(plain(name));
            assert(plain(text("ST=")));
            lemma_plain_concat(text("ST="), name);
            assert(f =~= text("ST=") + name + cr);
            assert(f.drop_last() =~= text("ST=") + name);
        },
        Response::StatusRegister(v) | Response::ErrorRegister(v) => {
            lemma_plain_numbers(v as nat);
            let label = if resp is StatusRegister {
                text("GS")
            } else {
                text("GE")
            };
            assert(plain(label));
            lemma_plain_concat(label, decimal(v as nat));
            assert(f =~= label + decimal(v as nat) + lf);
            assert(f.drop_last() =~= label + decimal(v as nat));
        },
        Response::ConfigValue { register, value } => {
            lemma_plain_numbers(register as nat);
            if value < 0 {
                lemma_plain_numbers((-value) as nat);
                assert(-((-value) as nat as int) == value as int);
            } else {
                lemma_plain_numbers(value as nat);
            }
            let body = text("CR") + decimal(register as nat) + text(",") + signed_decimal(
                value as int,
            );
            assert(plain(text("CR")));
            assert(plain(text(",")));
            lemma_plain_concat(text("CR"), decimal(register as nat));
            lemma_plain_concat(text("CR") + decimal(register as nat), text(","));
            lemma_plain_concat(text("CR") + decimal(register as nat) + text(","), signed_decimal(
                value as int,
            ));
            assert(f =~= body + lf);
            assert(f.drop_last() =~= body);
        },
    }
}

// ── Status names, register queries, decimal fields ──────────────────────────

/// A status name reads back as its status, and no other bytes name a status:
/// the wire names are exactly `idle`, `moving`, `homing`, `not_homed`,
/// `homing_az_error` and `homing_el_error`. Through the contracts of the
/// decoder's `status_from_str` (its result is [`status_named`]) and
/// `status_to_str` (its result is the status's name), reading back the name
/// written for a status gives that status, and any other text gives `None`.
pub proof fn lemma_status_names(x: Seq<u8>, st: DeviceStatus)
    ensures
        status_named(x) == Some(st) <==> x == status_bytes(st),
        status_named(x) == Some(st) <==> x == status_wire_name(st),
{
    reveal_strlit("idle");
    reveal_strlit("moving");
    reveal_strlit("homing");
    reveal_strlit("not_homed");
    reveal_strlit("homing_az_error");
    reveal_strlit("homing_el_error");
    let idle = status_bytes(DeviceStatus::Idle);
    let moving = status_bytes(DeviceStatus::Moving);
    let homing = status_bytes(DeviceStatus::Homing);
    let not_homed = status_bytes(DeviceStatus::NotHomed);
    let az_error = status_bytes(DeviceStatus::HomingAzError);
    let el_error = status_bytes(DeviceStatus::HomingElError);
    // Names of equal length differ in a byte.
    assert(moving[0] != homing[0]);
    assert(az_error[8] != el_error[8]);
    assert(idle.len() == 4 && moving.len() == 6 && homing.len() == 6);
    assert(not_homed.len() == 9 && az_error.len() == 15 && el_error.len() == 15);
    assert(status_bytes(st) =~= status_wire_name(st));
}

/// Easycomm III: `GS` followed by any non-empty UTF-8 text asks for the status
/// register ([`easycomm_command`] is what the command decoder's
/// `try_parse_easycomm` returns).
pub proof fn lemma_status_register_query(v: Seq<u8>)
    requires
        v.len() > 0,
        valid_utf8(v),
    ensures
        easycomm_command(text("GS") + v) == Some(Command::GetStatusRegister),
{
    reveal_strlit("GS");
    reveal_strlit("RESET");
    reveal_strlit("PARK");
    reveal_strlit("SA SE");
    reveal_strlit("SA");
    reveal_strlit("SE");
    reveal_strlit("VL");
    reveal_strlit("VR");
    reveal_strlit("VU");
    reveal_strlit("VD");
    reveal_strlit("CW");
    reveal_strlit("CR");
    let gs = text("GS");
    let s = gs + v;
    assert(is_ascii(gs));
    lemma_ascii_is_utf8(gs);
    vstd::utf8::valid_utf8_concat(gs, v);
    assert(s[0] == 'G' as u8);
    assert(s[1] == 'S' as u8);
    assert(s.take(2) =~= gs);
    assert(has_prefix(s, gs));
    assert(s != text("RESET") && s != text("PARK") && s != text("SA SE"));
    assert(s != text("SA") && s != text("SE"));
    assert(s.take(2)[0] == s[0]);
    assert(text("VL")[0] == 'V' as u8 && text("VR")[0] == 'V' as u8);
    assert(text("VU")[0] == 'V' as u8 && text("VD")[0] == 'V' as u8);
    assert(!has_prefix(s, text("VL")) && !has_prefix(s, text("VR")));
    assert(!has_prefix(s, text("VU")) && !has_prefix(s, text("VD")));
    assert(!has_prefix(s, text("CW")) && !has_prefix(s, text("CR")));
}

/// A decimal field of a single-axis report: digits `d` read as their value
/// when it fits a `u16`, alone or followed by a `.` and a fraction, which is
/// dropped; an empty field has no value ([`float_u16`] is what the response
/// decoder's `parse_float_u16` returns, so `180.9` reads as 180).
pub proof fn lemma_float_u16(d: Seq<u8>, r: Seq<u8>)
    requires
        d.len() > 0,
        all_digits(d),
        digits_value(d) <= 0xffff,
    ensures
        float_u16(Seq::empty()) is None,
        float_u16(d) == Some(digits_value(d)),
        float_u16(d + seq!['.' as u8] + r) == Some(digits_value(d)),
{
    assert(d[0] != '+' as u8) by {
        assert(is_digit(d[0]));
    }
    assert(strip_plus(d) == d);
    assert forall|i: int| 0 <= i < d.len() implies d[i] != '.' as u8 by {
        assert(is_digit(d[i]));
    }
    lemma_absent_byte(d, '.' as u8, 0);
    lemma_first_index_after(d, '.' as u8, r);
    let s = d + seq!['.' as u8] + r;
    assert(s.take(d.len() as int) =~= d);
}

// ── Incremental parsing ──────────────────────────────────────────────────────

/// Feeding `a` and then `b` is feeding `a + b`.
pub proof fn lemma_parser_run_concat(state: (Seq<u8>, bool), a: Seq<u8>, b: Seq<u8>)
    ensures
        parser_run(state, a + b) == ({
            let (mid, first) = parser_run(state, a);
            let (end, second) = parser_run(mid, b);
            (end, first + second)
        }),
    decreases b.len(),
{
    let (mid, first) = parser_run(state, a);
    if b.len() == 0 {
        assert(a + b =~= a);
        assert(first + Seq::<Result<Response, ParseError>>::empty() =~= first);
    } else {
        lemma_parser_run_concat(state, a, b.drop_last());
        assert((a + b).drop_last() =~= a + b.drop_last());
        assert((a + b).last() == b.last());
        let (end0, second0) = parser_run(mid, b.drop_last());
        let (end, r) = parser_step(end0, b.last());
        match r {
            Some(x) => {
                assert(first + second0.push(x) =~= (first + second0).push(x));
            },
            None => {},
        }
    }
}

/// Bytes other than terminators accumulate while they fit.
proof fn lemma_parser_run_accumulates(pending: Seq<u8>, f: Seq<u8>)
    requires
        forall|i: int| 0 <= i < f.len() ==> !is_line_end(f[i]),
        pending.len() + f.len() <= MAX_FRAME,
    ensures
        parser_run((pending, false), f) == (
            (pending + f, false),
            Seq::<Result<Response, ParseError>>::empty(),
        ),
    decreases f.len(),
{
    if f.len() == 0 {
        assert(pending + f =~= pending);
    } else {
        lemma_parser_run_accumulates(pending, f.drop_last());
        assert((pending + f.drop_last()).push(f.last()) =~= pending + f);
    }
}

/// A fresh [`crate::framing::Parser`] fed one frame — bytes without terminator,
/// at most 64 ([`MAX_FRAME`]) of them, then a terminator — reports exactly the
/// decoding of that frame, terminator included, and is fresh again.
pub proof fn lemma_parser_frame(f: Seq<u8>, term: u8)
    requires
        forall|i: int| 0 <= i < f.len() ==> !is_line_end(f[i]),
        f.len() <= 64,
        is_line_end(term),
    ensures
        parser_run((Seq::empty(), false), f.push(term)) == (
            (Seq::<u8>::empty(), false),
            seq![decoded_response(f.push(term))],
        ),
{
    lemma_parser_run_accumulates(Seq::empty(), f);
    assert(f.push(term).drop_last() =~= f);
    assert(Seq::<u8>::empty() + f =~= f);
}

/// A lone terminator is an empty frame, which is an acknowledgement.
pub proof fn lemma_parser_empty_frame(term: u8)
    requires
        is_line_end(term),
    ensures
        parser_step((Seq::empty(), false), term) == (
            (Seq::<u8>::empty(), false),
            Some(Ok::<Response, ParseError>(Response::Ack)),
        ),
{
    lemma_terminated_frame(Seq::empty(), term);
}

/// A fresh [`crate::framing::Parser`] fed two frames in one slice reports
/// both, in order.
pub proof fn lemma_parser_two_frames(f1: Seq<u8>, t1: u8, f2: Seq<u8>, t2: u8)
    requires
        forall|i: int| 0 <= i < f1.len() ==> !is_line_end(f1[i]),
        forall|i: int| 0 <= i < f2.len() ==> !is_line_end(f2[i]),
        f1.len() <= 64,
        f2.len() <= 64,
        is_line_end(t1),
        is_line_end(t2),
    ensures
        parser_run((Seq::empty(), false), f1.push(t1) + f2.push(t2)) == (
            (Seq::<u8>::empty(), false),
            seq![decoded_response(f1.push(t1)), decoded_response(f2.push(t2))],
        ),
{
    lemma_parser_frame(f1, t1);
    lemma_parser_frame(f2, t2);
    lemma_parser_run_concat((Seq::empty(), false), f1.push(t1), f2.push(t2));
    assert(seq![decoded_response(f1.push(t1))] + seq![decoded_response(f2.push(t2))] =~= seq![
        decoded_response(f1.push(t1)),
        decoded_response(f2.push(t2)),
    ]);
}

/// Bytes of a frame that overran [`MAX_FRAME`]: the overrun is reported once,
/// and the parser discards what follows.
proof fn lemma_parser_run_overlong(f: Seq<u8>)
    requires
        forall|i: int| 0 <= i < f.len() ==> !is_line_end(f[i]),
        f.len() > MAX_FRAME,
    ensures
        parser_run((Seq::empty(), false), f) == (
            (Seq::<u8>::empty(), true),
            seq![Err::<Response, ParseError>(ParseError::UnexpectedEof)],
        ),
    decreases f.len(),
{
    let g = f.drop_last();
    if g.len() == MAX_FRAME {
        lemma_parser_run_accumulates(Seq::empty(), g);
        assert(Seq::<u8>::empty() + g =~= g);
        assert(Seq::<Result<Response, ParseError>>::empty().push(
            Err(ParseError::UnexpectedEof),
        ) =~= seq![Err::<Response, ParseError>(ParseError::UnexpectedEof)]);
    } else {
        lemma_parser_run_overlong(g);
    }
}

/// A fresh [`crate::framing::Parser`] fed a frame longer than 64 bytes
/// reports [`ParseError::UnexpectedEof`] once, discards the rest of the frame,
/// and is fresh again after its terminator.
pub proof fn lemma_parser_overlong(f: Seq<u8>, term: u8)
    requires
        forall|i: int| 0 <= i < f.len() ==> !is_line_end(f[i]),
        f.len() > 64,
        is_line_end(term),
    ensures
        parser_run((Seq::empty(), false), f.push(term)) == (
            (Seq::<u8>::empty(), false),
            seq![Err::<Response, ParseError>(ParseError::UnexpectedEof)],
        ),
{
    lemma_parser_run_overlong(f);
    assert(f.push(term).drop_last() =~= f);
}

/// A fresh host [`crate::framing::Parser`] fed the frame a device writes for a
/// response reports that response, when its angles fit their three-digit
/// fields.
pub proof fn lemma_parser_reads_response(resp: Response)
    requires
        response_fits_frame(resp),
    ensures
        parser_run((Seq::empty(), false), response_frame(resp)) == (
            (Seq::<u8>::empty(), false),
            seq![Ok::<Response, ParseError>(resp)],
        ),
{
    lemma_response_round_trip(resp);
    lemma_response_frame_len(resp);
    let f = response_frame(resp);
    let body = f.drop_last();
    assert(body.push(f.last()) =~= f);
    assert forall|i: int| 0 <= i < body.len() implies !is_line_end(body[i]) by {
        assert(is_printable(body[i]));
    }
    lemma_parser_frame(body, f.last());
}

/// Bytes other than terminators accumulate in a fresh
/// [`crate::framing::CommandParser`] while they fit, and nothing is reported.
proof fn lemma_command_parser_accumulates(f: Seq<u8>)
    requires
        forall|i: int| 0 <= i < f.len() ==> !is_line_end(f[i]),
        f.len() <= MAX_CMD_FRAME,
    ensures
        command_parser_trace((Seq::empty(), false), f) == (
            (f, false),
            Seq::new(f.len(), |i: int| None::<Command>),
        ),
    decreases f.len(),
{
    if f.len() > 0 {
        lemma_command_parser_accumulates(f.drop_last());
        assert(f.drop_last().push(f.last()) =~= f);
        assert(Seq::new(f.drop_last().len(), |i: int| None::<Command>).push(None) =~= Seq::new(
            f.len(),
            |i: int| None::<Command>,
        ));
    } else {
        assert(Seq::new(f.len(), |i: int| None::<Command>) =~= Seq::<Option<Command>>::empty());
    }
}

/// A fresh device-side [`crate::framing::CommandParser`] fed the frame of a
/// command, one byte at a time, reports nothing until the terminator and then
/// that command, when its frame identifies it, and is fresh again.
pub proof fn lemma_command_parser_reads_command(cmd: Command)
    requires
        command_param_error(cmd) is None,
        command_fits_frame(cmd),
    ensures
        ({
            let frame = command_frame(cmd);
            let (state, outs) = command_parser_trace((Seq::empty(), false), frame);
            &&& state == (Seq::<u8>::empty(), false)
            &&& outs.len() == frame.len()
            &&& outs.last() == Some(cmd)
            &&& forall|i: int| 0 <= i < frame.len() - 1 ==> outs[i] is None
        }),
{
    reveal_strlit("\r");
    lemma_command_round_trip(cmd);
    lemma_command_frame_len(cmd);
    let p = command_payload(cmd);
    let frame = command_frame(cmd);
    assert forall|i: int| 0 <= i < p.len() implies !is_line_end(p[i]) by {
        assert(is_printable(p[i]));
    }
    lemma_command_parser_accumulates(p);
    assert(frame.drop_last() =~= p);
    assert(frame.last() == '\r' as u8);
}

/// A fresh [`crate::framing::CommandParser`] fed any frame — at most
/// 32 bytes without terminator, then a terminator — reports
/// nothing for its bytes, then the decoding of the frame (as
/// [`crate::framing::decode_command`] gives it) for the terminator, and is
/// fresh again.
pub proof fn lemma_command_parser_frame(w: Seq<u8>, term: u8)
    requires
        forall|i: int| 0 <= i < w.len() ==> !is_line_end(w[i]),
        w.len() <= 32,
        is_line_end(term),
    ensures
        command_parser_trace((Seq::empty(), false), w.push(term)) == (
            (Seq::<u8>::empty(), false),
            Seq::new(w.len(), |i: int| None::<Command>).push(decoded_command(w)),
        ),
{
    lemma_command_parser_accumulates(w);
    assert(w.push(term).drop_last() =~= w);
}

/// A fresh [`crate::framing::CommandParser`] fed a frame longer than 32 bytes
/// ([`MAX_CMD_FRAME`]) reports nothing for any of its bytes, terminator
/// included, and is fresh again after the terminator.
pub proof fn lemma_command_parser_overlong(f: Seq<u8>, term: u8)
    requires
        forall|i: int| 0 <= i < f.len() ==> !is_line_end(f[i]),
        f.len() > 32,
        is_line_end(term),
    ensures
        command_parser_trace((Seq::empty(), false), f.push(term)) == (
            (Seq::<u8>::empty(), false),
            Seq::new(f.len() + 1, |i: int| None::<Command>),
        ),
{
    lemma_command_parser_run_overlong(f);
    assert(f.push(term).drop_last() =~= f);
    assert(Seq::new(f.len(), |i: int| None::<Command>).push(None) =~= Seq::new(
        f.len() + 1,
        |i: int| None::<Command>,
    ));
}

/// Bytes of a command frame that overran [`MAX_CMD_FRAME`] are discarded
/// without a report.
proof fn lemma_command_parser_run_overlong(f: Seq<u8>)
    requires
        forall|i: int| 0 <= i < f.len() ==> !is_line_end(f[i]),
        f.len() > MAX_CMD_FRAME,
    ensures
        command_parser_trace((Seq::empty(), false), f) == (
            (Seq::<u8>::empty(), true),
            Seq::new(f.len(), |i: int| None::<Command>),
        ),
    decreases f.len(),
{
    let g = f.drop_last();
    if g.len() == MAX_CMD_FRAME {
        lemma_command_parser_accumulates(g);
    } else {
        lemma_command_parser_run_overlong(g);
    }
    assert(Seq::new(g.len(), |i: int| None::<Command>).push(None) =~= Seq::new(
        f.len(),
        |i: int| None::<Command>,
    ));
}

// ── Replies and echoes ───────────────────────────────────────────────────────

/// The first bytes of a frame that a [`ReplyReader`] keeps.
pub open spec fn echo_window(f: Seq<u8>) -> Seq<u8> {
    if f.len() <= ECHO_WINDOW {
        f
    } else {
        f.take(ECHO_WINDOW as int)
    }
}

/// Receiving `a` and then `b` is receiving `a + b`.
pub proof fn lemma_reply_run_concat(
    sent: Seq<u8>,
    seen: Seq<u8>,
    state: (Seq<u8>, bool),
    a: Seq<u8>,
    b: Seq<u8>,
)
    ensures
        reply_run(sent, seen, state, a + b) == ({
            let (s1, p1, first) = reply_run(sent, seen, state, a);
            let (s2, p2, second) = reply_run(sent, s1, p1, b);
            (s2, p2, first + second)
        }),
    decreases b.len(),
{
    let (s1, p1, first) = reply_run(sent, seen, state, a);
    if b.len() == 0 {
        assert(a + b =~= a);
        assert(first + Seq::<Result<Response, ParseError>>::empty() =~= first);
    } else {
        lemma_reply_run_concat(sent, seen, state, a, b.drop_last());
        assert((a + b).drop_last() =~= a + b.drop_last());
        assert((a + b).last() == b.last());
        let (s0, p0, second0) = reply_run(sent, s1, p1, b.drop_last());
        let (s2, p2, r) = reply_step(sent, s0, p0, b.last());
        match r {
            Some(x) => {
                assert(first + second0.push(x) =~= (first + second0).push(x));
            },
            None => {},
        }
    }
}

/// The bytes of a frame, before its terminator, are kept by the reader (as
/// far as its window goes) and by the parser.
proof fn lemma_reply_run_accumulates(sent: Seq<u8>, f: Seq<u8>)
    requires
        forall|i: int| 0 <= i < f.len() ==> !is_line_end(f[i]),
        f.len() <= MAX_FRAME,
    ensures
        reply_run(sent, Seq::empty(), (Seq::empty(), false), f) == (
            echo_window(f),
            (f, false),
            Seq::<Result<Response, ParseError>>::empty(),
        ),
    decreases f.len(),
{
    if f.len() > 0 {
        lemma_reply_run_accumulates(sent, f.drop_last());
        let g = f.drop_last();
        assert(g.push(f.last()) =~= f);
        if f.len() <= ECHO_WINDOW {
            assert(echo_window(g).push(f.last()) =~= f);
        } else if g.len() <= ECHO_WINDOW {
            assert(echo_window(g) =~= f.take(ECHO_WINDOW as int));
        } else {
            assert(echo_window(g) =~= f.take(ECHO_WINDOW as int));
        }
    } else {
        assert(echo_window(f) =~= f);
    }
}

/// One complete frame received by a fresh reader: skipped when its first
/// bytes are the command sent, reported as the decoding of the frame
/// otherwise.
pub proof fn lemma_reply_frame(sent: Seq<u8>, f: Seq<u8>, term: u8)
    requires
        forall|i: int| 0 <= i < f.len() ==> !is_line_end(f[i]),
        f.len() <= MAX_FRAME,
        is_line_end(term),
    ensures
        reply_run(sent, Seq::empty(), (Seq::empty(), false), f.push(term)) == (
            Seq::<u8>::empty(),
            (Seq::<u8>::empty(), false),
            if echo_window(f) == sent {
                Seq::<Result<Response, ParseError>>::empty()
            } else {
                seq![decoded_response(f.push(term))]
            },
        ),
{
    lemma_reply_run_accumulates(sent, f);
    assert(f.push(term).drop_last() =~= f);
}

/// Echo suppression: when the device repeats the command before answering,
/// the echo is skipped and the answer is the reply; without the echo the
/// answer is the reply as well.
pub proof fn lemma_reply_after_echo(cmd: Command, reply: Seq<u8>, t1: u8, t2: u8)
    requires
        command_param_error(cmd) is None,
        forall|i: int| 0 <= i < reply.len() ==> !is_line_end(reply[i]),
        reply.len() <= MAX_FRAME,
        reply != command_payload(cmd),
        is_line_end(t1),
        is_line_end(t2),
    ensures
        reply_run(
            command_payload(cmd),
            Seq::empty(),
            (Seq::empty(), false),
            command_payload(cmd).push(t1) + reply.push(t2),
        ) == (
            Seq::<u8>::empty(),
            (Seq::<u8>::empty(), false),
            seq![decoded_response(reply.push(t2))],
        ),
        reply_run(command_payload(cmd), Seq::empty(), (Seq::empty(), false), reply.push(t2)) == (
            Seq::<u8>::empty(),
            (Seq::<u8>::empty(), false),
            seq![decoded_response(reply.push(t2))],
        ),
{
    let sent = command_payload(cmd);
    lemma_command_frame_len(cmd);
    lemma_command_payload_printable(cmd);
    assert forall|i: int| 0 <= i < sent.len() implies !is_line_end(sent[i]) by {
        assert(is_printable(sent[i]));
    }
    assert(echo_window(sent) == sent);
    lemma_reply_frame(sent, sent, t1);
    lemma_reply_frame(sent, reply, t2);
    if reply.len() > ECHO_WINDOW {
        assert(echo_window(reply).len() != sent.len());
    }
    lemma_reply_run_concat(
        sent,
        Seq::empty(),
        (Seq::empty(), false),
        sent.push(t1),
        reply.push(t2),
    );
    assert(Seq::<Result<Response, ParseError>>::empty() + seq![decoded_response(reply.push(t2))]
        =~= seq![decoded_response(reply.push(t2))]);
}

/// A session that sent a command and receives the device's frame for a
/// response — after an echo of the command or not — gets that response, when
/// its angles fit their fields and its frame is not the command's own.
pub proof fn lemma_reply_to_command(cmd: Command, resp: Response)
    requires
        command_param_error(cmd) is None,
        response_fits_frame(resp),
        response_frame(resp).drop_last() != command_payload(cmd),
    ensures
        reply_run(
            command_payload(cmd),
            Seq::empty(),
            (Seq::empty(), false),
            command_frame(cmd) + response_frame(resp),
        ) == (
            Seq::<u8>::empty(),
            (Seq::<u8>::empty(), false),
            seq![Ok::<Response, ParseError>(resp)],
        ),
        reply_run(
            command_payload(cmd),
            Seq::empty(),
            (Seq::empty(), false),
            response_frame(resp),
        ) == (
            Seq::<u8>::empty(),
            (Seq::<u8>::empty(), false),
            seq![Ok::<Response, ParseError>(resp)],
        ),
{
    reveal_strlit("\r");
    lemma_response_round_trip(resp);
    lemma_response_frame_len(resp);
    let f = response_frame(resp);
    let body = f.drop_last();
    assert(body.push(f.last()) =~= f);
    assert forall|i: int| 0 <= i < body.len() implies !is_line_end(body[i]) by {
        assert(is_printable(body[i]));
    }
    assert(command_frame(cmd) =~= command_payload(cmd).push('\r' as u8));
    lemma_reply_after_echo(cmd, body, '\r' as u8, f.last());
}

// ── Sessions over a byte stream ──────────────────────────────────────────────

/// The calls a session makes to read the bytes `rx`: one one-byte read per
/// byte, each delivering its byte.
pub open spec fn byte_reads<E>(rx: Seq<u8>) -> Seq<Exchange<E>> {
    Seq::new(rx.len(), |i: int| Exchange::Read { capacity: 1, count: Ok(1usize), byte: rx[i] })
}

/// A reply to a send, as [`crate::session::Session::send`] returns it.
pub open spec fn as_send_result<E>(r: Result<Response, ParseError>) -> Result<Response, Error<E>> {
    match r {
        Ok(resp) => Ok(resp),
        Err(e) => Err(Error::Parse(e)),
    }
}

/// `frame` repeated `n` times.
pub open spec fn repeated(frame: Seq<u8>, n: nat) -> Seq<u8>
    decreases n,
{
    if n == 0 {
        Seq::empty()
    } else {
        repeated(frame, (n - 1) as nat) + frame
    }
}

/// Reading bytes that complete no reply leaves the wait open, in the state
/// the reply reader reaches on them.
proof fn lemma_open_byte_reads<E>(sent: Seq<u8>, state: (Seq<u8>, bool), rx: Seq<u8>)
    requires
        reply_run(sent, Seq::empty(), state, rx).2.len() == 0,
    ensures
        open_reads(sent, state, byte_reads::<E>(rx)) == Some(
            (reply_run(sent, Seq::empty(), state, rx).0, reply_run(sent, Seq::empty(), state, rx).1),
        ),
    decreases rx.len(),
{
    if rx.len() > 0 {
        let (s1, p1, outs) = reply_run(sent, Seq::empty(), state, rx.drop_last());
        let (s2, p2, out) = reply_step(sent, s1, p1, rx.last());
        if out is Some {
            assert(outs.push(out->0).len() > 0);
        }
        lemma_open_byte_reads::<E>(sent, state, rx.drop_last());
        assert(byte_reads::<E>(rx).drop_last() =~= byte_reads::<E>(rx.drop_last()));
    }
}

/// Law of [`crate::session::Session::send`] over a byte stream: when the write
/// succeeds and the device's bytes `rx` complete exactly one reply, at their
/// last byte, the send returns that reply (a malformed one as
/// [`Error::Parse`]), after one write of the command's frame and one one-byte
/// read per byte of `rx`, and nothing after.
pub proof fn lemma_send_reads_reply<E>(cmd: Command, state: (Seq<u8>, bool), rx: Seq<u8>)
    requires
        0 < rx.len() <= u64::MAX,
        reply_run(command_payload(cmd), Seq::empty(), state, rx.drop_last()).2.len() == 0,
        reply_run(command_payload(cmd), Seq::empty(), state, rx).2.len() == 1,
    ensures
        ({
            let (_, end, outs) = reply_run(command_payload(cmd), Seq::empty(), state, rx);
            send_outcome(
                cmd,
                state,
                seq![Exchange::Write { frame: command_frame(cmd), outcome: Ok::<(), E>(()) }]
                    + byte_reads::<E>(rx),
            ) == Some((as_send_result::<E>(outs[0]), end))
        }),
{
    let sent = command_payload(cmd);
    let reads = byte_reads::<E>(rx);
    let events = seq![Exchange::Write { frame: command_frame(cmd), outcome: Ok::<(), E>(()) }]
        + reads;
    assert(events.skip(1) =~= reads);
    lemma_open_byte_reads::<E>(sent, state, rx.drop_last());
    assert(reads.drop_last() =~= byte_reads::<E>(rx.drop_last()));
    let (s1, p1, outs1) = reply_run(sent, Seq::empty(), state, rx.drop_last());
    let (s2, p2, out) = reply_step(sent, s1, p1, rx.last());
    assert(out is Some);
    assert(reads.last() == Exchange::Read { capacity: 1, count: Ok::<usize, E>(1usize), byte: rx.last() });
    assert(open_reads(sent, state, reads) is None);
}

/// Echoes of the command, each with a terminator, leave a fresh reader fresh
/// and complete no reply.
proof fn lemma_echoes(cmd: Command, t1: u8, n: nat)
    requires
        command_param_error(cmd) is None,
        is_line_end(t1),
    ensures
        reply_run(
            command_payload(cmd),
            Seq::empty(),
            (Seq::empty(), false),
            repeated(command_payload(cmd).push(t1), n),
        ) == (Seq::<u8>::empty(), (Seq::<u8>::empty(), false), Seq::<Result<Response, ParseError>>::empty()),
    decreases n,
{
    let sent = command_payload(cmd);
    if n > 0 {
        lemma_echoes(cmd, t1, (n - 1) as nat);
        lemma_command_frame_len(cmd);
        lemma_command_payload_printable(cmd);
        assert forall|i: int| 0 <= i < sent.len() implies !is_line_end(sent[i]) by {
            assert(is_printable(sent[i]));
        }
        assert(echo_window(sent) == sent);
        lemma_reply_frame(sent, sent, t1);
        lemma_reply_run_concat(
            sent,
            Seq::empty(),
            (Seq::empty(), false),
            repeated(sent.push(t1), (n - 1) as nat),
            sent.push(t1),
        );
        assert(Seq::<Result<Response, ParseError>>::empty() + Seq::<Result<Response, ParseError>>::empty()
            =~= Seq::<Result<Response, ParseError>>::empty());
    } else {
        assert(repeated(sent.push(t1), n) =~= Seq::<u8>::empty());
    }
}

/// Law of [`crate::session::Session::send`] from a fresh session: when the
/// write succeeds and the device answers with `n` echoes of the command and
/// then a reply frame that is not the command's own, the send returns the
/// decoding of the reply frame and the session is fresh again; it wrote the
/// command's frame once and read one byte at a time, up to the reply's
/// terminator and no further.
pub proof fn lemma_send_after_echoes<E>(cmd: Command, n: nat, t1: u8, reply: Seq<u8>, t2: u8)
    requires
        command_param_error(cmd) is None,
        is_line_end(t1),
        is_line_end(t2),
        forall|i: int| 0 <= i < reply.len() ==> !is_line_end(reply[i]),
        reply.len() <= MAX_FRAME,
        reply != command_payload(cmd),
        repeated(command_payload(cmd).push(t1), n).len() + reply.len() < u64::MAX,
    ensures
        send_outcome(
            cmd,
            (Seq::empty(), false),
            seq![Exchange::Write { frame: command_frame(cmd), outcome: Ok::<(), E>(()) }]
                + byte_reads::<E>(repeated(command_payload(cmd).push(t1), n) + reply.push(t2)),
        ) == Some((as_send_result::<E>(decoded_response(reply.push(t2))), (Seq::<u8>::empty(), false))),
{
    let sent = command_payload(cmd);
    let fresh = (Seq::<u8>::empty(), false);
    let echoes = repeated(sent.push(t1), n);
    let rx = echoes + reply.push(t2);
    lemma_echoes(cmd, t1, n);
    lemma_reply_after_echo(cmd, reply, t1, t2);
    lemma_reply_run_concat(sent, Seq::empty(), fresh, echoes, reply.push(t2));
    lemma_reply_run_accumulates(sent, reply);
    assert(rx.drop_last() =~= echoes + reply);
    lemma_reply_run_concat(sent, Seq::empty(), fresh, echoes, reply);
    assert(Seq::<Result<Response, ParseError>>::empty() + Seq::<Result<Response, ParseError>>::empty()
        =~= Seq::<Result<Response, ParseError>>::empty());
    assert(Seq::<Result<Response, ParseError>>::empty() + seq![decoded_response(reply.push(t2))]
        =~= seq![decoded_response(reply.push(t2))]);
    lemma_send_reads_reply::<E>(cmd, fresh, rx);
}

// ── Laws over the wire text ──────────────────────────────────────────────────

/// The checksum of a byte string is the XOR of all its bytes: nothing for the
/// empty string, a byte for itself, and the XOR of the parts for a
/// concatenation.
pub proof fn lemma_xor_checksum(s: Seq<u8>, t: Seq<u8>, b: u8)
    ensures
        xor_all(Seq::empty()) == 0,
        xor_all(seq![b]) == b,
        xor_all(s.push(b)) == xor_all(s) ^ b,
        xor_all(s + t) == xor_all(s) ^ xor_all(t),
    decreases t.len(),
{
    assert(seq![b].drop_last() =~= Seq::<u8>::empty());
    assert(s.push(b).drop_last() =~= s);
    assert(0u8 ^ b == b) by (bit_vector);
    if t.len() == 0 {
        assert(s + t =~= s);
        let x = xor_all(s);
        assert(x ^ 0u8 == x) by (bit_vector);
    } else {
        lemma_xor_checksum(s, t.drop_last(), b);
        assert((s + t).drop_last() =~= s + t.drop_last());
        assert((s + t).last() == t.last());
        let x = xor_all(s);
        let y = xor_all(t.drop_last());
        let c = t.last();
        assert((x ^ y) ^ c == x ^ (y ^ c)) by (bit_vector);
    }
}

/// The upper-case hexadecimal digit of `v`.
pub open spec fn upper_hex_digit(v: u8) -> u8 {
    if v < 10 {
        (48 + v) as u8
    } else {
        (55 + v) as u8
    }
}

/// The lower-case hexadecimal digit of `v`.
pub open spec fn lower_hex_digit(v: u8) -> u8 {
    if v < 10 {
        (48 + v) as u8
    } else {
        (87 + v) as u8
    }
}

/// Checksum digits: a byte is read as the nibble `v` exactly when it is the
/// hexadecimal digit of `v`, in either case.
pub proof fn lemma_hex_digits(b: u8, v: u8)
    ensures
        hex_value(b) == Some(v) <==> (v < 16 && (b == upper_hex_digit(v) || b
            == lower_hex_digit(v))),
{
}

/// The checksum digits that `encode_with_checksum` writes are the upper-case
/// hexadecimal digits of the checksum's two nibbles.
pub proof fn lemma_checksum_digits(c: u8)
    ensures
        checksum_suffix(c) == seq![
            '*' as u8,
            upper_hex_digit(c / 16),
            upper_hex_digit(c % 16),
        ],
{
    assert(c >> 4 == c / 16 && c & 0x0f == c % 16) by (bit_vector);
}

/// A response frame with a `*` and two hexadecimal digits, of either case,
/// means what the frame without them means when the digits spell the XOR of
/// the payload, and is refused with [`ParseError::BadChecksum`] otherwise.
pub proof fn lemma_response_checksum_digits(payload: Seq<u8>, h: u8, l: u8, term: u8)
    requires
        is_line_end(term),
        forall|i: int| 0 <= i < payload.len() ==> payload[i] != '*' as u8,
        payload.len() > 0 ==> !is_line_end(payload.last()),
        hex_value(h) is Some,
        hex_value(l) is Some,
    ensures
        decoded_response(payload + seq!['*' as u8, h, l] + seq![term]) == (if hex_value(h)->0
            * 16 + hex_value(l)->0 == xor_all(payload) {
            decoded_response(payload.push(term))
        } else {
            Err(ParseError::BadChecksum)
        }),
{
    let t = payload + seq!['*' as u8, h, l];
    let f = t + seq![term];
    assert(f.drop_last() =~= t);
    assert(trim_line_end(f) == trim_line_end(t));
    assert(t.last() == l);
    assert(trim_line_end(t) == t);
    assert(t[payload.len() as int] == '*' as u8);
    assert(last_index_before(t, '*' as u8, t.len() - 2) == Some(payload.len() as int));
    assert(t[payload.len() as int + 1] == h);
    assert(t[payload.len() as int + 2] == l);
    assert(t.take(payload.len() as int) =~= payload);
    let g = payload.push(term);
    assert(g.drop_last() =~= payload);
    if payload.len() > 0 {
        assert(trim_line_end(g) == trim_line_end(payload));
        assert(trim_line_end(payload) == payload);
        lemma_absent_byte(payload, '*' as u8, payload.len() - 2);
    } else {
        reveal_strlit("?");
        assert(trim_line_end(payload) == payload);
        assert(response_payload(payload) == Ok::<Response, ParseError>(Response::Ack));
    }
}

/// A response frame with a checksum written in lower-case digits means what
/// the frame without it means, when the checksum is the XOR of the payload.
pub proof fn lemma_response_checksum_lower_case(payload: Seq<u8>, term: u8)
    requires
        is_line_end(term),
        forall|i: int| 0 <= i < payload.len() ==> payload[i] != '*' as u8,
        payload.len() > 0 ==> !is_line_end(payload.last()),
    ensures
        decoded_response(
            payload + seq![
                '*' as u8,
                lower_hex_digit(xor_all(payload) / 16),
                lower_hex_digit(xor_all(payload) % 16),
            ] + seq![term],
        ) == decoded_response(payload.push(term)),
{
    let c = xor_all(payload);
    let h = lower_hex_digit(c / 16);
    let l = lower_hex_digit(c % 16);
    lemma_hex_digits(h, c / 16);
    lemma_hex_digits(l, c % 16);
    lemma_response_checksum_digits(payload, h, l, term);
}

/// A set command is refused exactly for an azimuth above 360 or an elevation
/// above 180; every other command is accepted.
pub proof fn lemma_param_faults(cmd: Command)
    ensures
        command_param_error(cmd) is Some <==> match cmd {
            Command::Azimuth(az) => az > 360,
            Command::Elevation(el) => el > 180,
            Command::AzimuthElevation { az, el } => az > 360 || el > 180,
            _ => false,
        },
{
}

/// The three ASCII digits at `i` of `f` spell `v`.
pub open spec fn digits_at(f: Seq<u8>, i: int, v: nat) -> bool {
    &&& is_digit(f[i]) && is_digit(f[i + 1]) && is_digit(f[i + 2])
    &&& (f[i] - 48) * 100 + (f[i + 1] - 48) * 10 + (f[i + 2] - 48) == v
}

/// The GS-232 set commands that are accepted are written as their letter,
/// three digits per angle (a space between the two of `W`) and `\r`.
pub proof fn lemma_set_angle_frames(az: u16, el: u16)
    requires
        az <= 360,
        el <= 180,
    ensures
        command_param_error(Command::Azimuth(az)) is None,
        command_param_error(Command::Elevation(el)) is None,
        command_param_error(Command::AzimuthElevation { az, el }) is None,
        ({
            let f = command_frame(Command::Azimuth(az));
            f.len() == 5 && f[0] == 'A' as u8 && digits_at(f, 1, az as nat) && f[4] == 13
        }),
        ({
            let f = command_frame(Command::Elevation(el));
            f.len() == 5 && f[0] == 'E' as u8 && digits_at(f, 1, el as nat) && f[4] == 13
        }),
        ({
            let f = command_frame(Command::AzimuthElevation { az, el });
            &&& f.len() == 9 && f[0] == 'W' as u8 && f[4] == ' ' as u8 && f[8] == 13
            &&& digits_at(f, 1, az as nat) && digits_at(f, 5, el as nat)
        }),
{
    reveal_strlit("A");
    reveal_strlit("E");
    reveal_strlit("W");
    reveal_strlit(" ");
    reveal_strlit("\r");
    lemma_three_digits(az as nat);
    lemma_three_digits(el as nat);
    lemma_digits3(az as nat);
    lemma_digits3(el as nat);
    let ta = three_digits(az as nat);
    let te = three_digits(el as nat);
    let fa = command_frame(Command::Azimuth(az));
    let fe = command_frame(Command::Elevation(el));
    let fw = command_frame(Command::AzimuthElevation { az, el });
    assert(fa =~= text("A") + ta + text("\r"));
    assert(fe =~= text("E") + te + text("\r"));
    assert(fw =~= text("W") + ta + text(" ") + te + text("\r"));
    assert(fa[1] == ta[0] && fa[2] == ta[1] && fa[3] == ta[2]);
    assert(fe[1] == te[0] && fe[2] == te[1] && fe[3] == te[2]);
    assert(fw[1] == ta[0] && fw[2] == ta[1] && fw[3] == ta[2]);
    assert(fw[5] == te[0] && fw[6] == te[1] && fw[7] == te[2]);
}

/// The decimal text of `v`, followed, when `frac` is given, by `.` and the
/// fraction digits `frac`: how Easycomm II writes an angle.
pub open spec fn decimal_text(v: nat, frac: Option<Seq<u8>>) -> Seq<u8> {
    match frac {
        Some(r) => decimal(v) + seq!['.' as u8] + r,
        None => decimal(v),
    }
}

/// An angle written in Easycomm II style: digits and `.`, reading back as the
/// angle.
proof fn lemma_decimal_text(v: nat, frac: Option<Seq<u8>>)
    requires
        v <= 0xffff,
        frac matches Some(r) ==> all_digits(r),
    ensures
        decimal_text(v, frac).len() >= 1,
        float_u16(decimal_text(v, frac)) == Some(v),
        forall|i: int|
            0 <= i < decimal_text(v, frac).len() ==> is_digit(#[trigger] decimal_text(v, frac)[i])
                || decimal_text(v, frac)[i] == '.' as u8,
{
    lemma_decimal(v);
    let d = decimal(v);
    match frac {
        Some(r) => {
            lemma_float_u16(d, r);
            let n = d + seq!['.' as u8] + r;
            assert forall|i: int| 0 <= i < n.len() implies is_digit(#[trigger] n[i]) || n[i]
                == '.' as u8 by {
                if i < d.len() {
                    assert(n[i] == d[i]);
                } else if i > d.len() {
                    assert(n[i] == r[i - d.len() - 1]);
                }
            }
        },
        None => {
            lemma_float_u16(d, Seq::empty());
        },
    }
}

/// A command frame that starts `AZ` or `EL`, is longer than that, and holds
/// no `*` is read by the Easycomm II angle rules.
proof fn lemma_angle_text_command(s: Seq<u8>)
    requires
        s.len() >= 3,
        (s[0] == 'A' as u8 && s[1] == 'Z' as u8) || (s[0] == 'E' as u8 && s[1] == 'L' as u8),
        forall|i: int| 0 <= i < s.len() ==> s[i] != '*' as u8 && #[trigger] s[i] < 128,
    ensures
        decoded_command(s) == crate::framing::easycomm_angle_command(s),
{
    reveal_strlit("C");
    reveal_strlit("S");
    reveal_strlit("?");
    reveal_strlit("GS");
    reveal_strlit("GE");
    reveal_strlit("AZ");
    reveal_strlit("EL");
    reveal_strlit("RESET");
    reveal_strlit("PARK");
    reveal_strlit("SA SE");
    reveal_strlit("SA");
    reveal_strlit("SE");
    reveal_strlit("VL");
    reveal_strlit("VR");
    reveal_strlit("VU");
    reveal_strlit("VD");
    reveal_strlit("CW");
    reveal_strlit("CR");
    lemma_no_checksum(s);
    assert(is_ascii(s));
    lemma_ascii_is_utf8(s);
    assert(s != text("C") && s != text("S") && s != text("?") && s != text("GS"));
    assert(s != text("GE") && s != text("AZ") && s != text("EL"));
    assert(s != text("RESET") && s != text("PARK") && s != text("SA SE"));
    assert(s != text("SA") && s != text("SE"));
    assert(s.take(2)[0] == s[0]);
    assert(text("VL")[0] == 'V' as u8 && text("VR")[0] == 'V' as u8);
    assert(text("VU")[0] == 'V' as u8 && text("VD")[0] == 'V' as u8);
    assert(!has_prefix(s, text("VL")) && !has_prefix(s, text("VR")));
    assert(!has_prefix(s, text("VU")) && !has_prefix(s, text("VD")));
    assert(!has_prefix(s, text("CW")) && !has_prefix(s, text("CR")));
    assert(!has_prefix(s, text("GS")));
    assert(!is_digit(s[1]));
    assert(s.len() == 4 ==> digits3(s[1], s[2], s[3]) is None);
}

/// Easycomm II set azimuth: `AZ` and any azimuth up to 360, with or without a
/// fraction (which is dropped), reads as setting that azimuth.
pub proof fn lemma_easycomm_set_azimuth(az: u16, frac: Option<Seq<u8>>)
    requires
        az <= 360,
        frac matches Some(r) ==> all_digits(r),
    ensures
        decoded_command(text("AZ") + decimal_text(az as nat, frac)) == Some(Command::Azimuth(az)),
{
    reveal_strlit("AZ");
    let n = decimal_text(az as nat, frac);
    lemma_decimal_text(az as nat, frac);
    let s = text("AZ") + n;
    assert(forall|i: int| 0 <= i < n.len() ==> s[i + 2] == n[i]);
    lemma_angle_text_command(s);
    lemma_absent_byte(s, ' ' as u8, 0);
    assert(s.take(2) =~= text("AZ"));
    assert(s.skip(2) =~= n);
}

/// Easycomm II set elevation: `EL` and any elevation up to 180, with or
/// without a fraction (which is dropped), reads as setting that elevation.
pub proof fn lemma_easycomm_set_elevation(el: u16, frac: Option<Seq<u8>>)
    requires
        el <= 180,
        frac matches Some(r) ==> all_digits(r),
    ensures
        decoded_command(text("EL") + decimal_text(el as nat, frac)) == Some(
            Command::Elevation(el),
        ),
{
    reveal_strlit("AZ");
    reveal_strlit("EL");
    let n = decimal_text(el as nat, frac);
    lemma_decimal_text(el as nat, frac);
    let s = text("EL") + n;
    assert(forall|i: int| 0 <= i < n.len() ==> s[i + 2] == n[i]);
    lemma_angle_text_command(s);
    lemma_absent_byte(s, ' ' as u8, 0);
    assert(s.take(2) =~= text("EL"));
    assert(!has_prefix(s, text("AZ")));
    assert(s.skip(2) =~= n);
}

/// Numbers made of digits and `.` around a space, after `AZ` and `EL`, read
/// as the combined set when they fit.
proof fn lemma_both_axes_text(na: Seq<u8>, ne: Seq<u8>, az: u16, el: u16)
    requires
        az <= 360,
        el <= 180,
        float_u16(na) == Some(az as nat),
        float_u16(ne) == Some(el as nat),
        na.len() >= 1,
        forall|i: int| 0 <= i < na.len() ==> is_digit(#[trigger] na[i]) || na[i] == '.' as u8,
        forall|i: int| 0 <= i < ne.len() ==> is_digit(#[trigger] ne[i]) || ne[i] == '.' as u8,
    ensures
        crate::framing::easycomm_angle_command(
            text("AZ") + na + seq![' ' as u8] + text("EL") + ne,
        ) == Some(Command::AzimuthElevation { az, el }),
{
    reveal_strlit("AZ");
    reveal_strlit("EL");
    let left = text("AZ") + na;
    let right = text("EL") + ne;
    let s = left + seq![' ' as u8] + right;
    assert(s =~= text("AZ") + na + seq![' ' as u8] + text("EL") + ne);
    assert forall|i: int| 0 <= i < left.len() implies left[i] != ' ' as u8 by {
        if i >= 2 {
            assert(left[i] == na[i - 2]);
        }
    }
    lemma_first_index_after(left, ' ' as u8, right);
    assert(s.take(left.len() as int) =~= left);
    assert(s.skip(left.len() as int + 1) =~= right);
    assert(left.take(2) =~= text("AZ"));
    assert(right.take(2) =~= text("EL"));
    assert(left.skip(2) =~= na);
    assert(right.skip(2) =~= ne);
}

/// Easycomm II combined set: `AZ<azimuth> EL<elevation>`, for any azimuth up
/// to 360 and elevation up to 180, each with or without a fraction, reads as
/// setting both.
pub proof fn lemma_easycomm_set_both(
    az: u16,
    el: u16,
    az_frac: Option<Seq<u8>>,
    el_frac: Option<Seq<u8>>,
)
    requires
        az <= 360,
        el <= 180,
        az_frac matches Some(r) ==> all_digits(r),
        el_frac matches Some(r) ==> all_digits(r),
    ensures
        decoded_command(
            text("AZ") + decimal_text(az as nat, az_frac) + text(" EL") + decimal_text(
                el as nat,
                el_frac,
            ),
        ) == Some(Command::AzimuthElevation { az, el }),
{
    reveal_strlit("AZ");
    reveal_strlit("EL");
    reveal_strlit(" EL");
    let na = decimal_text(az as nat, az_frac);
    let ne = decimal_text(el as nat, el_frac);
    lemma_decimal_text(az as nat, az_frac);
    lemma_decimal_text(el as nat, el_frac);
    let s = text("AZ") + na + text(" EL") + ne;
    assert(s =~= text("AZ") + na + seq![' ' as u8] + text("EL") + ne);
    assert forall|i: int| 0 <= i < s.len() implies s[i] != '*' as u8 && #[trigger] s[i] < 128 by {
        if 2 <= i < 2 + na.len() {
            assert(s[i] == na[i - 2]);
        } else if i >= na.len() + 5 {
            assert(s[i] == ne[i - na.len() - 5]);
        }
    }
    lemma_angle_text_command(s);
    lemma_both_axes_text(na, ne, az, el);
}

/// Three zero-padded digits spell the lowest three decimal digits of `n`.
proof fn lemma_three_digits_at(n: nat)
    ensures
        three_digits(n).len() == 3,
        digits_at(three_digits(n), 0, n % 1000),
{
    let t = three_digits(n);
    assert(t[0] == (n / 100) % 10 + 48);
    assert(t[1] == (n / 10) % 10 + 48);
    assert(t[2] == n % 10 + 48);
    assert(((n / 100) % 10) * 100 + ((n / 10) % 10) * 10 + n % 10 == n % 1000) by (nonlinear_arith);
}

/// The three digits of `t` copied to `i` of `f` spell there what they spell
/// in `t`.
proof fn lemma_digits_copied(f: Seq<u8>, i: int, t: Seq<u8>, v: nat)
    requires
        t.len() == 3,
        digits_at(t, 0, v),
        0 <= i,
        i + 3 <= f.len(),
        f[i] == t[0] && f[i + 1] == t[1] && f[i + 2] == t[2],
    ensures
        digits_at(f, i, v),
{
}

/// The absolute value of an offset.
pub open spec fn magnitude(v: int) -> nat {
    if v >= 0 {
        v as nat
    } else {
        (-v) as nat
    }
}

/// The wire frame of every command: its letters, its fields (three-digit
/// fields spell the lowest three digits of the angle; offsets carry a `+` or
/// `-` sign), and `\r`.
pub proof fn lemma_command_frames(cmd: Command)
    ensures
        ({
            let f = command_frame(cmd);
            match cmd {
                Command::Azimuth(az) => f.len() == 5 && f[0] == 'A' as u8 && digits_at(
                    f,
                    1,
                    az as nat % 1000,
                ) && f[4] == 13,
                Command::Elevation(el) => f.len() == 5 && f[0] == 'E' as u8 && digits_at(
                    f,
                    1,
                    el as nat % 1000,
                ) && f[4] == 13,
                Command::AzimuthElevation { az, el } => f.len() == 9 && f[0] == 'W' as u8
                    && digits_at(f, 1, az as nat % 1000) && f[4] == ' ' as u8 && digits_at(
                    f,
                    5,
                    el as nat % 1000,
                ) && f[8] == 13,
                Command::Offset { az, el } => f.len() == 10 && f[0] == 'O' as u8 && f[1] == (
                if az >= 0 {
                    '+' as u8
                } else {
                    '-' as u8
                }) && digits_at(f, 2, magnitude(az as int) % 1000) && f[5] == (if el >= 0 {
                    '+' as u8
                } else {
                    '-' as u8
                }) && digits_at(f, 6, magnitude(el as int) % 1000) && f[9] == 13,
                Command::QueryPosition => f == text("C\r"),
                Command::QueryAzimuth => f == text("AZ\r"),
                Command::QueryElevation => f == text("EL\r"),
                Command::QueryStatus => f == text("GS\r"),
                Command::Stop => f == text("S\r"),
                Command::KeepAlive => f == text("?\r"),
                Command::VelocityLeft(v) => f == text("VL") + decimal(v as nat) + text("\r"),
                Command::VelocityRight(v) => f == text("VR") + decimal(v as nat) + text("\r"),
                Command::VelocityUp(v) => f == text("VU") + decimal(v as nat) + text("\r"),
                Command::VelocityDown(v) => f == text("VD") + decimal(v as nat) + text("\r"),
                Command::GetStatusRegister => f == text("GS\r"),
                Command::GetErrorRegister => f == text("GE\r"),
                Command::ReadConfig(r) => f == text("CR") + decimal(r as nat) + text("\r"),
                Command::WriteConfig { register, value } => f == text("CW") + decimal(
                    register as nat,
                ) + text(",") + signed_decimal(value as int) + text("\r"),
                Command::Reset => f == text("RESET\r"),
                Command::Park => f == text("PARK\r"),
            }
        }),
{
    reveal_strlit("A");
    reveal_strlit("E");
    reveal_strlit("W");
    reveal_strlit("O");
    reveal_strlit(" ");
    reveal_strlit("\r");
    reveal_strlit("C");
    reveal_strlit("C\r");
    reveal_strlit("AZ");
    reveal_strlit("AZ\r");
    reveal_strlit("EL");
    reveal_strlit("EL\r");
    reveal_strlit("GS");
    reveal_strlit("GS\r");
    reveal_strlit("GE");
    reveal_strlit("GE\r");
    reveal_strlit("S");
    reveal_strlit("S\r");
    reveal_strlit("?");
    reveal_strlit("?\r");
    reveal_strlit("RESET");
    reveal_strlit("RESET\r");
    reveal_strlit("PARK");
    reveal_strlit("PARK\r");
    let f = command_frame(cmd);
    match cmd {
        Command::Azimuth(a) | Command::Elevation(a) => {
            let t = three_digits(a as nat);
            lemma_three_digits_at(a as nat);
            let l = if cmd is Azimuth {
                text("A")
            } else {
                text("E")
            };
            assert(f =~= l + t + text("\r"));
            lemma_digits_copied(f, 1, t, a as nat % 1000);
        },
        Command::AzimuthElevation { az, el } => {
            let ta = three_digits(az as nat);
            let te = three_digits(el as nat);
            lemma_three_digits_at(az as nat);
            lemma_three_digits_at(el as nat);
            assert(f =~= text("W") + ta + text(" ") + te + text("\r"));
            lemma_digits_copied(f, 1, ta, az as nat % 1000);
            lemma_digits_copied(f, 5, te, el as nat % 1000);
        },
        Command::Offset { az, el } => {
            let ta = three_digits(magnitude(az as int));
            let te = three_digits(magnitude(el as int));
            lemma_three_digits_at(magnitude(az as int));
            lemma_three_digits_at(magnitude(el as int));
            let sa = crate::framing::signed_three_digits(az as int);
            let se = crate::framing::signed_three_digits(el as int);
            assert(sa =~= seq![sa[0]] + ta);
            assert(se =~= seq![se[0]] + te);
            assert(f =~= text("O") + sa + se + text("\r"));
            lemma_digits_copied(f, 2, ta, magnitude(az as int) % 1000);
            lemma_digits_copied(f, 6, te, magnitude(el as int) % 1000);
        },
        Command::QueryPosition => assert(f =~= text("C\r")),
        Command::QueryAzimuth => assert(f =~= text("AZ\r")),
        Command::QueryElevation => assert(f =~= text("EL\r")),
        Command::QueryStatus => assert(f =~= text("GS\r")),
        Command::Stop => assert(f =~= text("S\r")),
        Command::KeepAlive => assert(f =~= text("?\r")),
        Command::GetStatusRegister => assert(f =~= text("GS\r")),
        Command::GetErrorRegister => assert(f =~= text("GE\r")),
        Command::Reset => assert(f =~= text("RESET\r")),
        Command::Park => assert(f =~= text("PARK\r")),
        _ => {},
    }
}

/// The wire name of each device status.
pub open spec fn status_wire_name(st: DeviceStatus) -> Seq<u8> {
    match st {
        DeviceStatus::Idle => text("idle"),
        DeviceStatus::Moving => text("moving"),
        DeviceStatus::Homing => text("homing"),
        DeviceStatus::NotHomed => text("not_homed"),
        DeviceStatus::HomingAzError => text("homing_az_error"),
        DeviceStatus::HomingElError => text("homing_el_error"),
    }
}

/// The wire frame of every response: its labels, its fields (three-digit
/// fields spell the lowest three digits of the angle), and its terminator.
pub proof fn lemma_response_frames(resp: Response)
    ensures
        ({
            let f = response_frame(resp);
            match resp {
                Response::Ack => f == text("+\r"),
                Response::Error => f == text("?\r"),
                Response::Position { az, el } => f.len() == 14 && f.take(3) == text("AZ=")
                    && digits_at(f, 3, az as nat % 1000) && f.subrange(6, 10) == text(" EL=")
                    && digits_at(f, 10, el as nat % 1000) && f[13] == 13,
                Response::AzimuthPosition(az) => f.len() == 8 && f.take(2) == text("AZ")
                    && digits_at(f, 2, az as nat % 1000) && f.skip(5) == text(".0\n"),
                Response::ElevationPosition(el) => f.len() == 8 && f.take(2) == text("EL")
                    && digits_at(f, 2, el as nat % 1000) && f.skip(5) == text(".0\n"),
                Response::Status(st) => f == text("ST=") + status_wire_name(st) + text("\r"),
                Response::StatusRegister(v) => f == text("GS") + decimal(v as nat) + text("\n"),
                Response::ErrorRegister(v) => f == text("GE") + decimal(v as nat) + text("\n"),
                Response::ConfigValue { register, value } => f == text("CR") + decimal(
                    register as nat,
                ) + text(",") + signed_decimal(value as int) + text("\n"),
            }
        }),
{
    reveal_strlit("AZ=");
    reveal_strlit(" EL=");
    reveal_strlit("\r");
    reveal_strlit("AZ");
    reveal_strlit("EL");
    reveal_strlit(".0\n");
    reveal_strlit("idle");
    reveal_strlit("moving");
    reveal_strlit("homing");
    reveal_strlit("not_homed");
    reveal_strlit("homing_az_error");
    reveal_strlit("homing_el_error");
    let f = response_frame(resp);
    match resp {
        Response::Position { az, el } => {
            let ta = three_digits(az as nat);
            let te = three_digits(el as nat);
            lemma_three_digits_at(az as nat);
            lemma_three_digits_at(el as nat);
            assert(f =~= text("AZ=") + ta + text(" EL=") + te + text("\r"));
            assert(f.take(3) =~= text("AZ="));
            assert(f.subrange(6, 10) =~= text(" EL="));
            lemma_digits_copied(f, 3, ta, az as nat % 1000);
            lemma_digits_copied(f, 10, te, el as nat % 1000);
        },
        Response::AzimuthPosition(a) | Response::ElevationPosition(a) => {
            let t = three_digits(a as nat);
            lemma_three_digits_at(a as nat);
            let l = if resp is AzimuthPosition {
                text("AZ")
            } else {
                text("EL")
            };
            assert(f =~= l + t + text(".0\n"));
            assert(f.take(2) =~= l);
            assert(f.skip(5) =~= text(".0\n"));
            lemma_digits_copied(f, 2, t, a as nat % 1000);
        },
        Response::Status(st) => {
            assert(status_bytes(st) =~= status_wire_name(st));
        },
        _ => {},
    }
}

/// An Easycomm II single-axis report: `AZ` or `EL`, an optional `=`, and an
/// angle up to 65535 with or without a fraction (which is dropped), then a
/// terminator, reads as that axis at that angle.
pub proof fn lemma_axis_report(azimuth: bool, v: u16, eq: bool, frac: Option<Seq<u8>>, term: u8)
    requires
        frac matches Some(r) ==> all_digits(r),
        is_line_end(term),
    ensures
        decoded_response(
            (if azimuth {
                text("AZ")
            } else {
                text("EL")
            }) + (if eq {
                seq!['=' as u8]
            } else {
                Seq::empty()
            }) + decimal_text(v as nat, frac) + seq![term],
        ) == Ok::<Response, ParseError>(
            if azimuth {
                Response::AzimuthPosition(v)
            } else {
                Response::ElevationPosition(v)
            },
        ),
{
    reveal_strlit("AZ");
    reveal_strlit("EL");
    reveal_strlit("AZ=");
    reveal_strlit("EL=");
    reveal_strlit("?");
    reveal_strlit("+");
    let label = if azimuth {
        text("AZ")
    } else {
        text("EL")
    };
    let sep = if eq {
        seq!['=' as u8]
    } else {
        Seq::<u8>::empty()
    };
    let n = decimal_text(v as nat, frac);
    lemma_decimal_text(v as nat, frac);
    let rest = sep + n;
    let body = label + rest;
    assert(body + seq![term] =~= label + sep + n + seq![term]);
    assert(body.push(term) =~= body + seq![term]);
    assert forall|i: int| 0 <= i < rest.len() implies is_digit(#[trigger] rest[i]) || rest[i]
        == '.' as u8 || rest[i] == '=' as u8 by {
        if i >= sep.len() {
            assert(rest[i] == n[i - sep.len()]);
        }
    }
    assert forall|i: int| 0 <= i < body.len() implies body[i] != '*' as u8 && #[trigger] body[i]
        < 128 && body[i] != (if azimuth {
        'E' as u8
    } else {
        'A' as u8
    }) by {
        if i >= 2 {
            assert(body[i] == rest[i - 2]);
        }
    }
    assert(!is_line_end(body.last())) by {
        assert(body.last() == rest[rest.len() - 1]);
    }
    lemma_decode_plain(body, term);
    assert(is_ascii(body));
    lemma_ascii_is_utf8(body);
    if azimuth {
        lemma_absent_pattern(body, text("EL="), 0);
    } else {
        lemma_absent_pattern(body, text("AZ="), 0);
    }
    assert(body != text("?") && body != text("+"));
    assert(body.take(2) =~= label);
    assert(body.skip(2) =~= rest);
    if eq {
        assert(rest.skip(1) =~= n);
    } else {
        assert(rest =~= n);
        assert(n[0] != '=' as u8) by {
            assert(is_digit(n[0]) || n[0] == '.' as u8);
        }
    }
    if !azimuth {
        assert(!has_prefix(body, text("AZ"))) by {
            assert(body.take(2)[0] == 'E' as u8);
        }
    }
}

/// The number syntax of the decoders, as `str::parse` has it: one or more
/// digits, leading zeros allowed, with an optional `+` (and, for signed
/// fields, `-`), read as their value when it fits the field, and refused when
/// it does not; an empty field or a lone sign is refused.
pub proof fn lemma_number_syntax(d: Seq<u8>, max: nat)
    requires
        d.len() > 0,
        all_digits(d),
    ensures
        parse_unsigned(d, max) == (if digits_value(d) <= max {
            Some(digits_value(d))
        } else {
            None
        }),
        parse_unsigned(seq!['+' as u8] + d, max) == parse_unsigned(d, max),
        parse_unsigned(Seq::empty(), max) is None,
        parse_unsigned(seq!['+' as u8], max) is None,
        crate::ascii::parse_i32_text(seq!['-' as u8] + d) == (if digits_value(d) <= 0x8000_0000 {
            Some(-(digits_value(d) as int))
        } else {
            None
        }),
        crate::ascii::parse_i32_text(d) == (if digits_value(d) <= 0x7fff_ffff {
            Some(digits_value(d) as int)
        } else {
            None
        }),
{
    assert(is_digit(d[0]));
    assert((seq!['+' as u8] + d).skip(1) =~= d);
    assert((seq!['-' as u8] + d).skip(1) =~= d);
    assert(seq!['+' as u8].skip(1) =~= Seq::<u8>::empty());
}

} // verus!
