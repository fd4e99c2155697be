//! ASCII text on the wire: decimal numbers, searches over byte strings, and
//! the UTF-8 check that the textual frames go through.

use vstd::prelude::*;
use vstd::utf8::valid_utf8;
use vstd::utf8::is_ascii_chars;
use vstd::utf8::encode_utf8;
use vstd::utf8::is_ascii_chars_encode_utf8;
use vstd::utf8::encode_utf8_valid_utf8;

verus! {

// ── Model ────────────────────────────────────────────────────────────────────

/// The bytes of an ASCII string literal.
pub open spec fn text(s: &str) -> Seq<u8> {
    s@.map_values(|c: char| c as u8)
}

/// `s` with `data` written over it from index `pos` on.
pub open spec fn splice(s: Seq<u8>, pos: int, data: Seq<u8>) -> Seq<u8> {
    s.take(pos) + data + s.skip(pos + data.len())
}

/// Frame terminators: carriage return and line feed.
pub open spec fn is_line_end(b: u8) -> bool {
    b == '\r' as u8 || b == '\n' as u8
}

/// A printable ASCII character: space through `~`.
pub open spec fn is_printable(b: u8) -> bool {
    32 <= b < 127
}

/// Every byte is printable ASCII.
pub open spec fn printable(s: Seq<u8>) -> bool {
    forall|i: int| 0 <= i < s.len() ==> is_printable(#[trigger] s[i])
}

/// Every byte is below 0x80.
pub open spec fn is_ascii(s: Seq<u8>) -> bool {
    forall|i: int| 0 <= i < s.len() ==> #[trigger] s[i] < 128
}

/// `p` is a prefix of `s`.
pub open spec fn has_prefix(s: Seq<u8>, p: Seq<u8>) -> bool {
    p.len() <= s.len() && s.take(p.len() as int) == p
}

pub open spec fn is_digit(b: u8) -> bool {
    '0' as u8 <= b <= '9' as u8
}

/// The ASCII character of decimal digit `d` (below 10).
pub open spec fn digit_char(d: nat) -> u8 {
    (d + '0' as u8) as u8
}

pub open spec fn all_digits(s: Seq<u8>) -> bool {
    forall|i: int| 0 <= i < s.len() ==> is_digit(#[trigger] s[i])
}

/// The number that a string of decimal digits denotes.
pub open spec fn digits_value(s: Seq<u8>) -> nat
    decreases s.len(),
{
    if s.len() == 0 {
        0
    } else {
        digits_value(s.drop_last()) * 10 + (s.last() - '0' as u8) as nat
    }
}

/// The shortest decimal rendering of `n` (`"0"` for zero).
pub open spec fn decimal(n: nat) -> Seq<u8>
    decreases n,
{
    if n < 10 {
        seq![digit_char(n)]
    } else {
        decimal(n / 10).push(digit_char(n % 10))
    }
}

/// Decimal rendering of a signed value, with a leading `-` when negative.
pub open spec fn signed_decimal(v: int) -> Seq<u8> {
    if v < 0 {
        seq!['-' as u8] + decimal((-v) as nat)
    } else {
        decimal(v as nat)
    }
}

/// The lowest three decimal digits of `n`, zero-padded.
pub open spec fn three_digits(n: nat) -> Seq<u8> {
    seq![digit_char((n / 100) % 10), digit_char((n / 10) % 10), digit_char(n % 10)]
}

/// A non-empty run of digits whose value does not exceed `max`.
pub open spec fn digits_number(d: Seq<u8>, max: nat) -> Option<nat> {
    if d.len() > 0 && all_digits(d) && digits_value(d) <= max {
        Some(digits_value(d))
    } else {
        None
    }
}

/// `s` without one leading `+`.
pub open spec fn strip_plus(s: Seq<u8>) -> Seq<u8> {
    if s.len() > 0 && s[0] == '+' as u8 {
        s.skip(1)
    } else {
        s
    }
}

/// The unsigned integer syntax that `str::parse` accepts for an unsigned type
/// whose largest value is `max`: an optional `+` followed by one or more decimal
/// digits (leading zeros allowed) denoting a value not above `max`.
pub open spec fn parse_unsigned(s: Seq<u8>, max: nat) -> Option<nat> {
    digits_number(strip_plus(s), max)
}

/// The signed integer syntax that `str::parse::<i32>` accepts: an optional `+` or
/// `-` followed by one or more decimal digits, within the range of `i32`.
pub open spec fn parse_i32_text(s: Seq<u8>) -> Option<int> {
    if s.len() > 0 && s[0] == '-' as u8 {
        match digits_number(s.skip(1), 0x8000_0000) {
            Some(v) => Some(-v),
            None => None,
        }
    } else {
        match parse_unsigned(s, 0x7fff_ffff) {
            Some(v) => Some(v as int),
            None => None,
        }
    }
}

/// Index of the first `b` in `s` at or after `k`.
pub open spec fn index_from(s: Seq<u8>, b: u8, k: int) -> Option<int>
    decreases s.len() - k,
{
    if k < 0 || k >= s.len() {
        None
    } else if s[k] == b {
        Some(k)
    } else {
        index_from(s, b, k + 1)
    }
}

/// Index of the first `b` in `s`.
pub open spec fn first_index(s: Seq<u8>, b: u8) -> Option<int> {
    index_from(s, b, 0)
}

/// Index of the last `b` in `s` strictly before `k`.
pub open spec fn last_index_before(s: Seq<u8>, b: u8, k: int) -> Option<int>
    decreases k,
{
    if k <= 0 {
        None
    } else if k <= s.len() && s[k - 1] == b {
        Some(k - 1)
    } else {
        last_index_before(s, b, k - 1)
    }
}

/// Index of the first occurrence of `pat` in `s` at or after `k`.
pub open spec fn find_from(s: Seq<u8>, pat: Seq<u8>, k: int) -> Option<int>
    decreases s.len() - k,
{
    if k < 0 || k >= s.len() || k + pat.len() > s.len() {
        None
    } else if s.subrange(k, k + pat.len()) == pat {
        Some(k)
    } else {
        find_from(s, pat, k + 1)
    }
}

// ── Lemmas ───────────────────────────────────────────────────────────────────

/// Digits of a decimal rendering, their value, and the rendering's length.
pub proof fn lemma_decimal(n: nat)
    ensures
        decimal(n).len() >= 1,
        all_digits(decimal(n)),
        digits_value(decimal(n)) == n,
        decimal(n)[0] != '+' as u8,
        decimal(n)[0] != '-' as u8,
        n < 10 ==> decimal(n).len() == 1,
        n < 100 ==> decimal(n).len() <= 2,
        n < 1000 ==> decimal(n).len() <= 3,
        n < 10000 ==> decimal(n).len() <= 4,
        n < 100000 ==> decimal(n).len() <= 5,
        n < 1000000 ==> decimal(n).len() <= 6,
        n < 10000000 ==> decimal(n).len() <= 7,
        n < 100000000 ==> decimal(n).len() <= 8,
        n < 1000000000 ==> decimal(n).len() <= 9,
        n < 10000000000 ==> decimal(n).len() <= 10,
    decreases n,
{
    if n >= 10 {
        lemma_decimal(n / 10);
        let d = decimal(n);
        assert(d.drop_last() =~= decimal(n / 10));
        assert(d.last() == digit_char(n % 10));
        assert((d.last() - '0' as u8) as nat == n % 10);
        assert((n / 10) * 10 + n % 10 == n);
        assert(digits_value(d) == digits_value(d.drop_last()) * 10 + (d.last() - '0' as u8) as nat);
        assert forall|i: int| 0 <= i < d.len() implies is_digit(#[trigger] d[i]) by {
            if i < d.len() - 1 {
                assert(d[i] == decimal(n / 10)[i]);
            }
        }
        assert(d[0] == decimal(n / 10)[0]);
    } else {
        assert(decimal(n).drop_last() =~= Seq::<u8>::empty());
        assert(digit_char(n) == n + 48);
        assert(digits_value(Seq::<u8>::empty()) == 0);
        assert(digits_value(decimal(n)) == digits_value(Seq::<u8>::empty()) * 10 + (digit_char(n) - 48) as nat);
    }
}

/// The value of a run of digits is at least the value of any of its prefixes.
pub proof fn lemma_digits_value_prefix(d: Seq<u8>, k: int)
    requires
        all_digits(d),
        0 <= k <= d.len(),
    ensures
        digits_value(d.take(k)) <= digits_value(d),
    decreases d.len(),
{
    if k < d.len() {
        assert(d.drop_last().take(k) =~= d.take(k));
        lemma_digits_value_prefix(d.drop_last(), k);
    } else {
        assert(d.take(k) =~= d);
    }
}

/// Bytes below 0x80 form well-formed UTF-8.
pub proof fn lemma_ascii_is_utf8(s: Seq<u8>)
    requires
        is_ascii(s),
    ensures
        valid_utf8(s),
{
    let chars = s.map_values(|b: u8| b as char);
    assert(is_ascii_chars(chars)) by {
        assert forall|i: int| 0 <= i < chars.len() implies '\0' <= #[trigger] chars[i]
            <= '\u{7f}' by {
            assert(s[i] < 128);
        }
    }
    is_ascii_chars_encode_utf8(chars);
    assert(encode_utf8(chars) =~= s);
    encode_utf8_valid_utf8(chars);
}

/// A decimal rendering is ASCII.
pub proof fn lemma_decimal_ascii(n: nat)
    ensures
        is_ascii(decimal(n)),
        is_ascii(signed_decimal(n as int)),
        is_ascii(signed_decimal(-(n as int))),
{
    lemma_decimal(n);
    let d = decimal(n);
    assert forall|i: int| 0 <= i < d.len() implies #[trigger] d[i] < 128 by {
        assert(is_digit(d[i]));
    }
    let m = seq!['-' as u8] + d;
    assert forall|i: int| 0 <= i < m.len() implies #[trigger] m[i] < 128 by {
        if i > 0 {
            assert(m[i] == d[i - 1]);
        }
    }
}

/// The UTF-8 bytes of an ASCII string are its characters.
pub proof fn lemma_text_bytes(s: &str)
    requires
        is_ascii_chars(s@),
    ensures
        encode_utf8(s@) == text(s),
{
    is_ascii_chars_encode_utf8(s@);
    assert(encode_utf8(s@) =~= text(s));
}

/// Where [`index_from`] finds a byte.
pub proof fn lemma_index_from(s: Seq<u8>, b: u8, k: int)
    ensures
        index_from(s, b, k) matches Some(i) ==> k <= i < s.len() && s[i] == b,
    decreases s.len() - k,
{
    if 0 <= k < s.len() && s[k] != b {
        lemma_index_from(s, b, k + 1);
    }
}

/// Where [`last_index_before`] finds a byte.
pub proof fn lemma_last_index_before(s: Seq<u8>, b: u8, k: int)
    ensures
        last_index_before(s, b, k) matches Some(i) ==> 0 <= i < k && i < s.len() && s[i] == b,
    decreases k,
{
    if k > 0 && !(k <= s.len() && s[k - 1] == b) {
        lemma_last_index_before(s, b, k - 1);
    }
}

/// Where [`find_from`] finds a pattern.
pub proof fn lemma_find_from(s: Seq<u8>, pat: Seq<u8>, k: int)
    ensures
        find_from(s, pat, k) matches Some(i) ==> k <= i && i + pat.len() <= s.len()
            && s.subrange(i, i + pat.len()) == pat,
    decreases s.len() - k,
{
    if !(k < 0 || k >= s.len() || k + pat.len() > s.len()) && s.subrange(k, k + pat.len())
        != pat {
        lemma_find_from(s, pat, k + 1);
    }
}

/// Concatenating ASCII strings gives ASCII.
pub proof fn lemma_ascii_concat(a: Seq<u8>, b: Seq<u8>)
    requires
        is_ascii(a),
        is_ascii(b),
    ensures
        is_ascii(a + b),
{
    assert forall|i: int| 0 <= i < (a + b).len() implies #[trigger] (a + b)[i] < 128 by {
        if i < a.len() {
            assert((a + b)[i] == a[i]);
        } else {
            assert((a + b)[i] == b[i - a.len()]);
        }
    }
}

/// A search that starts on a byte other than the pattern's first moves on.
pub proof fn lemma_find_skip(s: Seq<u8>, pat: Seq<u8>, k: int)
    requires
        0 <= k < s.len(),
        pat.len() > 0,
        s[k] != pat[0],
    ensures
        find_from(s, pat, k) == find_from(s, pat, k + 1),
{
    if k + pat.len() <= s.len() {
        assert(s.subrange(k, k + pat.len())[0] == s[k]);
    }
}

/// Three zero-padded digits of a number below 1000 read back as that number.
pub proof fn lemma_three_digits(n: nat)
    requires
        n < 1000,
    ensures
        three_digits(n).len() == 3,
        all_digits(three_digits(n)),
        is_ascii(three_digits(n)),
        digits_value(three_digits(n)) == n,
        parse_unsigned(three_digits(n), 0xffff) == Some(n),
{
    let t = three_digits(n);
    assert(t[0] == (n / 100) % 10 + 48);
    assert(t[1] == (n / 10) % 10 + 48);
    assert(t[2] == n % 10 + 48);
    assert(digits_value(Seq::<u8>::empty()) == 0);
    assert(t.drop_last().drop_last().drop_last() =~= Seq::<u8>::empty());
    assert(t.drop_last().drop_last() =~= seq![t[0]]);
    assert(t.drop_last() =~= seq![t[0], t[1]]);
    assert(digits_value(seq![t[0]]) == (n / 100) % 10) by {
        assert(seq![t[0]].drop_last() =~= Seq::<u8>::empty());
    }
    assert(digits_value(seq![t[0], t[1]]) == ((n / 100) % 10) * 10 + (n / 10) % 10) by {
        assert(seq![t[0], t[1]].drop_last() =~= seq![t[0]]);
    }
    assert(((n / 100) % 10) * 100 + ((n / 10) % 10) * 10 + n % 10 == n);
    assert(strip_plus(t) == t);
}

/// A decimal rendering reads back as its number.
pub proof fn lemma_decimal_parse(n: nat, max: nat)
    requires
        n <= max,
    ensures
        parse_unsigned(decimal(n), max) == Some(n),
        digits_number(decimal(n), max) == Some(n),
{
    lemma_decimal(n);
}

/// A signed decimal rendering of an `i32` reads back as that value.
pub proof fn lemma_signed_decimal_parse(v: int)
    requires
        -0x8000_0000 <= v <= 0x7fff_ffff,
    ensures
        parse_i32_text(signed_decimal(v)) == Some(v),
{
    if v < 0 {
        lemma_decimal((-v) as nat);
        assert((seq!['-' as u8] + decimal((-v) as nat)).skip(1) =~= decimal((-v) as nat));
    } else {
        lemma_decimal(v as nat);
    }
}

/// A byte absent from `s` is found nowhere in it.
pub proof fn lemma_absent_byte(s: Seq<u8>, b: u8, k: int)
    requires
        forall|i: int| 0 <= i < s.len() ==> s[i] != b,
    ensures
        index_from(s, b, k) is None,
        last_index_before(s, b, k) is None,
{
    lemma_index_from(s, b, k);
    lemma_last_index_before(s, b, k);
}

/// A pattern whose first byte is absent from `s` is found nowhere in it.
pub proof fn lemma_absent_pattern(s: Seq<u8>, pat: Seq<u8>, k: int)
    requires
        pat.len() > 0,
        forall|i: int| 0 <= i < s.len() ==> s[i] != pat[0],
    ensures
        find_from(s, pat, k) is None,
{
    lemma_find_from(s, pat, k);
    if let Some(i) = find_from(s, pat, k) {
        assert(s.subrange(i, i + pat.len())[0] == s[i]);
    }
}

/// The first `b` in `a + [b] + c`, when `a` holds none, is at `a.len()`.
pub proof fn lemma_first_index_after(a: Seq<u8>, b: u8, c: Seq<u8>)
    requires
        forall|i: int| 0 <= i < a.len() ==> a[i] != b,
    ensures
        first_index(a + seq![b] + c, b) == Some(a.len() as int),
{
    let s = a + seq![b] + c;
    assert forall|k: int| 0 <= k <= a.len() implies index_from(s, b, k) == Some(
        a.len() as int,
    ) by {
        lemma_index_from_walk(s, b, k, a.len() as int);
    }
}

/// Searching from `k` skips the bytes before `j` that differ from `b`.
proof fn lemma_index_from_walk(s: Seq<u8>, b: u8, k: int, j: int)
    requires
        0 <= k <= j < s.len(),
        s[j] == b,
        forall|i: int| k <= i < j ==> s[i] != b,
    ensures
        index_from(s, b, k) == Some(j),
    decreases j - k,
{
    if k < j {
        lemma_index_from_walk(s, b, k + 1, j);
    }
}

// ── Operations ───────────────────────────────────────────────────────────────

/// Whether `core::str::from_utf8` accepts `bytes`.
///
/// Trusted: the contract claims that `from_utf8` succeeds exactly on well-formed
/// UTF-8, as its documentation says, with well-formedness as vstd's `valid_utf8`
/// defines it.
#[verifier::external_body]
pub(crate) fn is_utf8(bytes: &[u8]) -> (r: bool)
    ensures
        r == valid_utf8(bytes@),
{
    core::str::from_utf8(bytes).is_ok()
}

/// The digit value of an ASCII decimal digit.
pub(crate) fn ascii_digit(b: u8) -> (r: Option<u8>)
    ensures
        r == (if is_digit(b) { Some((b - '0' as u8) as u8) } else { None::<u8> }),
{
    if '0' as u8 <= b && b <= '9' as u8 {
        Some(b - '0' as u8)
    } else {
        None
    }
}

/// Writes the lowest three decimal digits of `n`, zero-padded, at `buf[pos..]`.
/// Returns `pos + 3`.
pub(crate) fn write_3digits(buf: &mut [u8], pos: usize, n: u16) -> (r: usize)
    requires
        pos + 3 <= old(buf)@.len(),
    ensures
        r == pos + 3,
        final(buf)@ == splice(old(buf)@, pos as int, three_digits(n as nat)),
{
    buf[pos] = '0' as u8 + ((n / 100) % 10) as u8;
    buf[pos + 1] = '0' as u8 + ((n / 10) % 10) as u8;
    buf[pos + 2] = '0' as u8 + (n % 10) as u8;
    assert(final(buf)@ =~= splice(old(buf)@, pos as int, three_digits(n as nat)));
    pos + 3
}

/// Writes the decimal digits of `n` at `buf[pos..]`. Returns the position after them.
pub(crate) fn write_u32(buf: &mut [u8], pos: usize, n: u32) -> (r: usize)
    requires
        pos + decimal(n as nat).len() <= old(buf)@.len(),
    ensures
        r == pos + decimal(n as nat).len(),
        final(buf)@ == splice(old(buf)@, pos as int, decimal(n as nat)),
    decreases n,
{
    if n < 10 {
        buf[pos] = '0' as u8 + n as u8;
        assert(final(buf)@ =~= splice(old(buf)@, pos as int, decimal(n as nat)));
        pos + 1
    } else {
        let ghost before = buf@;
        let p = write_u32(buf, pos, n / 10);
        buf[p] = '0' as u8 + (n % 10) as u8;
        assert(final(buf)@ =~= splice(before, pos as int, decimal(n as nat)));
        p + 1
    }
}

/// Writes `n` in decimal, with a leading `-` when negative, at `buf[pos..]`.
/// Returns the position after it.
pub(crate) fn write_i32(buf: &mut [u8], pos: usize, n: i32) -> (r: usize)
    requires
        pos + signed_decimal(n as int).len() <= old(buf)@.len(),
    ensures
        r == pos + signed_decimal(n as int).len(),
        final(buf)@ == splice(old(buf)@, pos as int, signed_decimal(n as int)),
{
    if n < 0 {
        let magnitude = (-(n as i64)) as u32;
        buf[pos] = '-' as u8;
        let ghost mid = buf@;
        let r = write_u32(buf, pos + 1, magnitude);
        assert(final(buf)@ =~= splice(old(buf)@, pos as int, signed_decimal(n as int)));
        r
    } else {
        write_u32(buf, pos, n as u32)
    }
}

/// The value of the digit run `s[start..]`, if it is non-empty, made of digits
/// only, and not above `max`.
fn parse_digits(s: &[u8], start: usize, max: u64) -> (r: Option<u64>)
    requires
        start <= s@.len(),
        max <= 0x1_0000_0000,
    ensures
        match r {
            Some(v) => digits_number(s@.skip(start as int), max as nat) == Some(v as nat),
            None => digits_number(s@.skip(start as int), max as nat) is None,
        },
{
    let ghost d = s@.skip(start as int);
    if start >= s.len() {
        return None;
    }
    let mut v: u64 = 0;
    let mut i = start;
    while i < s.len()
        invariant
            start <= i <= s@.len(),
            start < s@.len(),
            max <= 0x1_0000_0000,
            d == s@.skip(start as int),
            all_digits(s@.subrange(start as int, i as int)),
            v == digits_value(s@.subrange(start as int, i as int)),
            v <= max,
        decreases s@.len() - i,
    {
        let b = s[i];
        let ghost prefix = s@.subrange(start as int, i as int + 1);
        if b < '0' as u8 || b > '9' as u8 {
            assert(d[i - start] == b);
            return None;
        }
        assert(prefix.drop_last() =~= s@.subrange(start as int, i as int));
        assert(all_digits(prefix)) by {
            assert forall|j: int| 0 <= j < prefix.len() implies is_digit(#[trigger] prefix[j]) by {
                if j < prefix.len() - 1 {
                    assert(prefix[j] == s@.subrange(start as int, i as int)[j]);
                }
            }
        }
        let nv = v * 10 + (b - '0' as u8) as u64;
        if nv > max {
            proof {
                if all_digits(d) {
                    assert(d.take(i - start + 1) =~= prefix);
                    lemma_digits_value_prefix(d, i - start + 1);
                }
            }
            return None;
        }
        v = nv;
        i = i + 1;
    }
    assert(s@.subrange(start as int, i as int) =~= d);
    Some(v)
}

/// Parses `s` with the syntax of [`parse_unsigned`] for a type whose largest
/// value is `max`.
pub(crate) fn parse_unsigned_bytes(s: &[u8], max: u64) -> (r: Option<u64>)
    requires
        max <= 0xffff_ffff,
    ensures
        match r {
            Some(v) => parse_unsigned(s@, max as nat) == Some(v as nat),
            None => parse_unsigned(s@, max as nat) is None,
        },
{
    if s.len() > 0 && s[0] == '+' as u8 {
        parse_digits(s, 1, max)
    } else {
        assert(s@.skip(0) =~= s@);
        parse_digits(s, 0, max)
    }
}

/// Parses a `u16` the way `str::parse::<u16>` does.
pub(crate) fn parse_u16(s: &[u8]) -> (r: Option<u16>)
    ensures
        match r {
            Some(v) => parse_unsigned(s@, 0xffff) == Some(v as nat),
            None => parse_unsigned(s@, 0xffff) is None,
        },
{
    match parse_unsigned_bytes(s, 0xffff) {
        Some(v) => Some(v as u16),
        None => None,
    }
}

/// Parses a `u32` the way `str::parse::<u32>` does.
pub(crate) fn parse_u32(s: &[u8]) -> (r: Option<u32>)
    ensures
        match r {
            Some(v) => parse_unsigned(s@, 0xffff_ffff) == Some(v as nat),
            None => parse_unsigned(s@, 0xffff_ffff) is None,
        },
{
    match parse_unsigned_bytes(s, 0xffff_ffff) {
        Some(v) => Some(v as u32),
        None => None,
    }
}

/// Parses an `i32` the way `str::parse::<i32>` does.
pub(crate) fn parse_i32(s: &[u8]) -> (r: Option<i32>)
    ensures
        match r {
            Some(v) => parse_i32_text(s@) == Some(v as int),
            None => parse_i32_text(s@) is None,
        },
{
    if s.len() > 0 && s[0] == '-' as u8 {
        match parse_digits(s, 1, 0x8000_0000) {
            Some(v) => Some((-(v as i64)) as i32),
            None => None,
        }
    } else {
        match parse_unsigned_bytes(s, 0x7fff_ffff) {
            Some(v) => Some(v as i32),
            None => None,
        }
    }
}

/// Index of the first `b` in `s`.
pub(crate) fn find_byte(s: &[u8], b: u8) -> (r: Option<usize>)
    ensures
        r matches Some(i) ==> i < s@.len() && s@[i as int] == b,
        match r {
            Some(i) => first_index(s@, b) == Some(i as int),
            None => first_index(s@, b) is None,
        },
{
    proof {
        lemma_index_from(s@, b, 0);
    }
    let mut i: usize = 0;
    while i < s.len()
        invariant
            i <= s@.len(),
            first_index(s@, b) == index_from(s@, b, i as int),
        decreases s@.len() - i,
    {
        if s[i] == b {
            return Some(i);
        }
        i = i + 1;
    }
    None
}

/// Index of the last `b` in `s[..k]`.
pub(crate) fn rfind_byte_before(s: &[u8], b: u8, k: usize) -> (r: Option<usize>)
    requires
        k <= s@.len(),
    ensures
        r matches Some(i) ==> i < k && s@[i as int] == b,
        match r {
            Some(i) => last_index_before(s@, b, k as int) == Some(i as int),
            None => last_index_before(s@, b, k as int) is None,
        },
{
    proof {
        lemma_last_index_before(s@, b, k as int);
    }
    let mut j = k;
    while j > 0
        invariant
            j <= k <= s@.len(),
            last_index_before(s@, b, k as int) == last_index_before(s@, b, j as int),
        decreases j,
    {
        if s[j - 1] == b {
            return Some(j - 1);
        }
        j = j - 1;
    }
    None
}

/// Index of the first occurrence of the three bytes `[a, b, c]` in `s`.
pub(crate) fn find_label(s: &[u8], a: u8, b: u8, c: u8) -> (r: Option<usize>)
    ensures
        r matches Some(i) ==> i + 3 <= s@.len(),
        match r {
            Some(i) => find_from(s@, seq![a, b, c], 0) == Some(i as int),
            None => find_from(s@, seq![a, b, c], 0) is None,
        },
{
    let ghost pat = seq![a, b, c];
    proof {
        lemma_find_from(s@, pat, 0);
    }
    let mut i: usize = 0;
    while s.len() >= 3 && i <= s.len() - 3
        invariant
            pat == seq![a, b, c],
            find_from(s@, pat, 0) == find_from(s@, pat, i as int),
        decreases s@.len() - i,
    {
        if s[i] == a && s[i + 1] == b && s[i + 2] == c {
            assert(s@.subrange(i as int, i + 3) =~= pat);
            return Some(i);
        }
        assert(s@.subrange(i as int, i + 3)[0] == s@[i as int]);
        assert(s@.subrange(i as int, i + 3)[1] == s@[i + 1]);
        assert(s@.subrange(i as int, i + 3)[2] == s@[i + 2]);
        i = i + 1;
    }
    None
}

/// Whether `a` and `b` hold the same bytes.
pub(crate) fn bytes_eq(a: &[u8], b: &[u8]) -> (r: bool)
    ensures
        r == (a@ == b@),
{
    if a.len() != b.len() {
        return false;
    }
    let mut i: usize = 0;
    while i < a.len()
        invariant
            i <= a@.len(),
            a@.len() == b@.len(),
            forall|j: int| 0 <= j < i ==> a@[j] == b@[j],
        decreases a@.len() - i,
    {
        if a[i] != b[i] {
            return false;
        }
        i = i + 1;
    }
    assert(a@ =~= b@);
    true
}

/// Whether `s` begins with `p`.
pub(crate) fn starts_with(s: &[u8], p: &[u8]) -> (r: bool)
    ensures
        r == has_prefix(s@, p@),
{
    if p.len() > s.len() {
        return false;
    }
    let head = vstd::slice::slice_subrange(s, 0, p.len());
    assert(head@ == s@.take(p@.len() as int));
    bytes_eq(head, p)
}

} // verus!
