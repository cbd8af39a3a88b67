//! Fields of the text formats: comma-separated fields, unsigned numbers in
//! decimal and hexadecimal, and their formatting, all on ASCII bytes.
use vstd::prelude::*;
use vstd::utf8::{encode_utf8, is_ascii_chars, is_ascii_chars_encode_utf8};

verus! {

pub const COMMA: u8 = 44;

pub open spec fn is_dec_digit(b: u8) -> bool {
    48 <= b <= 57
}

pub open spec fn is_hex_digit(b: u8) -> bool {
    is_dec_digit(b) || (97 <= b <= 102) || (65 <= b <= 70)
}

/// Whether `b` is a digit in base `base` (10 or 16).
pub open spec fn is_digit_in(b: u8, base: nat) -> bool {
    if base == 10 {
        is_dec_digit(b)
    } else {
        is_hex_digit(b)
    }
}

/// The value of a decimal or hexadecimal digit.
pub open spec fn digit_value(b: u8) -> nat {
    if is_dec_digit(b) {
        (b - 48) as nat
    } else if 97 <= b <= 102 {
        (b - 87) as nat
    } else {
        (b - 55) as nat
    }
}

/// The value of the digits `s` in base `base`, most significant first.
pub open spec fn digits_value(s: Seq<u8>, base: nat) -> nat
    decreases s.len(),
{
    if s.len() == 0 {
        0
    } else {
        digits_value(s.drop_last(), base) * base + digit_value(s.last())
    }
}

pub open spec fn all_digits(s: Seq<u8>, base: nat) -> bool {
    forall|i: int| 0 <= i < s.len() ==> is_digit_in(#[trigger] s[i], base)
}

/// The digits of an unsigned number: the text without one leading `+`.
pub open spec fn unsigned_digits(s: Seq<u8>) -> Seq<u8> {
    if s.len() > 0 && s[0] == 43 {
        s.drop_first()
    } else {
        s
    }
}

/// An unsigned number in base `base` no larger than `max`: an optional `+`
/// and at least one digit, nothing else.
pub open spec fn parse_unsigned(s: Seq<u8>, base: nat, max: nat) -> Option<nat> {
    let d = unsigned_digits(s);
    if d.len() > 0 && all_digits(d, base) && digits_value(d, base) <= max {
        Some(digits_value(d, base))
    } else {
        None
    }
}

/// `s` without every leading `0x`.
pub open spec fn strip_hex_prefix(s: Seq<u8>) -> Seq<u8>
    decreases s.len(),
{
    if s.len() >= 2 && s[0] == 48 && s[1] == 120 {
        strip_hex_prefix(s.subrange(2, s.len() as int))
    } else {
        s
    }
}

/// A 64-bit address: hexadecimal digits after any leading `0x`.
pub open spec fn parse_address(s: Seq<u8>) -> Option<nat> {
    parse_unsigned(strip_hex_prefix(s), 16, u64::MAX as nat)
}

/// The positions of the commas in `s`, in increasing order.
pub open spec fn comma_positions(s: Seq<u8>) -> Seq<int>
    decreases s.len(),
{
    if s.len() == 0 {
        seq![]
    } else if s.last() == COMMA {
        comma_positions(s.drop_last()).push(s.len() - 1)
    } else {
        comma_positions(s.drop_last())
    }
}

/// The number of comma-separated fields of `s`.
pub open spec fn field_count(s: Seq<u8>) -> nat {
    comma_positions(s).len() + 1
}

/// The `k`-th comma-separated field of `s`.
pub open spec fn field(s: Seq<u8>, k: int) -> Seq<u8> {
    let c = comma_positions(s);
    let start = if k == 0 {
        0
    } else {
        c[k - 1] + 1
    };
    let end = if k == c.len() {
        s.len() as int
    } else {
        c[k]
    };
    s.subrange(start, end)
}

/// The decimal digits of `n`, without leading zeros.
pub open spec fn dec_digits(n: nat) -> Seq<u8>
    decreases n,
{
    if n < 10 {
        seq![(48 + n) as u8]
    } else {
        dec_digits(n / 10).push((48 + n % 10) as u8)
    }
}

/// The lower-case hexadecimal digit of `d < 16`.
pub open spec fn hex_char(d: nat) -> u8 {
    if d < 10 {
        (48 + d) as u8
    } else {
        (87 + d) as u8
    }
}

/// The last `k` hexadecimal digits of `n`, lower case, with leading zeros.
pub open spec fn hex_fixed(n: nat, k: nat) -> Seq<u8>
    decreases k,
{
    if k == 0 {
        seq![]
    } else {
        hex_fixed(n / 16, (k - 1) as nat).push(hex_char(n % 16))
    }
}

/// The characters of ASCII bytes.
pub open spec fn ascii_chars(b: Seq<u8>) -> Seq<char> {
    b.map_values(|x: u8| x as char)
}

/// Whether `c` has the Unicode White_Space property.
pub open spec fn is_whitespace(c: char) -> bool {
    ('\u{9}' <= c <= '\u{d}') || c == ' ' || c == '\u{85}' || c == '\u{a0}' || c == '\u{1680}'
        || ('\u{2000}' <= c <= '\u{200a}') || c == '\u{2028}' || c == '\u{2029}' || c
        == '\u{202f}' || c == '\u{205f}' || c == '\u{3000}'
}

pub open spec fn trim_start_ws(s: Seq<char>) -> Seq<char>
    decreases s.len(),
{
    if s.len() > 0 && is_whitespace(s[0]) {
        trim_start_ws(s.drop_first())
    } else {
        s
    }
}

pub open spec fn trim_end_ws(s: Seq<char>) -> Seq<char>
    decreases s.len(),
{
    if s.len() > 0 && is_whitespace(s.last()) {
        trim_end_ws(s.drop_last())
    } else {
        s
    }
}

/// `s` without leading and trailing white space.
pub open spec fn trim_ws(s: Seq<char>) -> Seq<char> {
    trim_end_ws(trim_start_ws(s))
}

/// The bytes of a text line as the record parsers read it: trimmed, in UTF-8.
pub open spec fn line_bytes(s: Seq<char>) -> Seq<u8> {
    encode_utf8(trim_ws(s))
}

/// Relies on `str::trim`: strips the leading and trailing characters with
/// the White_Space property.
#[verifier::external_body]
fn trim(s: &str) -> (r: &str)
    ensures
        r@ == trim_ws(s@),
{
    s.trim()
}

/// The trimmed line `s` as UTF-8 bytes.
pub fn trimmed_bytes(s: &str) -> (r: &[u8])
    ensures
        r@ == line_bytes(s@),
{
    trim(s).as_bytes()
}

/// Relies on `String::from_utf8`: ASCII bytes are valid UTF-8 and decode to
/// the characters with the same codes.
#[verifier::external_body]
fn ascii_string(bytes: Vec<u8>) -> (r: String)
    requires
        forall|i: int| 0 <= i < bytes@.len() ==> bytes@[i] < 128,
    ensures
        r@ == ascii_chars(bytes@),
{
    String::from_utf8(bytes).unwrap_or_default()
}

/// The ASCII text `bytes` as a `String`.
pub fn string_of_ascii(bytes: Vec<u8>) -> (r: String)
    requires
        forall|i: int| 0 <= i < bytes@.len() ==> bytes@[i] < 128,
    ensures
        r@ == ascii_chars(bytes@),
{
    ascii_string(bytes)
}

/// The value of digit byte `b`, which is a digit in `base`.
fn digit_of(b: u8, base: u64) -> (r: Option<u64>)
    requires
        base == 10 || base == 16,
    ensures
        r == (if is_digit_in(b, base as nat) {
            Some(digit_value(b) as u64)
        } else {
            None::<u64>
        }),
        r is Some ==> r->0 < base,
{
    if 48 <= b && b <= 57 {
        Some((b - 48) as u64)
    } else if base == 16 && 97 <= b && b <= 102 {
        Some((b - 87) as u64)
    } else if base == 16 && 65 <= b && b <= 70 {
        Some((b - 55) as u64)
    } else {
        None
    }
}

proof fn lemma_digits_value_prefix(s: Seq<u8>, base: nat, j: int)
    requires
        base >= 1,
        0 <= j <= s.len(),
    ensures
        digits_value(s.take(j), base) <= digits_value(s, base),
    decreases s.len(),
{
    if j < s.len() {
        lemma_digits_value_prefix(s.drop_last(), base, j);
        assert(s.drop_last().take(j) =~= s.take(j));
        assert(digits_value(s.drop_last(), base) <= digits_value(s.drop_last(), base) * base)
            by (nonlinear_arith)
            requires
                base >= 1,
        ;
    } else {
        assert(s.take(j) =~= s);
    }
}

/// Parses `b[start..end]` as an unsigned number in base `base` no larger
/// than `max`.
pub fn parse_unsigned_at(b: &[u8], start: usize, end: usize, base: u64, max: u64) -> (r: Option<
    u64,
>)
    requires
        start <= end <= b@.len(),
        base == 10 || base == 16,
    ensures
        r == (match parse_unsigned(b@.subrange(start as int, end as int), base as nat, max as nat) {
            Some(v) => Some(v as u64),
            None => None::<u64>,
        }),
{
    let ghost s = b@.subrange(start as int, end as int);
    let mut i = start;
    if i < end && b[i] == 43 {
        i += 1;
    }
    let ghost d = unsigned_digits(s);
    assert(d =~= b@.subrange(i as int, end as int));
    if i == end {
        return None;
    }
    let first = i;
    let mut v: u64 = 0;
    while i < end
        invariant
            first <= i <= end <= b@.len(),
            d =~= b@.subrange(first as int, end as int),
            d == unsigned_digits(s),
            s == b@.subrange(start as int, end as int),
            all_digits(d.take(i - first), base as nat),
            v == digits_value(d.take(i - first), base as nat),
            v <= max,
            base == 10 || base == 16,
        decreases end - i,
    {
        let ghost k = i - first;
        assert(d.take(k + 1).drop_last() =~= d.take(k));
        assert(d.take(k + 1).last() == b@[i as int]);
        match digit_of(b[i], base) {
            None => {
                assert(d[k] == b@[i as int]);
                assert(!is_digit_in(d[k], base as nat));
                assert(!all_digits(d, base as nat));
                return None;
            },
            Some(dig) => {
                assert(d[k] == b@[i as int]);
                if dig > max || v > (max - dig) / base {
                    proof {
                        let (vi, bi, di, mi) = (v as int, base as int, dig as int, max as int);
                        assert(vi * bi + di > mi) by (nonlinear_arith)
                            requires
                                vi > (mi - di) / bi || di > mi,
                                bi > 0,
                                vi >= 0,
                        ;
                        assert(digits_value(d.take(k + 1), base as nat) == v * base + dig);
                        if all_digits(d, base as nat) {
                            lemma_digits_value_prefix(d, base as nat, k + 1);
                        }
                    }
                    return None;
                }
                proof {
                    let (vi, bi, di, mi) = (v as int, base as int, dig as int, max as int);
                    assert(vi * bi + di <= mi) by (nonlinear_arith)
                        requires
                            vi <= (mi - di) / bi,
                            bi > 0,
                            di <= mi,
                            0 <= vi,
                    ;
                }
                v = v * base + dig;
                i += 1;
            },
        }
    }
    assert(d.take(i - first) =~= d);
    Some(v)
}

/// Whether `b[start..end]` is exactly the single byte `c`.
pub fn field_is(b: &[u8], start: usize, end: usize, c: u8) -> (r: bool)
    requires
        start <= end <= b@.len(),
    ensures
        r == (b@.subrange(start as int, end as int) == seq![c]),
{
    let r = end > start && end - start == 1 && b[start] == c;
    proof {
        if r {
            assert(b@.subrange(start as int, end as int) =~= seq![c]);
        } else if b@.subrange(start as int, end as int) == seq![c] {
            assert(b@.subrange(start as int, end as int).len() == end - start);
            assert(b@.subrange(start as int, end as int)[0] == c);
        }
    }
    r
}

/// The start of `b[start..end]` after every leading `0x`.
fn skip_hex_prefix(b: &[u8], start: usize, end: usize) -> (r: usize)
    requires
        start <= end <= b@.len(),
    ensures
        start <= r <= end,
        b@.subrange(r as int, end as int) == strip_hex_prefix(
            b@.subrange(start as int, end as int),
        ),
{
    let mut i = start;
    while end - i >= 2 && b[i] == 48 && b[i + 1] == 120
        invariant
            start <= i <= end <= b@.len(),
            strip_hex_prefix(b@.subrange(i as int, end as int)) == strip_hex_prefix(
                b@.subrange(start as int, end as int),
            ),
        decreases end - i,
    {
        assert(b@.subrange(i as int, end as int).subrange(2, end - i) =~= b@.subrange(
            i + 2,
            end as int,
        ));
        i += 2;
    }
    i
}

/// Parses `b[start..end]` as a 64-bit address.
pub fn parse_address_at(b: &[u8], start: usize, end: usize) -> (r: Option<u64>)
    requires
        start <= end <= b@.len(),
    ensures
        r == (match parse_address(b@.subrange(start as int, end as int)) {
            Some(v) => Some(v as u64),
            None => None::<u64>,
        }),
{
    let s = skip_hex_prefix(b, start, end);
    parse_unsigned_at(b, s, end, 16, u64::MAX)
}

/// The positions of the commas of `b`.
pub fn find_commas(b: &[u8]) -> (r: Vec<usize>)
    ensures
        r@.len() == comma_positions(b@).len(),
        forall|k: int| 0 <= k < r@.len() ==> r@[k] as int == #[trigger] comma_positions(b@)[k],
{
    let mut r: Vec<usize> = Vec::new();
    let mut i: usize = 0;
    while i < b.len()
        invariant
            i <= b@.len(),
            r@.len() == comma_positions(b@.take(i as int)).len(),
            forall|k: int|
                0 <= k < r@.len() ==> r@[k] as int == #[trigger] comma_positions(
                    b@.take(i as int),
                )[k],
        decreases b@.len() - i,
    {
        assert(b@.take(i + 1).drop_last() =~= b@.take(i as int));
        if b[i] == COMMA {
            r.push(i);
        }
        i += 1;
    }
    assert(b@.take(i as int) =~= b@);
    r
}

/// The commas of `s` stand at increasing positions inside it.
pub proof fn lemma_comma_positions(s: Seq<u8>)
    ensures
        forall|k: int|
            0 <= k < comma_positions(s).len() ==> 0 <= #[trigger] comma_positions(s)[k] < s.len()
                && s[comma_positions(s)[k]] == COMMA,
        forall|k: int|
            0 <= k < comma_positions(s).len() - 1 ==> #[trigger] comma_positions(s)[k]
                < comma_positions(s)[k + 1],
    decreases s.len(),
{
    if s.len() > 0 {
        let p = s.drop_last();
        lemma_comma_positions(p);
        let cp = comma_positions(p);
        assert forall|k: int| 0 <= k < cp.len() implies 0 <= #[trigger] cp[k] < s.len() - 1
            && s[cp[k]] == COMMA by {
            assert(p[cp[k]] == COMMA);
        }
    }
}

/// Appends the decimal digits of `n` to `out`.
pub fn push_decimal(out: &mut Vec<u8>, n: u64)
    ensures
        final(out)@ == old(out)@ + dec_digits(n as nat),
    decreases n,
{
    if n >= 10 {
        push_decimal(out, n / 10);
    }
    out.push(48 + (n % 10) as u8);
    proof {
        if n >= 10 {
            assert(final(out)@ =~= old(out)@ + dec_digits(n as nat));
        } else {
            assert(final(out)@ =~= old(out)@ + dec_digits(n as nat));
        }
    }
}

/// Appends the last `k` hexadecimal digits of `n` to `out`.
pub fn push_hex_fixed(out: &mut Vec<u8>, n: u64, k: u64)
    ensures
        final(out)@ == old(out)@ + hex_fixed(n as nat, k as nat),
    decreases k,
{
    if k > 0 {
        push_hex_fixed(out, n / 16, k - 1);
        let d = (n % 16) as u8;
        if d < 10 {
            out.push(48 + d);
        } else {
            out.push(87 + d);
        }
        assert(final(out)@ =~= old(out)@ + hex_fixed(n as nat, k as nat));
    } else {
        assert(final(out)@ =~= old(out)@ + hex_fixed(n as nat, k as nat));
    }
}

/// The decimal digits of `n` are digits, and read back as `n`.
pub proof fn lemma_dec_digits(n: nat)
    ensures
        dec_digits(n).len() > 0,
        all_digits(dec_digits(n), 10),
        digits_value(dec_digits(n), 10) == n,
        dec_digits(n)[0] != 43,
    decreases n,
{
    if n >= 10 {
        lemma_dec_digits(n / 10);
        assert(dec_digits(n).drop_last() =~= dec_digits(n / 10));
        vstd::arithmetic::div_mod::lemma_fundamental_div_mod(n as int, 10);
        assert(digit_value((48 + n % 10) as u8) == n % 10);
        assert(dec_digits(n).last() == (48 + n % 10) as u8);
        assert(digits_value(dec_digits(n), 10) == digits_value(dec_digits(n / 10), 10) * 10 + n % 10);
    } else {
        assert(dec_digits(n).drop_last() =~= Seq::<u8>::empty());
        assert(digits_value(Seq::<u8>::empty(), 10) == 0);
        assert(dec_digits(n).last() == (48 + n) as u8);
        assert(digit_value((48 + n) as u8) == n);
    }
}

pub open spec fn pow16(k: nat) -> nat
    decreases k,
{
    if k == 0 {
        1
    } else {
        16 * pow16((k - 1) as nat)
    }
}

/// Fixed-width hexadecimal digits are lower-case digits and read back as the
/// number when it fits in them.
pub proof fn lemma_hex_fixed(n: nat, k: nat)
    requires
        n < pow16(k),
    ensures
        hex_fixed(n, k).len() == k,
        forall|i: int|
            0 <= i < k ==> is_hex_digit(#[trigger] hex_fixed(n, k)[i]) && hex_fixed(n, k)[i] != 120
                && hex_fixed(n, k)[i] != 43 && hex_fixed(n, k)[i] != COMMA,
        digits_value(hex_fixed(n, k), 16) == n,
    decreases k,
{
    if k > 0 {
        assert(n / 16 < pow16((k - 1) as nat)) by {
            vstd::arithmetic::div_mod::lemma_div_by_multiple_is_strongly_ordered(
                n as int,
                pow16(k) as int,
                pow16((k - 1) as nat) as int,
                16,
            );
        }
        lemma_hex_fixed(n / 16, (k - 1) as nat);
        assert(hex_fixed(n, k).drop_last() =~= hex_fixed(n / 16, (k - 1) as nat));
        vstd::arithmetic::div_mod::lemma_fundamental_div_mod(n as int, 16);
    }
}

/// Trimming a text that neither starts nor ends with white space keeps it.
pub proof fn lemma_trim_keeps(s: Seq<char>)
    requires
        s.len() > 0,
        !is_whitespace(s[0]),
        !is_whitespace(s.last()),
    ensures
        trim_ws(s) == s,
{
}

/// The line bytes of ASCII text without white space at its ends are its bytes.
pub proof fn lemma_line_bytes_ascii(b: Seq<u8>)
    requires
        b.len() > 0,
        forall|i: int| 0 <= i < b.len() ==> b[i] < 128,
        !is_whitespace(b[0] as char),
        !is_whitespace(b.last() as char),
    ensures
        line_bytes(ascii_chars(b)) == b,
{
    let c = ascii_chars(b);
    lemma_trim_keeps(c);
    assert(is_ascii_chars(c));
    is_ascii_chars_encode_utf8(c);
    assert(encode_utf8(c) =~= b);
}

} // verus!
