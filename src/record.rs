//! The access record: its fixed-width binary layout and its text form.
use vstd::prelude::*;
use crate::text::{
    all_digits, ascii_chars, comma_positions, dec_digits, field, field_count,
    find_commas, hex_fixed, is_hex_digit, lemma_comma_positions, lemma_dec_digits, lemma_hex_fixed,
    lemma_line_bytes_ascii, line_bytes, parse_address, parse_address_at, parse_unsigned,
    parse_unsigned_at, pow16, push_decimal, push_hex_fixed, strip_hex_prefix, string_of_ascii,
    trimmed_bytes, unsigned_digits, COMMA,
};

verus! {

/// Bytes of a record in the binary layout.
pub const RECORD_SIZE: usize = 24;

/// One memory access: the retired-instruction count at the access, the CPU,
/// whether it is a store (1) or a load (0), its width as a power-of-two shift
/// (`1 << size` bytes), and the byte address.
#[derive(Clone, Copy, Debug, PartialEq, Eq, Structural)]
pub struct LogRecord {
    pub insn_count: u64,
    pub cpu: u8,
    pub store: u8,
    pub size: u8,
    pub address: u64,
}

/// Why a text record was rejected.
#[derive(Clone, Copy, Debug, PartialEq, Eq, Structural)]
pub enum RecordError {
    /// The record does not have the expected number of comma-separated fields.
    FieldCount,
    /// A field is not a number of the expected kind and range.
    BadField,
}

/// The little-endian bytes of `x`.
pub open spec fn le_bytes(x: u64) -> Seq<u8> {
    seq![
        x as u8,
        (x >> 8u64) as u8,
        (x >> 16u64) as u8,
        (x >> 24u64) as u8,
        (x >> 32u64) as u8,
        (x >> 40u64) as u8,
        (x >> 48u64) as u8,
        (x >> 56u64) as u8,
    ]
}

/// The little-endian number in `b[at..at + 8]`.
pub open spec fn le_value(b: Seq<u8>, at: int) -> u64 {
    (b[at] as u64) | ((b[at + 1] as u64) << 8u64) | ((b[at + 2] as u64) << 16u64) | ((b[at + 3] as u64)
        << 24u64) | ((b[at + 4] as u64) << 32u64) | ((b[at + 5] as u64) << 40u64) | ((b[at
        + 6] as u64) << 48u64) | ((b[at + 7] as u64) << 56u64)
}

/// The binary layout: the instruction count in bytes 0..8, the CPU, store
/// flag and size class in bytes 8, 9 and 10, five zero bytes of padding,
/// and the address in bytes 16..24; numbers little-endian.
pub open spec fn record_bytes(r: LogRecord) -> Seq<u8> {
    le_bytes(r.insn_count) + seq![r.cpu, r.store, r.size, 0u8, 0u8, 0u8, 0u8, 0u8] + le_bytes(
        r.address,
    )
}

/// The record that the 24 bytes `b` hold; the padding is not read.
pub open spec fn record_of_bytes(b: Seq<u8>) -> LogRecord {
    LogRecord {
        insn_count: le_value(b, 0),
        cpu: b[8],
        store: b[9],
        size: b[10],
        address: le_value(b, 16),
    }
}

/// The fields `fs` joined with commas.
pub open spec fn join_fields(fs: Seq<Seq<u8>>) -> Seq<u8>
    decreases fs.len(),
{
    if fs.len() <= 1 {
        if fs.len() == 1 {
            fs[0]
        } else {
            seq![]
        }
    } else {
        join_fields(fs.drop_last()) + seq![COMMA] + fs.last()
    }
}

/// `0x` and the sixteen lower-case hexadecimal digits of `a`.
pub open spec fn address_text(a: u64) -> Seq<u8> {
    seq![48u8, 120u8] + hex_fixed(a as nat, 16)
}

/// The text form: `insn_count,cpu,store,size,0x<address:016x>`.
pub open spec fn record_text(r: LogRecord) -> Seq<u8> {
    join_fields(
        seq![
            dec_digits(r.insn_count as nat),
            dec_digits(r.cpu as nat),
            dec_digits(r.store as nat),
            dec_digits(r.size as nat),
            address_text(r.address),
        ],
    )
}

/// What the text record `b` (trimmed) denotes: five comma-separated fields,
/// four decimal numbers that fit their fields' types and an address.
pub open spec fn parse_record_text(b: Seq<u8>) -> Result<LogRecord, RecordError> {
    if field_count(b) != 5 {
        Err(RecordError::FieldCount)
    } else {
        match (
            parse_unsigned(field(b, 0), 10, u64::MAX as nat),
            parse_unsigned(field(b, 1), 10, u8::MAX as nat),
            parse_unsigned(field(b, 2), 10, u8::MAX as nat),
            parse_unsigned(field(b, 3), 10, u8::MAX as nat),
            parse_address(field(b, 4)),
        ) {
            (Some(i), Some(c), Some(st), Some(sz), Some(a)) => Ok(
                LogRecord {
                    insn_count: i as u64,
                    cpu: c as u8,
                    store: st as u8,
                    size: sz as u8,
                    address: a as u64,
                },
            ),
            _ => Err(RecordError::BadField),
        }
    }
}

fn write_le(buffer: &mut [u8; RECORD_SIZE], at: usize, x: u64)
    requires
        at + 8 <= 24,
    ensures
        forall|i: int|
            0 <= i < 24 ==> final(buffer)@[i] == if at <= i < at + 8 {
                le_bytes(x)[i - at]
            } else {
                old(buffer)@[i]
            },
{
    buffer[at] = x as u8;
    buffer[at + 1] = (x >> 8u64) as u8;
    buffer[at + 2] = (x >> 16u64) as u8;
    buffer[at + 3] = (x >> 24u64) as u8;
    buffer[at + 4] = (x >> 32u64) as u8;
    buffer[at + 5] = (x >> 40u64) as u8;
    buffer[at + 6] = (x >> 48u64) as u8;
    buffer[at + 7] = (x >> 56u64) as u8;
}

fn read_le(buffer: &[u8; RECORD_SIZE], at: usize) -> (r: u64)
    requires
        at + 8 <= 24,
    ensures
        r == le_value(buffer@, at as int),
{
    (buffer[at] as u64) | ((buffer[at + 1] as u64) << 8u64) | ((buffer[at + 2] as u64) << 16u64)
        | ((buffer[at + 3] as u64) << 24u64) | ((buffer[at + 4] as u64) << 32u64) | ((buffer[at
        + 5] as u64) << 40u64) | ((buffer[at + 6] as u64) << 48u64) | ((buffer[at + 7] as u64)
        << 56u64)
}

/// Reading back the little-endian bytes of a number gives the number.
pub proof fn lemma_le_round_trip(x: u64)
    ensures
        le_value(le_bytes(x), 0) == x,
{
    let b = le_bytes(x);
    assert(((x as u8) as u64) | ((((x >> 8u64) as u8) as u64) << 8u64) | ((((x >> 16u64) as u8)
        as u64) << 16u64) | ((((x >> 24u64) as u8) as u64) << 24u64) | ((((x >> 32u64) as u8)
        as u64) << 32u64) | ((((x >> 40u64) as u8) as u64) << 40u64) | ((((x >> 48u64) as u8)
        as u64) << 48u64) | ((((x >> 56u64) as u8) as u64) << 56u64) == x) by (bit_vector);
}

impl LogRecord {
    /// Reads a record from its binary layout; the buffer is left as it was.
    pub fn deserialize(buffer: &mut [u8; RECORD_SIZE]) -> (r: LogRecord)
        ensures
            r == record_of_bytes(old(buffer)@),
            *final(buffer) == *old(buffer),
    {
        LogRecord {
            insn_count: read_le(buffer, 0),
            cpu: buffer[8],
            store: buffer[9],
            size: buffer[10],
            address: read_le(buffer, 16),
        }
    }

    /// Writes the binary layout of the record into `buffer`.
    pub fn serialize(&self, buffer: &mut [u8; RECORD_SIZE])
        ensures
            final(buffer)@ == record_bytes(*self),
    {
        write_le(buffer, 0, self.insn_count);
        buffer[8] = self.cpu;
        buffer[9] = self.store;
        buffer[10] = self.size;
        let mut i: usize = 11;
        while i < 16
            invariant
                11 <= i <= 16,
                buffer@.len() == 24,
                forall|k: int| 0 <= k < 8 ==> buffer@[k] == le_bytes(self.insn_count)[k],
                buffer@[8] == self.cpu,
                buffer@[9] == self.store,
                buffer@[10] == self.size,
                forall|k: int| 11 <= k < i ==> buffer@[k] == 0,
            decreases 16 - i,
        {
            buffer[i] = 0;
            i += 1;
        }
        write_le(buffer, 16, self.address);
        assert(buffer@ =~= record_bytes(*self));
    }
}

/// Reading back the binary layout of a record gives the record.
pub proof fn lemma_record_round_trip(r: LogRecord)
    ensures
        record_of_bytes(record_bytes(r)) == r,
{
    let b = record_bytes(r);
    lemma_le_round_trip(r.insn_count);
    lemma_le_round_trip(r.address);
    assert(b.subrange(0, 8) =~= le_bytes(r.insn_count));
    assert(b.subrange(16, 24) =~= le_bytes(r.address));
    assert(le_value(b, 0) == le_value(le_bytes(r.insn_count), 0));
    assert(le_value(b, 16) == le_value(le_bytes(r.address), 0));
}

/// Whether `s` holds no comma.
pub open spec fn no_comma(s: Seq<u8>) -> bool {
    forall|i: int| 0 <= i < s.len() ==> s[i] != COMMA
}

proof fn lemma_commas_append_plain(x: Seq<u8>, y: Seq<u8>)
    requires
        no_comma(y),
    ensures
        comma_positions(x + y) == comma_positions(x),
    decreases y.len(),
{
    if y.len() > 0 {
        assert((x + y).drop_last() =~= x + y.drop_last());
        assert((x + y).last() == y.last());
        lemma_commas_append_plain(x, y.drop_last());
    } else {
        assert(x + y =~= x);
    }
}

/// Splitting fields joined with commas gives the fields back, when none of
/// them holds a comma.
pub proof fn lemma_join_fields(fs: Seq<Seq<u8>>)
    requires
        fs.len() >= 1,
        forall|k: int| 0 <= k < fs.len() ==> no_comma(#[trigger] fs[k]),
    ensures
        field_count(join_fields(fs)) == fs.len(),
        comma_positions(join_fields(fs)).len() == fs.len() - 1,
        forall|k: int| 0 <= k < fs.len() ==> #[trigger] field(join_fields(fs), k) == fs[k],
    decreases fs.len(),
{
    let s = join_fields(fs);
    if fs.len() == 1 {
        lemma_commas_append_plain(seq![], fs[0]);
        assert(seq![] + fs[0] =~= fs[0]);
        assert(comma_positions(Seq::<u8>::empty()) =~= Seq::<int>::empty());
        assert(s.subrange(0, s.len() as int) =~= s);
    } else {
        let p = fs.drop_last();
        let ps = join_fields(p);
        assert forall|k: int| 0 <= k < p.len() implies no_comma(#[trigger] p[k]) by {
            assert(no_comma(fs[k]));
        }
        lemma_join_fields(p);
        let j = ps.len() as int;
        let pc = ps + seq![COMMA];
        assert(pc.drop_last() =~= ps);
        assert(comma_positions(pc) == comma_positions(ps).push(j));
        assert(no_comma(fs.last()));
        lemma_commas_append_plain(pc, fs.last());
        assert(s == pc + fs.last());
        let c = comma_positions(s);
        let cp = comma_positions(ps);
        assert(c == cp.push(j));
        assert forall|k: int| 0 <= k < fs.len() implies #[trigger] field(s, k) == fs[k] by {
            if k < fs.len() - 1 {
                let start = if k == 0 {
                    0
                } else {
                    cp[k - 1] + 1
                };
                let end = if k == cp.len() {
                    j
                } else {
                    cp[k]
                };
                assert(field(ps, k) == p[k]);
                assert(field(ps, k) == ps.subrange(start, end));
                lemma_comma_positions(ps);
                assert(end <= j);
                assert(s.subrange(start, end) =~= ps.subrange(start, end));
            } else {
                assert(s.subrange(j + 1, s.len() as int) =~= fs.last());
            }
        }
    }
}

/// The text form read back gives the record.
pub proof fn lemma_record_text_round_trip(r: LogRecord)
    ensures
        parse_record_text(line_bytes(ascii_chars(record_text(r)))) == Ok::<LogRecord, RecordError>(r),
{
    let fs = seq![
        dec_digits(r.insn_count as nat),
        dec_digits(r.cpu as nat),
        dec_digits(r.store as nat),
        dec_digits(r.size as nat),
        address_text(r.address),
    ];
    lemma_dec_digits(r.insn_count as nat);
    lemma_dec_digits(r.cpu as nat);
    lemma_dec_digits(r.store as nat);
    lemma_dec_digits(r.size as nat);
    reveal_with_fuel(pow16, 17);
    assert(pow16(16) == 0x1_0000_0000_0000_0000);
    lemma_hex_fixed(r.address as nat, 16);
    let h = hex_fixed(r.address as nat, 16);
    let a = address_text(r.address);
    assert forall|k: int| 0 <= k < fs.len() implies no_comma(#[trigger] fs[k]) by {
        if k < 4 {
            assert(all_digits(fs[k], 10));
        } else {
            assert forall|i: int| 0 <= i < a.len() implies a[i] != COMMA by {
                if i >= 2 {
                    assert(a[i] == h[i - 2]);
                }
            }
        }
    }
    lemma_join_fields(fs);
    let t = record_text(r);
    assert(t == join_fields(fs));
    assert(strip_hex_prefix(h) == h) by {
        assert(h[1] != 120);
    }
    assert(strip_hex_prefix(a) == h) by {
        assert(a.subrange(2, a.len() as int) =~= h);
    }
    assert(unsigned_digits(h) == h);
    assert(all_digits(h, 16)) by {
        assert forall|i: int| 0 <= i < h.len() implies crate::text::is_digit_in(#[trigger] h[i], 16) by {
            assert(is_hex_digit(h[i]));
        }
    }
    assert(parse_address(a) == Some(r.address as nat));
    assert forall|i: int| 0 <= i < t.len() implies t[i] < 128 by {
        lemma_join_bytes_ascii(fs, i);
    }
    assert(t[0] == fs[0][0]) by {
        lemma_join_first(fs);
    }
    assert(t.last() == a.last()) by {
        assert(join_fields(fs) == join_fields(fs.drop_last()) + seq![COMMA] + a);
    }
    assert(a.last() == h[15]);
    lemma_line_bytes_ascii(t);
}

proof fn lemma_join_first(fs: Seq<Seq<u8>>)
    requires
        fs.len() >= 1,
        fs[0].len() > 0,
    ensures
        join_fields(fs).len() > 0,
        join_fields(fs)[0] == fs[0][0],
    decreases fs.len(),
{
    if fs.len() > 1 {
        lemma_join_first(fs.drop_last());
    }
}

proof fn lemma_join_bytes_ascii(fs: Seq<Seq<u8>>, i: int)
    requires
        forall|k: int, j: int| 0 <= k < fs.len() && 0 <= j < fs[k].len() ==> #[trigger] fs[k][j] < 128,
        0 <= i < join_fields(fs).len(),
    ensures
        join_fields(fs)[i] < 128,
    decreases fs.len(),
{
    if fs.len() > 1 {
        let ps = join_fields(fs.drop_last());
        if i < ps.len() {
            lemma_join_bytes_ascii(fs.drop_last(), i);
        } else if i > ps.len() {
            assert(join_fields(fs)[i] == fs.last()[i - ps.len() - 1]);
        }
    }
}

/// Appends `,0x` and the sixteen hexadecimal digits of `a`.
pub(crate) fn push_address_field(out: &mut Vec<u8>, a: u64)
    ensures
        final(out)@ == old(out)@ + seq![COMMA] + address_text(a),
{
    out.push(COMMA);
    out.push(48);
    out.push(120);
    push_hex_fixed(out, a, 16);
    assert(final(out)@ =~= old(out)@ + seq![COMMA] + address_text(a));
}

/// Appends `,` and the decimal digits of `n`.
pub(crate) fn push_decimal_field(out: &mut Vec<u8>, n: u64)
    ensures
        final(out)@ == old(out)@ + seq![COMMA] + dec_digits(n as nat),
{
    out.push(COMMA);
    push_decimal(out, n);
    assert(final(out)@ =~= old(out)@ + seq![COMMA] + dec_digits(n as nat));
}

/// Digits, commas and `x` are ASCII.
pub(crate) proof fn lemma_text_ascii(fs: Seq<Seq<u8>>)
    requires
        forall|k: int, j: int| 0 <= k < fs.len() && 0 <= j < fs[k].len() ==> #[trigger] fs[k][j] < 128,
    ensures
        forall|i: int| 0 <= i < join_fields(fs).len() ==> join_fields(fs)[i] < 128,
{
    assert forall|i: int| 0 <= i < join_fields(fs).len() implies join_fields(fs)[i] < 128 by {
        lemma_join_bytes_ascii(fs, i);
    }
}

pub(crate) proof fn lemma_dec_ascii(n: nat)
    ensures
        forall|j: int| 0 <= j < dec_digits(n).len() ==> #[trigger] dec_digits(n)[j] < 128,
{
    lemma_dec_digits(n);
    assert forall|j: int| 0 <= j < dec_digits(n).len() implies #[trigger] dec_digits(n)[j] < 128 by {
        assert(all_digits(dec_digits(n), 10));
        assert(crate::text::is_digit_in(dec_digits(n)[j], 10));
    }
}

pub(crate) proof fn lemma_address_ascii(a: u64)
    ensures
        forall|j: int| 0 <= j < address_text(a).len() ==> #[trigger] address_text(a)[j] < 128,
{
    reveal_with_fuel(pow16, 17);
    lemma_hex_fixed(a as nat, 16);
    assert forall|j: int| 0 <= j < address_text(a).len() implies #[trigger] address_text(a)[j] < 128 by {
        if j >= 2 {
            assert(address_text(a)[j] == hex_fixed(a as nat, 16)[j - 2]);
        }
    }
}

impl LogRecord {
    /// The text form `insn_count,cpu,store,size,0x<address:016x>`.
    pub fn to_text(&self) -> (r: String)
        ensures
            r@ == ascii_chars(record_text(*self)),
    {
        let mut out: Vec<u8> = Vec::new();
        push_decimal(&mut out, self.insn_count);
        push_decimal_field(&mut out, self.cpu as u64);
        push_decimal_field(&mut out, self.store as u64);
        push_decimal_field(&mut out, self.size as u64);
        push_address_field(&mut out, self.address);
        let ghost fs = seq![
            dec_digits(self.insn_count as nat),
            dec_digits(self.cpu as nat),
            dec_digits(self.store as nat),
            dec_digits(self.size as nat),
            address_text(self.address),
        ];
        proof {
            reveal_with_fuel(join_fields, 5);
            assert(fs.drop_last().drop_last().drop_last().drop_last() =~= seq![fs[0]]);
            assert(out@ =~= join_fields(fs));
            lemma_dec_ascii(self.insn_count as nat);
            lemma_dec_ascii(self.cpu as nat);
            lemma_dec_ascii(self.store as nat);
            lemma_dec_ascii(self.size as nat);
            lemma_address_ascii(self.address);
            assert forall|k: int, j: int| 0 <= k < fs.len() && 0 <= j < fs[k].len() implies #[trigger] fs[k][j] < 128 by {
                if k == 0 { assert(fs[k] == dec_digits(self.insn_count as nat)); }
                else if k == 1 { assert(fs[k] == dec_digits(self.cpu as nat)); }
                else if k == 2 { assert(fs[k] == dec_digits(self.store as nat)); }
                else if k == 3 { assert(fs[k] == dec_digits(self.size as nat)); }
                else { assert(fs[k] == address_text(self.address)); }
            }
            lemma_text_ascii(fs);
        }
        string_of_ascii(out)
    }

    /// Parses the text form, after trimming white space at both ends.
    /// Fails with `FieldCount` unless there are exactly five comma-separated
    /// fields, and with `BadField` when a field is not a number of its kind
    /// and range.
    pub fn from_text(s: &str) -> (r: Result<LogRecord, RecordError>)
        ensures
            r == parse_record_text(line_bytes(s@)),
    {
        let b = trimmed_bytes(s);
        let commas = find_commas(b);
        if commas.len() != 4 {
            return Err(RecordError::FieldCount);
        }
        proof {
            lemma_comma_positions(b@);
        }
        let c0 = commas[0];
        let c1 = commas[1];
        let c2 = commas[2];
        let c3 = commas[3];
        assert(c3 as int == comma_positions(b@)[3]);
        assert(c2 as int == comma_positions(b@)[2]);
        assert(c1 as int == comma_positions(b@)[1]);
        assert(c0 as int == comma_positions(b@)[0]);
        let insn_count = parse_unsigned_at(b, 0, c0, 10, u64::MAX);
        let cpu = parse_unsigned_at(b, c0 + 1, c1, 10, 255);
        let store = parse_unsigned_at(b, c1 + 1, c2, 10, 255);
        let size = parse_unsigned_at(b, c2 + 1, c3, 10, 255);
        let n = b.len();
        assert(c3 < n);
        let address = parse_address_at(b, c3 + 1, n);
        match (insn_count, cpu, store, size, address) {
            (Some(i), Some(c), Some(st), Some(sz), Some(a)) => Ok(
                LogRecord { insn_count: i, cpu: c as u8, store: st as u8, size: sz as u8, address: a },
            ),
            _ => Err(RecordError::BadField),
        }
    }
}

/// The binary layout and the text form both read back as the record, so
/// the two presentations denote the same record.
pub proof fn lemma_codec_round_trip(r: LogRecord)
    ensures
        record_of_bytes(record_bytes(r)) == r,
        parse_record_text(line_bytes(ascii_chars(record_text(r)))) == Ok::<LogRecord, RecordError>(
            record_of_bytes(record_bytes(r)),
        ),
{
    lemma_record_round_trip(r);
    lemma_record_text_round_trip(r);
}

} // verus!
