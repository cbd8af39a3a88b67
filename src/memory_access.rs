//! Annotated accesses: the unit that flows from the copy detector to the
//! cache stage, either a regular load or store or a detected bulk copy.
use vstd::prelude::*;
use crate::record::{
    address_text, join_fields, lemma_address_ascii, lemma_dec_ascii, lemma_text_ascii,
    push_address_field, push_decimal_field, LogRecord, RecordError,
};
use crate::text::{
    ascii_chars, comma_positions, dec_digits, field, field_count, find_commas,
    lemma_comma_positions, line_bytes, parse_address, parse_address_at, parse_unsigned,
    parse_unsigned_at, push_decimal, string_of_ascii, trimmed_bytes, field_is, COMMA,
};

verus! {

/// A regular load or store.
#[derive(Clone, Copy, Debug, PartialEq, Eq, Structural)]
pub struct MemRecord {
    pub insn_count: u64,
    pub address: u64,
    pub store: bool,
    pub cpu: usize,
}

/// A detected bulk copy of the page at `from` to the page at `to`, observed
/// on CPU `cpu` at instruction count `insn_count`.
#[derive(Clone, Copy, Debug, PartialEq, Eq, Structural)]
pub struct RowcloneRecord {
    pub insn_count: u64,
    pub from: u64,
    pub to: u64,
    pub cpu: usize,
}

/// An access of the annotated trace.
#[derive(Clone, Copy, Debug, PartialEq, Eq, Structural)]
pub enum MemoryAccess {
    Regular(MemRecord),
    Rowclone(RowcloneRecord),
}

/// `0` or `1`.
pub open spec fn flag_text(b: bool) -> Seq<u8> {
    if b {
        seq![49u8]
    } else {
        seq![48u8]
    }
}

/// The text form: `insn,0,store,cpu,0x<address>` for a regular access and
/// `insn,1,cpu,0x<from>,0x<to>` for a copy, addresses in sixteen lower-case
/// hexadecimal digits.
pub open spec fn access_text(a: MemoryAccess) -> Seq<u8> {
    match a {
        MemoryAccess::Regular(m) => join_fields(
            seq![
                dec_digits(m.insn_count as nat),
                seq![48u8],
                flag_text(m.store),
                dec_digits(m.cpu as nat),
                address_text(m.address),
            ],
        ),
        MemoryAccess::Rowclone(c) => join_fields(
            seq![
                dec_digits(c.insn_count as nat),
                seq![49u8],
                dec_digits(c.cpu as nat),
                address_text(c.from),
                address_text(c.to),
            ],
        ),
    }
}

/// What the text access `b` (trimmed) denotes: five comma-separated fields,
/// the first a decimal instruction count; a second field of `1` marks a copy.
pub open spec fn parse_access_text(b: Seq<u8>) -> Result<MemoryAccess, RecordError> {
    if field_count(b) != 5 {
        Err(RecordError::FieldCount)
    } else {
        match parse_unsigned(field(b, 0), 10, u64::MAX as nat) {
            None => Err(RecordError::BadField),
            Some(i) => if field(b, 1) == seq![49u8] {
                match (
                    parse_unsigned(field(b, 2), 10, usize::MAX as nat),
                    parse_address(field(b, 3)),
                    parse_address(field(b, 4)),
                ) {
                    (Some(c), Some(f), Some(t)) => Ok(
                        MemoryAccess::Rowclone(
                            RowcloneRecord {
                                insn_count: i as u64,
                                from: f as u64,
                                to: t as u64,
                                cpu: c as usize,
                            },
                        ),
                    ),
                    _ => Err(RecordError::BadField),
                }
            } else {
                match (parse_address(field(b, 4)), parse_unsigned(field(b, 3), 10, usize::MAX as nat)) {
                    (Some(a), Some(c)) => Ok(
                        MemoryAccess::Regular(
                            MemRecord {
                                insn_count: i as u64,
                                address: a as u64,
                                store: field(b, 2) == seq![49u8],
                                cpu: c as usize,
                            },
                        ),
                    ),
                    _ => Err(RecordError::BadField),
                }
            },
        }
    }
}

/// The regular access that a merged-trace record stands for.
pub open spec fn regular_of(r: LogRecord) -> MemoryAccess {
    MemoryAccess::Regular(
        MemRecord {
            insn_count: r.insn_count,
            address: r.address,
            store: r.store == 1,
            cpu: r.cpu as usize,
        },
    )
}

impl MemoryAccess {
    /// The text form of the access.
    pub fn to_text(&self) -> (r: String)
        ensures
            r@ == ascii_chars(access_text(*self)),
    {
        let mut out: Vec<u8> = Vec::new();
        match self {
            MemoryAccess::Regular(m) => {
                push_decimal(&mut out, m.insn_count);
                out.push(COMMA);
                out.push(48);
                out.push(COMMA);
                out.push(if m.store { 49 } else { 48 });
                push_decimal_field(&mut out, m.cpu as u64);
                push_address_field(&mut out, m.address);
                let ghost fs = seq![
                    dec_digits(m.insn_count as nat),
                    seq![48u8],
                    flag_text(m.store),
                    dec_digits(m.cpu as nat),
                    address_text(m.address),
                ];
                proof {
                    reveal_with_fuel(join_fields, 5);
                    assert(fs.drop_last().drop_last().drop_last().drop_last() =~= seq![fs[0]]);
                    assert(out@ =~= join_fields(fs));
                    lemma_dec_ascii(m.insn_count as nat);
                    lemma_dec_ascii(m.cpu as nat);
                    lemma_address_ascii(m.address);
                    assert forall|k: int, j: int|
                        0 <= k < fs.len() && 0 <= j < fs[k].len() implies #[trigger] fs[k][j]
                        < 128 by {
                        if k == 0 {
                            assert(fs[k] == dec_digits(m.insn_count as nat));
                        } else if k == 3 {
                            assert(fs[k] == dec_digits(m.cpu as nat));
                        } else if k == 4 {
                            assert(fs[k] == address_text(m.address));
                        }
                    }
                    lemma_text_ascii(fs);
                }
            },
            MemoryAccess::Rowclone(c) => {
                push_decimal(&mut out, c.insn_count);
                out.push(COMMA);
                out.push(49);
                push_decimal_field(&mut out, c.cpu as u64);
                push_address_field(&mut out, c.from);
                push_address_field(&mut out, c.to);
                let ghost fs = seq![
                    dec_digits(c.insn_count as nat),
                    seq![49u8],
                    dec_digits(c.cpu as nat),
                    address_text(c.from),
                    address_text(c.to),
                ];
                proof {
                    reveal_with_fuel(join_fields, 5);
                    assert(fs.drop_last().drop_last().drop_last().drop_last() =~= seq![fs[0]]);
                    assert(out@ =~= join_fields(fs));
                    lemma_dec_ascii(c.insn_count as nat);
                    lemma_dec_ascii(c.cpu as nat);
                    lemma_address_ascii(c.from);
                    lemma_address_ascii(c.to);
                    assert forall|k: int, j: int|
                        0 <= k < fs.len() && 0 <= j < fs[k].len() implies #[trigger] fs[k][j]
                        < 128 by {
                        if k == 0 {
                            assert(fs[k] == dec_digits(c.insn_count as nat));
                        } else if k == 2 {
                            assert(fs[k] == dec_digits(c.cpu as nat));
                        } else if k == 3 {
                            assert(fs[k] == address_text(c.from));
                        } else if k == 4 {
                            assert(fs[k] == address_text(c.to));
                        }
                    }
                    lemma_text_ascii(fs);
                }
            },
        }
        string_of_ascii(out)
    }

    /// Parses the text form, after trimming white space at both ends. Fails
    /// with `FieldCount` unless there are exactly five comma-separated fields,
    /// and with `BadField` when a field is not a number of its kind and range.
    pub fn from_text(s: &str) -> (r: Result<MemoryAccess, RecordError>)
        ensures
            r == parse_access_text(line_bytes(s@)),
    {
        let b = trimmed_bytes(s);
        let commas = find_commas(b);
        if commas.len() != 4 {
            return Err(RecordError::FieldCount);
        }
        proof {
            lemma_comma_positions(b@);
        }
        let c0 = commas[0];
        let c1 = commas[1];
        let c2 = commas[2];
        let c3 = commas[3];
        assert(c3 as int == comma_positions(b@)[3]);
        assert(c2 as int == comma_positions(b@)[2]);
        assert(c1 as int == comma_positions(b@)[1]);
        assert(c0 as int == comma_positions(b@)[0]);
        let n = b.len();
        assert(c3 < n);
        let insn_count = match parse_unsigned_at(b, 0, c0, 10, u64::MAX) {
            Some(i) => i,
            None => {
                return Err(RecordError::BadField);
            },
        };
        if field_is(b, c0 + 1, c1, 49) {
            let cpu = parse_unsigned_at(b, c1 + 1, c2, 10, usize::MAX as u64);
            let from = parse_address_at(b, c2 + 1, c3);
            let to = parse_address_at(b, c3 + 1, n);
            match (cpu, from, to) {
                (Some(c), Some(f), Some(t)) => Ok(
                    MemoryAccess::Rowclone(
                        RowcloneRecord { insn_count, from: f, to: t, cpu: c as usize },
                    ),
                ),
                _ => Err(RecordError::BadField),
            }
        } else {
            let address = parse_address_at(b, c3 + 1, n);
            let cpu = parse_unsigned_at(b, c2 + 1, c3, 10, usize::MAX as u64);
            let store = field_is(b, c1 + 1, c2, 49);
            match (address, cpu) {
                (Some(a), Some(c)) => Ok(
                    MemoryAccess::Regular(
                        MemRecord { insn_count, address: a, store, cpu: c as usize },
                    ),
                ),
                _ => Err(RecordError::BadField),
            }
        }
    }
}

/// The annotated access of a record of the merged trace in text form.
pub fn parse_binary_record(line: &str) -> (r: Result<MemoryAccess, RecordError>)
    ensures
        r == (match crate::record::parse_record_text(line_bytes(line@)) {
            Ok(rec) => Ok(regular_of(rec)),
            Err(e) => Err(e),
        }),
{
    let access = LogRecord::from_text(line)?;
    Ok(
        MemoryAccess::Regular(
            MemRecord {
                cpu: access.cpu as usize,
                address: access.address,
                insn_count: access.insn_count,
                store: access.store == 1,
            },
        ),
    )
}

/// An annotated access in its own text form.
pub fn parse_rowclone_record(line: &str) -> (r: Result<MemoryAccess, RecordError>)
    ensures
        r == parse_access_text(line_bytes(line@)),
{
    MemoryAccess::from_text(line)
}

} // verus!
