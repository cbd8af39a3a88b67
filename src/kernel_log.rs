//! The kernel's copy-intent log. A line declares a copy with
//! `N=<command>,<r|w>,<cpu>,<size>,<addr1>,<addr2>,<kernel_addr>,<user_addr>`
//! anywhere in it: `r` copies from kernel to user space, `w` from user to
//! kernel space; numbers are decimal and addresses `0x` and hexadecimal.
use vstd::prelude::*;
use vstd::utf8::encode_utf8;
use crate::text::{
    is_dec_digit, is_hex_digit, parse_address, parse_address_at, parse_unsigned,
    parse_unsigned_at, COMMA,
};

verus! {

/// The direction of a declared copy.
#[derive(Clone, Copy, Debug, PartialEq, Eq, Structural)]
pub enum CopyOp {
    /// `r`: from the kernel address to the user address.
    KernelToUser,
    /// `w`: from the user address to the kernel address.
    UserToKernel,
}

/// A copy declared by the kernel, with the id that the reader gave it and
/// the number of newer intents matched since it entered the window.
#[derive(Clone, Copy, Debug, PartialEq, Eq, Structural)]
pub struct KernelRecord {
    pub rec_id: u64,
    pub cpu: u32,
    pub size: u64,
    pub operation: CopyOp,
    pub kernel_address: u64,
    pub user_address: u64,
    pub stale: u32,
}

/// Where the fields that a match of the line grammar consumes stand.
pub struct Spans {
    pub op: u8,
    pub cpu: (int, int),
    pub size: (int, int),
    pub kernel: (int, int),
    pub user: (int, int),
}

/// The end of the run of bytes other than commas that starts at `i`.
pub open spec fn non_comma_end(b: Seq<u8>, i: int) -> int
    decreases b.len() - i,
{
    if 0 <= i < b.len() && b[i] != COMMA {
        non_comma_end(b, i + 1)
    } else {
        i
    }
}

/// The end of the run of decimal digits that starts at `i`.
pub open spec fn digit_end(b: Seq<u8>, i: int) -> int
    decreases b.len() - i,
{
    if 0 <= i < b.len() && is_dec_digit(b[i]) {
        digit_end(b, i + 1)
    } else {
        i
    }
}

/// The end of the run of hexadecimal digits that starts at `i`.
pub open spec fn hex_end(b: Seq<u8>, i: int) -> int
    decreases b.len() - i,
{
    if 0 <= i < b.len() && is_hex_digit(b[i]) {
        hex_end(b, i + 1)
    } else {
        i
    }
}

/// The end of `0x` and at least one hexadecimal digit at `i`, or -1.
pub open spec fn hex_group_end(b: Seq<u8>, i: int) -> int {
    if 0 <= i && i + 1 < b.len() && b[i] == 48 && b[i + 1] == 120 && hex_end(b, i + 2) > i + 2 {
        hex_end(b, i + 2)
    } else {
        -1
    }
}

/// Whether a group ending at `e` is followed by a comma.
pub open spec fn comma_at(b: Seq<u8>, e: int) -> bool {
    0 <= e < b.len() && b[e] == COMMA
}

/// The match of the line grammar that starts at `p`, if there is one.
pub open spec fn match_at(b: Seq<u8>, p: int) -> Option<Spans> {
    let c = non_comma_end(b, p + 2);
    let o = c + 1;
    let d1 = o + 2;
    let d1e = digit_end(b, d1);
    let d2 = d1e + 1;
    let d2e = digit_end(b, d2);
    let h1e = hex_group_end(b, d2e + 1);
    let h2e = hex_group_end(b, h1e + 1);
    let h3 = h2e + 1;
    let h3e = hex_group_end(b, h3);
    let h4 = h3e + 1;
    let h4e = hex_group_end(b, h4);
    if 0 <= p && p + 1 < b.len() && b[p] == 78 && b[p + 1] == 61 && c > p + 2 && comma_at(b, c) && o
        + 1 < b.len() && (b[o] == 114 || b[o] == 119) && b[o + 1] == COMMA && d1e > d1 && comma_at(
        b,
        d1e,
    ) && d2e > d2 && comma_at(b, d2e) && h1e >= 0 && comma_at(b, h1e) && h2e >= 0 && comma_at(
        b,
        h2e,
    ) && h3e >= 0 && comma_at(b, h3e) && h4e >= 0 {
        Some(Spans { op: b[o], cpu: (d1, d1e), size: (d2, d2e), kernel: (h3, h3e), user: (h4, h4e) })
    } else {
        None
    }
}

/// The leftmost match of the line grammar at or after `p`.
pub open spec fn first_match(b: Seq<u8>, p: int) -> Option<Spans>
    decreases b.len() - p,
{
    if p < 0 || p >= b.len() {
        None
    } else if match_at(b, p) is Some {
        match_at(b, p)
    } else {
        first_match(b, p + 1)
    }
}

/// The record that a line holds, given the id it gets: the leftmost match
/// of the grammar, with a CPU number that fits in 32 bits and a size and
/// addresses that fit in 64.
pub open spec fn kernel_record_of(b: Seq<u8>, id: u64) -> Option<KernelRecord> {
    match first_match(b, 0) {
        None => None,
        Some(sp) => match (
            parse_unsigned(b.subrange(sp.cpu.0, sp.cpu.1), 10, u32::MAX as nat),
            parse_unsigned(b.subrange(sp.size.0, sp.size.1), 10, u64::MAX as nat),
            parse_address(b.subrange(sp.kernel.0, sp.kernel.1)),
            parse_address(b.subrange(sp.user.0, sp.user.1)),
        ) {
            (Some(c), Some(s), Some(k), Some(u)) => Some(
                KernelRecord {
                    rec_id: id,
                    cpu: c as u32,
                    size: s as u64,
                    operation: if sp.op == 114 {
                        CopyOp::KernelToUser
                    } else {
                        CopyOp::UserToKernel
                    },
                    kernel_address: k as u64,
                    user_address: u as u64,
                    stale: 0,
                },
            ),
            _ => None,
        },
    }
}

/// The id after `id`; ids wrap around.
pub open spec fn next_id(id: u64) -> u64 {
    if id == u64::MAX {
        0
    } else {
        (id + 1) as u64
    }
}

fn non_comma_run(b: &[u8], i: usize) -> (r: usize)
    requires
        i <= b@.len(),
    ensures
        r as int == non_comma_end(b@, i as int),
        i <= r <= b@.len(),
    decreases b@.len() - i,
{
    if i < b.len() && b[i] != COMMA {
        non_comma_run(b, i + 1)
    } else {
        i
    }
}

fn digit_run(b: &[u8], i: usize) -> (r: usize)
    requires
        i <= b@.len(),
    ensures
        r as int == digit_end(b@, i as int),
        i <= r <= b@.len(),
    decreases b@.len() - i,
{
    if i < b.len() && 48 <= b[i] && b[i] <= 57 {
        digit_run(b, i + 1)
    } else {
        i
    }
}

fn hex_run(b: &[u8], i: usize) -> (r: usize)
    requires
        i <= b@.len(),
    ensures
        r as int == hex_end(b@, i as int),
        i <= r <= b@.len(),
    decreases b@.len() - i,
{
    if i < b.len() && ((48 <= b[i] && b[i] <= 57) || (97 <= b[i] && b[i] <= 102) || (65 <= b[i]
        && b[i] <= 70)) {
        hex_run(b, i + 1)
    } else {
        i
    }
}

fn hex_group(b: &[u8], i: usize) -> (r: Option<usize>)
    requires
        i <= b@.len(),
    ensures
        match r {
            Some(e) => e as int == hex_group_end(b@, i as int) && e <= b@.len(),
            None => hex_group_end(b@, i as int) == -1,
        },
{
    if b.len() - i >= 2 && b[i] == 48 && b[i + 1] == 120 {
        let e = hex_run(b, i + 2);
        if e > i + 2 {
            return Some(e);
        }
    }
    None
}

fn followed_by_comma(b: &[u8], e: usize) -> (r: bool)
    ensures
        r == comma_at(b@, e as int),
{
    e < b.len() && b[e] == COMMA
}

/// The field spans of the match at `p`, if the grammar matches there.
fn match_line_at(b: &[u8], p: usize) -> (r: Option<(u8, usize, usize, usize, usize, usize, usize, usize, usize)>)
    requires
        p < b@.len(),
    ensures
        match r {
            None => match_at(b@, p as int) is None,
            Some((op, c0, c1, s0, s1, k0, k1, u0, u1)) => match_at(b@, p as int) == Some(
                Spans {
                    op,
                    cpu: (c0 as int, c1 as int),
                    size: (s0 as int, s1 as int),
                    kernel: (k0 as int, k1 as int),
                    user: (u0 as int, u1 as int),
                },
            ) && c0 <= c1 <= s0 <= s1 <= k0 <= k1 <= u0 <= u1 <= b@.len(),
        },
{
    if !(b.len() - p >= 2 && b[p] == 78 && b[p + 1] == 61) {
        return None;
    }
    let c = non_comma_run(b, p + 2);
    if !(c > p + 2 && followed_by_comma(b, c)) {
        return None;
    }
    let o = c + 1;
    if !(b.len() - o >= 2 && (b[o] == 114 || b[o] == 119) && b[o + 1] == COMMA) {
        return None;
    }
    let d1 = o + 2;
    let d1e = digit_run(b, d1);
    if !(d1e > d1 && followed_by_comma(b, d1e)) {
        return None;
    }
    let d2 = d1e + 1;
    let d2e = digit_run(b, d2);
    if !(d2e > d2 && followed_by_comma(b, d2e)) {
        return None;
    }
    let h1e = match hex_group(b, d2e + 1) {
        Some(e) => e,
        None => {
            return None;
        },
    };
    if !followed_by_comma(b, h1e) {
        return None;
    }
    let h2e = match hex_group(b, h1e + 1) {
        Some(e) => e,
        None => {
            return None;
        },
    };
    if !followed_by_comma(b, h2e) {
        return None;
    }
    let h3 = h2e + 1;
    let h3e = match hex_group(b, h3) {
        Some(e) => e,
        None => {
            return None;
        },
    };
    if !followed_by_comma(b, h3e) {
        return None;
    }
    let h4 = h3e + 1;
    let h4e = match hex_group(b, h4) {
        Some(e) => e,
        None => {
            return None;
        },
    };
    Some((b[o], d1, d1e, d2, d2e, h3, h3e, h4, h4e))
}

/// Reads kernel log lines, giving each line that matches the grammar the
/// next id.
pub struct KernelLogReader {
    next_rec_id: u64,
}

impl KernelLogReader {
    /// The id that the next matching line gets.
    pub closed spec fn next_rec_id(&self) -> u64 {
        self.next_rec_id
    }

    /// A reader whose first id is 0.
    pub fn new() -> (r: KernelLogReader)
        ensures
            r.next_rec_id() == 0,
    {
        KernelLogReader { next_rec_id: 0 }
    }

    /// Parses one kernel log line. A line that matches the grammar takes an
    /// id, even when one of its numbers then does not fit; the record comes
    /// back only when all of them fit.
    pub fn parse_kernel_line(&mut self, line: &str) -> (r: Option<KernelRecord>)
        ensures
            r == kernel_record_of(encode_utf8(line@), old(self).next_rec_id()),
            final(self).next_rec_id() == if first_match(encode_utf8(line@), 0) is Some {
                next_id(old(self).next_rec_id())
            } else {
                old(self).next_rec_id()
            },
    {
        let b = line.as_bytes();
        let mut p: usize = 0;
        while p < b.len()
            invariant
                p <= b@.len(),
                b@ == encode_utf8(line@),
                self.next_rec_id == old(self).next_rec_id,
                first_match(b@, 0) == first_match(b@, p as int),
            decreases b@.len() - p,
        {
            match match_line_at(b, p) {
                None => {
                    p += 1;
                },
                Some((op, c0, c1, s0, s1, k0, k1, u0, u1)) => {
                    let id = self.next_rec_id;
                    self.next_rec_id = if id == u64::MAX {
                        0
                    } else {
                        id + 1
                    };
                    let cpu = parse_unsigned_at(b, c0, c1, 10, u32::MAX as u64);
                    let size = parse_unsigned_at(b, s0, s1, 10, u64::MAX);
                    let kernel_address = parse_address_at(b, k0, k1);
                    let user_address = parse_address_at(b, u0, u1);
                    return match (cpu, size, kernel_address, user_address) {
                        (Some(c), Some(s), Some(k), Some(u)) => Some(
                            KernelRecord {
                                rec_id: id,
                                cpu: c as u32,
                                size: s,
                                operation: if op == 114 {
                                    CopyOp::KernelToUser
                                } else {
                                    CopyOp::UserToKernel
                                },
                                kernel_address: k,
                                user_address: u,
                                stale: 0,
                            },
                        ),
                        _ => None,
                    };
                },
            }
        }
        None
    }
}

/// The id that line `i` of a log gets when read from the start: the number
/// of lines before it that match the grammar, wrapping around.
pub open spec fn id_of_line(lines: Seq<String>, i: int) -> u64
    decreases i,
{
    if i <= 0 {
        0
    } else if first_match(encode_utf8(lines[i - 1]@), 0) is Some {
        next_id(id_of_line(lines, i - 1))
    } else {
        id_of_line(lines, i - 1)
    }
}

/// Parses each line of a kernel log with one reader; an entry is None where
/// the line holds no copy intent.
pub fn parse_kernel_log(lines: &Vec<String>) -> (r: Vec<Option<KernelRecord>>)
    ensures
        r@.len() == lines@.len(),
        forall|i: int|
            0 <= i < lines@.len() ==> #[trigger] r@[i] == kernel_record_of(
                encode_utf8(lines@[i]@),
                id_of_line(lines@, i),
            ),
{
    let mut reader = KernelLogReader::new();
    let mut r: Vec<Option<KernelRecord>> = Vec::new();
    let mut i: usize = 0;
    while i < lines.len()
        invariant
            i <= lines@.len(),
            r@.len() == i,
            reader.next_rec_id() == id_of_line(lines@, i as int),
            forall|k: int|
                0 <= k < i ==> #[trigger] r@[k] == kernel_record_of(
                    encode_utf8(lines@[k]@),
                    id_of_line(lines@, k),
                ),
        decreases lines@.len() - i,
    {
        let rec = reader.parse_kernel_line(lines[i].as_str());
        r.push(rec);
        i += 1;
    }
    r
}

} // verus!
