//! The cache stage: one cache per CPU filters the annotated trace down to
//! the accesses that miss, each written with the instruction-count gap
//! ("bubble") since the previous line written for its CPU. A copy invalidates
//! its destination page in every cache and is always written.
use vstd::prelude::*;
use crate::cache::{lru_touch, without_blocks, first_block, last_block, Cache, PAGE_SIZE};
use crate::memory_access::{MemRecord, MemoryAccess, RowcloneRecord};
use crate::record::{address_text, lemma_address_ascii, lemma_dec_ascii};
use crate::text::{ascii_chars, dec_digits, push_decimal, push_hex_fixed, string_of_ascii};

verus! {

/// The gap between instruction count `insn` and the previous one written,
/// or 1 when the count went backward.
pub open spec fn bubble(insn: u64, prev: u64) -> u64 {
    if prev > insn {
        1
    } else {
        (insn - prev) as u64
    }
}

/// `<bubble> 0x<address>` for a load, `<bubble> -1 0x<address>` for a store.
pub open spec fn access_line(m: MemRecord, gap: u64) -> Seq<u8> {
    if m.store {
        dec_digits(gap as nat) + seq![32u8, 45u8, 49u8, 32u8] + address_text(m.address)
    } else {
        dec_digits(gap as nat) + seq![32u8] + address_text(m.address)
    }
}

/// `<bubble> 0x<from> 0x<to>` for a copy.
pub open spec fn copy_line(c: RowcloneRecord, gap: u64) -> Seq<u8> {
    dec_digits(gap as nat) + seq![32u8] + address_text(c.from) + seq![32u8] + address_text(c.to)
}

fn gap_of(insn: u64, prev: u64) -> (r: u64)
    ensures
        r == bubble(insn, prev),
{
    if prev > insn {
        1
    } else {
        insn - prev
    }
}

fn push_address(out: &mut Vec<u8>, a: u64)
    ensures
        final(out)@ == old(out)@ + address_text(a),
{
    out.push(48);
    out.push(120);
    push_hex_fixed(out, a, 16);
    assert(final(out)@ =~= old(out)@ + address_text(a));
}

proof fn lemma_ascii_concat(a: Seq<u8>, b: Seq<u8>)
    requires
        forall|i: int| 0 <= i < a.len() ==> a[i] < 128,
        forall|i: int| 0 <= i < b.len() ==> b[i] < 128,
    ensures
        forall|i: int| 0 <= i < (a + b).len() ==> (a + b)[i] < 128,
{
    assert forall|i: int| 0 <= i < (a + b).len() implies (a + b)[i] < 128 by {
        if i >= a.len() {
            assert((a + b)[i] == b[i - a.len()]);
        }
    }
}

/// The line written for a regular access that missed, `prev` being the
/// instruction count of the previous line written for its CPU.
pub fn ramulator_mem_format(rec: &MemRecord, prev_insn_count: &u64) -> (r: String)
    ensures
        r@ == ascii_chars(access_line(*rec, bubble(rec.insn_count, *prev_insn_count))),
{
    let gap = gap_of(rec.insn_count, *prev_insn_count);
    let mut out: Vec<u8> = Vec::new();
    push_decimal(&mut out, gap);
    if rec.store {
        out.push(32);
        out.push(45);
        out.push(49);
    }
    out.push(32);
    push_address(&mut out, rec.address);
    proof {
        lemma_dec_ascii(gap as nat);
        lemma_address_ascii(rec.address);
        let d = dec_digits(gap as nat);
        let sep = if rec.store { seq![32u8, 45u8, 49u8, 32u8] } else { seq![32u8] };
        assert(out@ =~= d + sep + address_text(rec.address));
        lemma_ascii_concat(d, sep);
        lemma_ascii_concat(d + sep, address_text(rec.address));
    }
    string_of_ascii(out)
}

/// The line written for a copy.
pub fn ramulator_copy_format(rec: &RowcloneRecord, prev_insn_count: &u64) -> (r: String)
    ensures
        r@ == ascii_chars(copy_line(*rec, bubble(rec.insn_count, *prev_insn_count))),
{
    let gap = gap_of(rec.insn_count, *prev_insn_count);
    let mut out: Vec<u8> = Vec::new();
    push_decimal(&mut out, gap);
    out.push(32);
    push_address(&mut out, rec.from);
    out.push(32);
    push_address(&mut out, rec.to);
    proof {
        lemma_dec_ascii(gap as nat);
        lemma_address_ascii(rec.from);
        lemma_address_ascii(rec.to);
        let d = dec_digits(gap as nat);
        let sp = seq![32u8];
        assert(out@ =~= d + sp + address_text(rec.from) + sp + address_text(rec.to));
        lemma_ascii_concat(d, sp);
        lemma_ascii_concat(d + sp, address_text(rec.from));
        lemma_ascii_concat(d + sp + address_text(rec.from), sp);
        lemma_ascii_concat(d + sp + address_text(rec.from) + sp, address_text(rec.to));
    }
    string_of_ascii(out)
}

/// One cache per CPU and the instruction count of the last line written for
/// each CPU.
pub struct TraceFilter {
    caches: Vec<Cache>,
    prev_insn_count: Vec<u64>,
}

impl TraceFilter {
    /// The caches, one per CPU.
    pub closed spec fn caches(&self) -> Seq<Cache> {
        self.caches@
    }

    /// The instruction count of the last line written for each CPU.
    pub closed spec fn prev(&self) -> Seq<u64> {
        self.prev_insn_count@
    }

    pub closed spec fn wf(&self) -> bool {
        &&& self.caches@.len() == self.prev_insn_count@.len()
        &&& forall|i: int| 0 <= i < self.caches@.len() ==> (#[trigger] self.caches@[i]).wf()
    }

    /// `cpus` empty caches of `size` bytes in blocks of `block_size` bytes
    /// with `associativity` ways; no line written yet.
    pub fn new(cpus: usize, size: usize, block_size: usize, associativity: usize) -> (r: TraceFilter)
        requires
            block_size > 0,
            associativity > 0,
            size / block_size / associativity > 0,
        ensures
            r.wf(),
            r.caches().len() == cpus,
            forall|i: int|
                0 <= i < cpus ==> {
                    &&& (#[trigger] r.caches()[i]).block_size() == block_size
                    &&& r.caches()[i].ways() == associativity
                    &&& r.caches()[i].num_sets() == size / block_size / associativity
                    &&& forall|s: int|
                        0 <= s < r.caches()[i].num_sets() ==> r.caches()[i]@[s] == Seq::<
                            u64,
                        >::empty()
                },
            r.prev() == Seq::new(cpus as nat, |i: int| 0u64),
    {
        let mut caches: Vec<Cache> = Vec::new();
        let mut i: usize = 0;
        while i < cpus
            invariant
                i <= cpus,
                block_size > 0,
                associativity > 0,
                size / block_size / associativity > 0,
                caches@.len() == i,
                forall|k: int|
                    0 <= k < i ==> {
                        &&& (#[trigger] caches@[k]).wf()
                        &&& caches@[k].block_size() == block_size
                        &&& caches@[k].ways() == associativity
                        &&& caches@[k].num_sets() == size / block_size / associativity
                        &&& forall|s: int|
                            0 <= s < caches@[k].num_sets() ==> caches@[k]@[s] == Seq::<
                                u64,
                            >::empty()
                    },
            decreases cpus - i,
        {
            caches.push(Cache::new(size, block_size, associativity));
            i += 1;
        }
        let r = TraceFilter { caches, prev_insn_count: vec![0; cpus] };
        assert(r.prev() =~= Seq::new(cpus as nat, |i: int| 0u64));
        r
    }

    /// Runs one annotated access through the caches. A regular access goes
    /// to the cache of its CPU and gives a line for that CPU when it misses;
    /// a copy invalidates its destination page in every cache and always
    /// gives a line. None when the access hit.
    pub fn process(&mut self, access: &MemoryAccess) -> (r: Option<(usize, String)>)
        requires
            old(self).wf(),
            match *access {
                MemoryAccess::Regular(m) => m.cpu < old(self).caches().len(),
                MemoryAccess::Rowclone(c) => c.cpu < old(self).caches().len() && c.to % PAGE_SIZE
                    == 0,
            },
        ensures
            final(self).wf(),
            final(self).caches().len() == old(self).caches().len(),
            match *access {
                MemoryAccess::Regular(m) => {
                    let c = old(self).caches()[m.cpu as int];
                    let s = c.set_of(m.address);
                    let b = c.block_of(m.address);
                    let hit = c@[s].contains(b);
                    &&& final(self).caches() == old(self).caches().update(
                        m.cpu as int,
                        final(self).caches()[m.cpu as int],
                    )
                    &&& final(self).caches()[m.cpu as int]@ == c@.update(
                        s,
                        lru_touch(c@[s], c.ways(), b),
                    )
                    &&& hit ==> r is None && final(self).prev() == old(self).prev()
                    &&& !hit ==> r is Some && r->Some_0.0 == m.cpu && r->Some_0.1@ == ascii_chars(
                        access_line(m, bubble(m.insn_count, old(self).prev()[m.cpu as int])),
                    ) && final(self).prev() == old(self).prev().update(m.cpu as int, m.insn_count)
                },
                MemoryAccess::Rowclone(cp) => {
                    &&& forall|i: int, s: int|
                        0 <= i < old(self).caches().len() && 0 <= s < old(self).caches()[i]@.len()
                            ==> #[trigger] final(self).caches()[i]@[s] == without_blocks(
                                old(self).caches()[i]@[s],
                                first_block(cp.to, old(self).caches()[i].block_size() as u64) as int,
                                last_block(cp.to, old(self).caches()[i].block_size() as u64) as int,
                            )
                    &&& r is Some && r->Some_0.0 == cp.cpu && r->Some_0.1@ == ascii_chars(
                        copy_line(cp, bubble(cp.insn_count, old(self).prev()[cp.cpu as int])),
                    )
                    &&& final(self).prev() == old(self).prev().update(cp.cpu as int, cp.insn_count)
                },
            },
    {
        match access {
            MemoryAccess::Regular(m) => {
                let cpu = m.cpu;
                let ghost old_caches = self.caches@;
                let hit = self.caches[cpu].access(m.address);
                proof {
                    assert forall|i: int| 0 <= i < self.caches@.len() implies (
                    #[trigger] self.caches@[i]).wf() by {
                        assert(old_caches[i].wf());
                    }
                    assert(self.caches@ =~= old_caches.update(cpu as int, self.caches@[cpu as int]));
                }
                if hit {
                    None
                } else {
                    let line = ramulator_mem_format(m, &self.prev_insn_count[cpu]);
                    self.prev_insn_count.set(cpu, m.insn_count);
                    Some((cpu, line))
                }
            },
            MemoryAccess::Rowclone(rc) => {
                let mut i: usize = 0;
                while i < self.caches.len()
                    invariant
                        i <= self.caches@.len(),
                        self.caches@.len() == old(self).caches@.len(),
                        self.prev_insn_count == old(self).prev_insn_count,
                        self.wf(),
                        rc.to % PAGE_SIZE == 0,
                        forall|k: int|
                            i <= k < self.caches@.len() ==> #[trigger] self.caches@[k] == old(self).caches@[k],
                        forall|k: int, s: int|
                            0 <= k < i && 0 <= s < old(self).caches@[k]@.len()
                                ==> #[trigger] self.caches@[k]@[s] == without_blocks(
                                    old(self).caches@[k]@[s],
                                    first_block(rc.to, old(self).caches@[k].block_size() as u64)
                                        as int,
                                    last_block(rc.to, old(self).caches@[k].block_size() as u64)
                                        as int,
                                ),
                    decreases self.caches@.len() - i,
                {
                    let ghost before = self.caches@;
                    self.caches[i].invalidate_page(rc.to);
                    proof {
                        assert forall|k: int| 0 <= k < self.caches@.len() implies (
                        #[trigger] self.caches@[k]).wf() by {
                            assert(before[k].wf());
                        }
                    }
                    i += 1;
                }
                let line = ramulator_copy_format(rc, &self.prev_insn_count[rc.cpu]);
                self.prev_insn_count.set(rc.cpu, rc.insn_count);
                Some((rc.cpu, line))
            },
        }
    }
}

} // verus!
