//! Time-ordered merge of per-CPU record streams. A queue holds at most one
//! buffered record per source; the record with the least
//! `(insn_count, source index)` leaves first and its source is refilled.
use vstd::prelude::*;
use crate::record::LogRecord;

verus! {

/// Whether record `a` of source `i` goes no later than record `b` of source `j`.
pub open spec fn key_le(a: LogRecord, i: int, b: LogRecord, j: int) -> bool {
    a.insn_count < b.insn_count || (a.insn_count == b.insn_count && i <= j)
}

/// Whether `s` is non-decreasing in instruction count.
pub open spec fn sorted_by_insn(s: Seq<LogRecord>) -> bool {
    forall|a: int, b: int| 0 <= a <= b < s.len() ==> s[a].insn_count <= s[b].insn_count
}

/// The records of `out` that came from source `i`, in order.
pub open spec fn from_source(out: Seq<(LogRecord, usize)>, i: int) -> Seq<LogRecord>
    decreases out.len(),
{
    if out.len() == 0 {
        seq![]
    } else if out.last().1 == i {
        from_source(out.drop_last(), i).push(out.last().0)
    } else {
        from_source(out.drop_last(), i)
    }
}

/// The number of records of all sources together.
pub open spec fn total_len(sources: Seq<Seq<LogRecord>>) -> nat
    decreases sources.len(),
{
    if sources.len() == 0 {
        0
    } else {
        total_len(sources.drop_last()) + sources.last().len()
    }
}

/// The sum of `t`.
pub open spec fn sum(t: Seq<usize>) -> nat
    decreases t.len(),
{
    if t.len() == 0 {
        0
    } else {
        (sum(t.drop_last()) + t.last()) as nat
    }
}

/// The views of the sources.
pub open spec fn sources_view(sources: Seq<Vec<LogRecord>>) -> Seq<Seq<LogRecord>> {
    sources.map_values(|v: Vec<LogRecord>| v@)
}

/// The parent of node `k` of a binary heap laid out in a sequence.
pub open spec fn parent(k: int) -> int {
    (k - 1) / 2
}

/// Whether heap entry `x` goes no later than `y`.
pub open spec fn entry_le(x: (LogRecord, usize), y: (LogRecord, usize)) -> bool {
    key_le(x.0, x.1 as int, y.0, y.1 as int)
}

/// Every node goes no later than its children, except maybe at node `skip`.
pub open spec fn heap_ordered_except(h: Seq<(LogRecord, usize)>, skip: int) -> bool {
    forall|k: int| 0 < k < h.len() && parent(k) != skip ==> entry_le(h[parent(k)], #[trigger] h[k])
}

/// Every node goes no later than its children, except maybe node `k` and its
/// parent.
pub open spec fn heap_ordered_but(h: Seq<(LogRecord, usize)>, k: int) -> bool {
    forall|c: int| 0 < c < h.len() && c != k ==> entry_le(h[parent(c)], #[trigger] h[c])
}

/// The heap holds exactly the buffered records, one entry per source that
/// has one.
pub open spec fn holds(h: Seq<(LogRecord, usize)>, heads: Seq<Option<LogRecord>>) -> bool {
    &&& forall|k: int|
        0 <= k < h.len() ==> (#[trigger] h[k]).1 < heads.len() && heads[h[k].1 as int] == Some(
            h[k].0,
        )
    &&& forall|k1: int, k2: int|
        0 <= k1 < h.len() && 0 <= k2 < h.len() && k1 != k2 ==> (#[trigger] h[k1]).1 != (
        #[trigger] h[k2]).1
    &&& forall|i: int|
        0 <= i < heads.len() && (#[trigger] heads[i]) is Some ==> exists|k: int|
            0 <= k < h.len() && (#[trigger] h[k]).1 == i
}

/// The queue of buffered records, at most one per source, kept as a binary
/// heap ordered by `(insn_count, source index)`.
pub struct MergeQueue {
    heap: Vec<(LogRecord, usize)>,
    heads: Ghost<Seq<Option<LogRecord>>>,
}

impl View for MergeQueue {
    type V = Seq<Option<LogRecord>>;

    /// The buffered record of each source.
    closed spec fn view(&self) -> Seq<Option<LogRecord>> {
        self.heads@
    }
}

proof fn lemma_root_first(h: Seq<(LogRecord, usize)>, k: int)
    requires
        heap_ordered_except(h, -1),
        0 <= k < h.len(),
    ensures
        entry_le(h[0], h[k]),
    decreases k,
{
    if k > 0 {
        lemma_root_first(h, parent(k));
    }
}

proof fn lemma_swap_holds(h: Seq<(LogRecord, usize)>, heads: Seq<Option<LogRecord>>, a: int, b: int)
    requires
        holds(h, heads),
        0 <= a < h.len(),
        0 <= b < h.len(),
    ensures
        holds(h.update(a, h[b]).update(b, h[a]), heads),
{
    let h2 = h.update(a, h[b]).update(b, h[a]);
    assert forall|k: int| 0 <= k < h2.len() implies (#[trigger] h2[k]).1 < heads.len() && heads[h2[k].1 as int]
        == Some(h2[k].0) by {
        if k == b {
        } else if k == a {
        } else {
            assert(h2[k] == h[k]);
        }
    }
    assert forall|k1: int, k2: int|
        0 <= k1 < h2.len() && 0 <= k2 < h2.len() && k1 != k2 implies (#[trigger] h2[k1]).1 != (
        #[trigger] h2[k2]).1 by {
        let o1 = if k1 == b {
            a
        } else if k1 == a {
            b
        } else {
            k1
        };
        let o2 = if k2 == b {
            a
        } else if k2 == a {
            b
        } else {
            k2
        };
        assert(h2[k1] == h[o1]);
        assert(h2[k2] == h[o2]);
        assert(h[o1].1 != h[o2].1);
    }
    assert forall|i: int| 0 <= i < heads.len() && (#[trigger] heads[i]) is Some implies exists|k: int|
        0 <= k < h2.len() && (#[trigger] h2[k]).1 == i by {
        let k = choose|k: int| 0 <= k < h.len() && (#[trigger] h[k]).1 == i;
        let n = if k == a {
            b
        } else if k == b {
            a
        } else {
            k
        };
        assert(h2[n] == h[k]);
    }
}

proof fn lemma_remove_last(hs: Seq<(LogRecord, usize)>, heads: Seq<Option<LogRecord>>)
    requires
        holds(hs, heads),
        hs.len() > 0,
    ensures
        holds(hs.drop_last(), heads.update(hs.last().1 as int, None)),
{
    let h = hs.drop_last();
    let last = hs.len() - 1;
    let nh = heads.update(hs.last().1 as int, None);
    assert forall|k: int| 0 <= k < h.len() implies (#[trigger] h[k]).1 < nh.len() && nh[h[k].1 as int]
        == Some(h[k].0) by {
        assert(h[k] == hs[k]);
        assert(hs[k].1 != hs[last].1);
    }
    assert forall|k1: int, k2: int|
        0 <= k1 < h.len() && 0 <= k2 < h.len() && k1 != k2 implies (#[trigger] h[k1]).1 != (
        #[trigger] h[k2]).1 by {
        assert(h[k1] == hs[k1]);
        assert(h[k2] == hs[k2]);
    }
    assert forall|j: int| 0 <= j < nh.len() && (#[trigger] nh[j]) is Some implies exists|k: int|
        0 <= k < h.len() && (#[trigger] h[k]).1 == j by {
        assert(heads[j] is Some);
        let k = choose|k: int| 0 <= k < hs.len() && (#[trigger] hs[k]).1 == j;
        assert(k != last);
        assert(h[k] == hs[k]);
    }
}

proof fn lemma_pop_order(h0: Seq<(LogRecord, usize)>)
    requires
        heap_ordered_except(h0, -1),
        h0.len() > 0,
    ensures
        heap_ordered_except(
            h0.update(0, h0[h0.len() - 1]).update(h0.len() - 1, h0[0]).drop_last(),
            0,
        ),
{
    let last = h0.len() - 1;
    let h = h0.update(0, h0[last]).update(last, h0[0]).drop_last();
    assert forall|c: int| 0 < c < h.len() && parent(c) != 0 implies entry_le(h[parent(c)], #[trigger] h[c]) by {
        assert(h[c] == h0[c]);
        assert(parent(c) > 0);
        assert(h[parent(c)] == h0[parent(c)]);
    }
}

proof fn lemma_children(c: int, k: int)
    requires
        c >= 1,
        parent(c) == k,
    ensures
        c == 2 * k + 1 || c == 2 * k + 2,
{
    assert(c - 1 >= 2 * k && c - 1 <= 2 * k + 1) by (nonlinear_arith)
        requires
            (c - 1) / 2 == k,
            c >= 1,
    ;
}

proof fn lemma_leaf_done(h: Seq<(LogRecord, usize)>, k: int)
    requires
        heap_ordered_except(h, k),
        k >= 0,
        h.len() == 0 || k > (h.len() - 1) / 2 || 2 * k + 1 >= h.len(),
    ensures
        heap_ordered_except(h, -1),
{
    assert forall|c: int| 0 < c < h.len() implies entry_le(h[parent(c)], #[trigger] h[c]) by {
        if parent(c) == k {
            lemma_children(c, k);
        }
    }
}

proof fn lemma_children_ok_done(h: Seq<(LogRecord, usize)>, k: int, m: int)
    requires
        heap_ordered_except(h, k),
        k >= 0,
        m == 2 * k + 1 || m == 2 * k + 2,
        m < h.len(),
        entry_le(h[k], h[m]),
        2 * k + 2 < h.len() ==> entry_le(h[m], h[2 * k + 1]) && entry_le(h[m], h[2 * k + 2]),
        2 * k + 2 >= h.len() ==> m == 2 * k + 1,
    ensures
        heap_ordered_except(h, -1),
{
    assert forall|c: int| 0 < c < h.len() implies entry_le(h[parent(c)], #[trigger] h[c]) by {
        if parent(c) == k {
            lemma_children(c, k);
        }
    }
}

proof fn lemma_sift_down_swap(hb: Seq<(LogRecord, usize)>, k: int, m: int)
    requires
        heap_ordered_except(hb, k),
        k >= 0,
        k > 0 ==> forall|c: int|
            0 < c < hb.len() && parent(c) == k ==> entry_le(hb[parent(k)], #[trigger] hb[c]),
        m == 2 * k + 1 || m == 2 * k + 2,
        m < hb.len(),
        !entry_le(hb[k], hb[m]),
        2 * k + 2 < hb.len() ==> entry_le(hb[m], hb[2 * k + 1]) && entry_le(hb[m], hb[2 * k + 2]),
        2 * k + 2 >= hb.len() ==> m == 2 * k + 1,
    ensures
        ({
            let h = hb.update(k, hb[m]).update(m, hb[k]);
            &&& heap_ordered_except(h, m)
            &&& forall|c: int| 0 < c < h.len() && parent(c) == m ==> entry_le(h[parent(m)], #[trigger] h[c])
        }),
{
    let h = hb.update(k, hb[m]).update(m, hb[k]);
    assert(parent(m) == k);
    assert forall|c: int| 0 < c < h.len() && parent(c) != m implies entry_le(h[parent(c)], #[trigger] h[c]) by {
        if c == m {
        } else if parent(c) == k {
            lemma_children(c, k);
            assert(h[c] == hb[c]);
        } else if c == k {
            assert(h[parent(c)] == hb[parent(c)]);
            assert(entry_le(hb[parent(k)], hb[m]));
        } else {
            assert(h[c] == hb[c]);
            assert(h[parent(c)] == hb[parent(c)]);
        }
    }
    assert forall|c: int| 0 < c < h.len() && parent(c) == m implies entry_le(h[parent(m)], #[trigger] h[c]) by {
        assert(c != m && c != k);
        assert(h[c] == hb[c]);
        assert(entry_le(hb[m], hb[c]));
    }
}

impl MergeQueue {
    pub closed spec fn wf(&self) -> bool {
        &&& heap_ordered_except(self.heap@, -1)
        &&& holds(self.heap@, self.heads@)
    }

    /// An empty queue for `sources` sources.
    pub fn new(sources: usize) -> (r: MergeQueue)
        ensures
            r.wf(),
            r@ == Seq::new(sources as nat, |i: int| None::<LogRecord>),
    {
        MergeQueue {
            heap: Vec::new(),
            heads: Ghost(Seq::new(sources as nat, |i: int| None::<LogRecord>)),
        }
    }

    fn swap(&mut self, a: usize, b: usize)
        requires
            a < old(self).heap@.len(),
            b < old(self).heap@.len(),
        ensures
            final(self).heap@ == old(self).heap@.update(a as int, old(self).heap@[b as int]).update(
                b as int,
                old(self).heap@[a as int],
            ),
            final(self).heads == old(self).heads,
    {
        let x = self.heap[a];
        let y = self.heap[b];
        self.heap.set(a, y);
        self.heap.set(b, x);
    }

    fn less(&self, a: usize, b: usize) -> (r: bool)
        requires
            a < self.heap@.len(),
            b < self.heap@.len(),
        ensures
            r == !entry_le(self.heap@[b as int], self.heap@[a as int]),
    {
        let (ra, ia) = self.heap[a];
        let (rb, ib) = self.heap[b];
        ra.insn_count < rb.insn_count || (ra.insn_count == rb.insn_count && ia < ib)
    }

    /// Buffers `next`, the next record of source `i`, if there is one.
    pub fn push_next_record(&mut self, i: usize, next: Option<LogRecord>)
        requires
            old(self).wf(),
            i < old(self)@.len(),
            old(self)@[i as int] is None,
        ensures
            final(self).wf(),
            final(self)@ == old(self)@.update(i as int, next),
    {
        let rec = match next {
            None => {
                proof {
                    assert(old(self)@.update(i as int, next) =~= old(self)@);
                }
                return;
            },
            Some(rec) => rec,
        };
        let ghost heads = self.heads@.update(i as int, Some(rec));
        let ghost h0 = self.heap@;
        self.heap.push((rec, i));
        self.heads = Ghost(heads);
        proof {
            let h = self.heap@;
            assert forall|k: int| 0 <= k < h.len() implies (#[trigger] h[k]).1 < heads.len()
                && heads[h[k].1 as int] == Some(h[k].0) by {
                if k < h0.len() {
                    assert(h[k] == h0[k]);
                    assert(old(self).heads@[h0[k].1 as int] is Some);
                }
            }
            assert forall|k1: int, k2: int|
                0 <= k1 < h.len() && 0 <= k2 < h.len() && k1 != k2 implies (#[trigger] h[k1]).1 != (
                #[trigger] h[k2]).1 by {
                if k1 < h0.len() {
                    assert(old(self).heads@[h0[k1].1 as int] is Some);
                }
                if k2 < h0.len() {
                    assert(old(self).heads@[h0[k2].1 as int] is Some);
                }
            }
            assert forall|j: int| 0 <= j < heads.len() && (#[trigger] heads[j]) is Some implies exists|k: int|
                0 <= k < h.len() && (#[trigger] h[k]).1 == j by {
                if j == i as int {
                    assert(h[h.len() - 1].1 == i);
                } else {
                    assert(old(self).heads@[j] is Some);
                    let k = choose|k: int| 0 <= k < h0.len() && (#[trigger] h0[k]).1 == j;
                    assert(h[k] == h0[k]);
                }
            }
        }
        proof {
            let h = self.heap@;
            let k = h.len() - 1;
            assert forall|c: int| 0 < c < h.len() && c != k implies entry_le(
                h[parent(c)],
                #[trigger] h[c],
            ) by {
                assert(h[c] == h0[c]);
                assert(h[parent(c)] == h0[parent(c)]);
            }
            if k > 0 {
                assert forall|c: int| 0 < c < h.len() && parent(c) == k implies entry_le(
                    h[parent(k)],
                    #[trigger] h[c],
                ) by {
                    assert(c - 1 >= 2 * k) by (nonlinear_arith)
                        requires
                            (c - 1) / 2 == k,
                            c >= 1,
                    ;
                }
            }
        }
        let k = self.heap.len() - 1;
        self.sift_up(k);
    }

    /// Moves the entry at `k` up until its parent goes no later than it.
    fn sift_up(&mut self, k: usize)
        requires
            k < old(self).heap@.len(),
            holds(old(self).heap@, old(self).heads@),
            heap_ordered_but(old(self).heap@, k as int),
            k > 0 ==> forall|c: int|
                0 < c < old(self).heap@.len() && parent(c) == k ==> entry_le(
                    old(self).heap@[parent(k as int)],
                    #[trigger] old(self).heap@[c],
                ),
        ensures
            final(self).wf(),
            final(self).heads@ == old(self).heads@,
    {
        let ghost heads = self.heads@;
        let mut k = k;
        while k > 0
            invariant
                k < self.heap@.len(),
                heads == old(self).heads@,
                self.heads@ == heads,
                holds(self.heap@, heads),
                heap_ordered_but(self.heap@, k as int),
                k > 0 ==> forall|c: int|
                    0 < c < self.heap@.len() && parent(c) == k ==> entry_le(
                        self.heap@[parent(k as int)],
                        #[trigger] self.heap@[c],
                    ),
            decreases k,
        {
            let p = (k - 1) / 2;
            if !self.less(k, p) {
                proof {
                    assert forall|c: int| 0 < c < self.heap@.len() implies entry_le(
                        self.heap@[parent(c)],
                        #[trigger] self.heap@[c],
                    ) by {
                        if c == k as int {
                            assert(parent(c) == p as int);
                        }
                    }
                }
                return;
            }
            let ghost hb = self.heap@;
            self.swap(k, p);
            proof {
                lemma_swap_holds(hb, heads, k as int, p as int);
                let h = self.heap@;
                assert(parent(k as int) == p as int);
                assert forall|c: int| 0 < c < h.len() && c != p as int implies entry_le(
                    h[parent(c)],
                    #[trigger] h[c],
                ) by {
                    if c == k as int {
                    } else if parent(c) == k as int {
                        assert(h[parent(c)] == hb[p as int]);
                        assert(h[c] == hb[c]);
                    } else if parent(c) == p as int {
                        assert(h[c] == hb[c]);
                        assert(entry_le(hb[p as int], hb[c]));
                    } else {
                        assert(h[c] == hb[c]);
                        assert(parent(c) != k as int);
                        assert(h[parent(c)] == hb[parent(c)]);
                    }
                }
                if p > 0 {
                    assert forall|c: int| 0 < c < h.len() && parent(c) == p as int implies entry_le(
                        h[parent(p as int)],
                        #[trigger] h[c],
                    ) by {
                        assert(entry_le(hb[parent(p as int)], hb[p as int]));
                        assert(h[parent(p as int)] == hb[parent(p as int)]);
                        if c == k as int {
                        } else {
                            assert(h[c] == hb[c]);
                            assert(entry_le(hb[p as int], hb[c]));
                        }
                    }
                }
            }
            k = p;
        }
    }

    /// Moves the entry at the root down until it goes no later than its
    /// children.
    fn sift_down(&mut self)
        requires
            holds(old(self).heap@, old(self).heads@),
            heap_ordered_except(old(self).heap@, 0),
        ensures
            final(self).wf(),
            final(self).heads@ == old(self).heads@,
    {
        let ghost heads = self.heads@;
        let mut k: usize = 0;
        loop
            invariant
                self.heads@ == heads,
                holds(self.heap@, heads),
                heap_ordered_except(self.heap@, k as int),
                k == 0 || k < self.heap@.len(),
                k > 0 ==> forall|c: int|
                    0 < c < self.heap@.len() && parent(c) == k ==> entry_le(
                        self.heap@[parent(k as int)],
                        #[trigger] self.heap@[c],
                    ),
            ensures
                self.heads@ == heads,
                holds(self.heap@, heads),
                heap_ordered_except(self.heap@, -1),
            decreases self.heap@.len() - k,
        {
            let n = self.heap.len();
            if n == 0 || k > (n - 1) / 2 || 2 * k + 1 >= n {
                proof {
                    lemma_leaf_done(self.heap@, k as int);
                }
                break;
            }
            let l = 2 * k + 1;
            let r = l + 1;
            let m = if r < n && self.less(r, l) {
                r
            } else {
                l
            };
            if !self.less(m, k) {
                proof {
                    lemma_children_ok_done(self.heap@, k as int, m as int);
                }
                break;
            }
            let ghost hb = self.heap@;
            self.swap(k, m);
            proof {
                lemma_swap_holds(hb, heads, k as int, m as int);
                lemma_sift_down_swap(hb, k as int, m as int);
            }
            k = m;
        }
    }

    /// Takes out the buffered record that goes first, with its source: the
    /// least instruction count, and on a tie the lowest source index. None
    /// when nothing is buffered.
    pub fn pop(&mut self) -> (r: Option<(LogRecord, usize)>)
        requires
            old(self).wf(),
        ensures
            final(self).wf(),
            match r {
                None => final(self)@ == old(self)@ && forall|j: int|
                    0 <= j < old(self)@.len() ==> old(self)@[j] is None,
                Some((rec, i)) => {
                    &&& i < old(self)@.len()
                    &&& old(self)@[i as int] == Some(rec)
                    &&& forall|j: int|
                        0 <= j < old(self)@.len() && old(self)@[j] is Some ==> key_le(
                            rec,
                            i as int,
                            old(self)@[j]->Some_0,
                            j,
                        )
                    &&& final(self)@ == old(self)@.update(i as int, None)
                },
            },
    {
        if self.heap.len() == 0 {
            proof {
                assert forall|j: int| 0 <= j < old(self)@.len() implies old(self)@[j] is None by {
                    if old(self)@[j] is Some {
                        let k = choose|k: int| 0 <= k < self.heap@.len() && (#[trigger] self.heap@[k]).1 == j;
                    }
                }
            }
            return None;
        }
        let ghost h0 = self.heap@;
        let (rec, src) = self.heap[0];
        proof {
            assert forall|j: int| 0 <= j < old(self)@.len() && old(self)@[j] is Some implies key_le(
                rec,
                src as int,
                old(self)@[j]->Some_0,
                j,
            ) by {
                let k = choose|k: int| 0 <= k < h0.len() && (#[trigger] h0[k]).1 == j;
                lemma_root_first(h0, k);
            }
        }
        let last = self.heap.len() - 1;
        self.swap(0, last);
        let ghost hs = self.heap@;
        proof {
            lemma_swap_holds(h0, self.heads@, 0, last as int);
            lemma_pop_order(h0);
        }
        self.heap.pop();
        let ghost heads = self.heads@.update(src as int, None);
        self.heads = Ghost(heads);
        proof {
            assert(self.heap@ =~= hs.drop_last());
            lemma_remove_last(hs, old(self).heads@);
        }
        self.sift_down();
        Some((rec, src))
    }
}

proof fn lemma_sum_step(t: Seq<usize>, i: int, v: usize)
    requires
        0 <= i < t.len(),
        v == t[i] + 1,
    ensures
        sum(t.update(i, v)) == sum(t) + 1,
    decreases t.len(),
{
    if i < t.len() - 1 {
        lemma_sum_step(t.drop_last(), i, v);
        assert(t.update(i, v).drop_last() =~= t.drop_last().update(i, v));
    } else {
        assert(t.update(i, v).drop_last() =~= t.drop_last());
    }
}

proof fn lemma_sum_full(t: Seq<usize>, s: Seq<Seq<LogRecord>>)
    requires
        t.len() == s.len(),
        forall|j: int| 0 <= j < t.len() ==> t[j] == s[j].len(),
    ensures
        sum(t) == total_len(s),
    decreases t.len(),
{
    if t.len() > 0 {
        lemma_sum_full(t.drop_last(), s.drop_last());
    }
}

proof fn lemma_sum_zero(n: nat)
    ensures
        sum(Seq::new(n, |i: int| 0usize)) == 0,
    decreases n,
{
    if n > 0 {
        lemma_sum_zero((n - 1) as nat);
        assert(Seq::new(n, |i: int| 0usize).drop_last() =~= Seq::new((n - 1) as nat, |i: int| 0usize));
    }
}

/// The view of the sources, one entry each.
proof fn lemma_sources_view(sources: Seq<Vec<LogRecord>>)
    ensures
        sources_view(sources).len() == sources.len(),
        forall|i: int| 0 <= i < sources.len() ==> #[trigger] sources_view(sources)[i] == sources[i]@,
{
}

/// Merges the sources into one stream of records, each with the index of
/// its source. Every record of every source comes out exactly once, those
/// of one source in their own order; when every source is non-decreasing in
/// instruction count the stream is ordered by instruction count and, on a
/// tie, by source index.
pub fn merge_sources(sources: &Vec<Vec<LogRecord>>) -> (r: Vec<(LogRecord, usize)>)
    ensures
        r@.len() == total_len(sources_view(sources@)),
        forall|k: int| 0 <= k < r@.len() ==> (#[trigger] r@[k]).1 < sources@.len(),
        forall|i: int| 0 <= i < sources@.len() ==> #[trigger] from_source(r@, i) == sources@[i]@,
        (forall|i: int| 0 <= i < sources@.len() ==> sorted_by_insn(#[trigger] sources@[i]@))
            ==> forall|a: int, b: int|
            0 <= a < b < r@.len() ==> key_le(r@[a].0, r@[a].1 as int, r@[b].0, r@[b].1 as int),
{
    let n = sources.len();
    let ghost srcs = sources_view(sources@);
    proof {
        lemma_sources_view(sources@);
    }
    let ghost sorted = forall|i: int| 0 <= i < sources@.len() ==> sorted_by_insn(#[trigger] sources@[i]@);
    let mut queue = MergeQueue::new(n);
    let mut taken: Vec<usize> = vec![0; n];
    let mut out: Vec<(LogRecord, usize)> = Vec::new();
    let mut i: usize = 0;
    while i < n
        invariant
            n == sources@.len(),
            i <= n,
            queue.wf(),
            queue@.len() == n,
            taken@ == Seq::new(n as nat, |k: int| 0usize),
            forall|k: int| 0 <= k < i ==> #[trigger] queue@[k] == if sources@[k]@.len() > 0 {
                Some(sources@[k]@[0])
            } else {
                None
            },
            forall|k: int| i <= k < n ==> #[trigger] queue@[k] is None,
        decreases n - i,
    {
        if sources[i].len() > 0 {
            queue.push_next_record(i, Some(sources[i][0]));
        } else {
            queue.push_next_record(i, None);
        }
        i += 1;
    }
    proof {
        lemma_sum_zero(n as nat);
        assert forall|k: int| 0 <= k < n implies #[trigger] from_source(out@, k)
            == sources@[k]@.take(taken@[k] as int) by {
            assert(sources@[k]@.take(0) =~= Seq::<LogRecord>::empty());
        }
    }
    loop
        invariant
            n == sources@.len(),
            srcs == sources_view(sources@),
            srcs.len() == n,
            forall|k: int| 0 <= k < n ==> #[trigger] srcs[k] == sources@[k]@,
            sorted == forall|k: int| 0 <= k < sources@.len() ==> sorted_by_insn(#[trigger] sources@[k]@),
            queue.wf(),
            queue@.len() == n,
            taken@.len() == n,
            forall|k: int| 0 <= k < n ==> #[trigger] taken@[k] <= sources@[k]@.len(),
            forall|k: int| 0 <= k < n ==> #[trigger] queue@[k] == if taken@[k] < sources@[k]@.len() {
                Some(sources@[k]@[taken@[k] as int])
            } else {
                None
            },
            out@.len() == sum(taken@),
            forall|k: int| 0 <= k < out@.len() ==> (#[trigger] out@[k]).1 < n,
            forall|k: int| 0 <= k < n ==> #[trigger] from_source(out@, k)
                == sources@[k]@.take(taken@[k] as int),
            sorted ==> forall|a: int, b: int|
                0 <= a < b < out@.len() ==> key_le(out@[a].0, out@[a].1 as int, out@[b].0, out@[b].1 as int),
            sorted ==> forall|a: int, j: int|
                #![trigger out@[a], queue@[j]]
                0 <= a < out@.len() && 0 <= j < n && queue@[j] is Some ==> key_le(
                    out@[a].0,
                    out@[a].1 as int,
                    queue@[j]->Some_0,
                    j,
                ),
            sum(taken@) <= total_len(srcs),
        ensures
            out@.len() == total_len(srcs),
            forall|k: int| 0 <= k < out@.len() ==> (#[trigger] out@[k]).1 < n,
            forall|k: int| 0 <= k < n ==> #[trigger] from_source(out@, k) == sources@[k]@,
            sorted ==> forall|a: int, b: int|
                0 <= a < b < out@.len() ==> key_le(out@[a].0, out@[a].1 as int, out@[b].0, out@[b].1 as int),
        decreases total_len(srcs) - out@.len(),
    {
        let ghost q0 = queue@;
        let ghost out0 = out@;
        let ghost taken0 = taken@;
        match queue.pop() {
            None => {
                proof {
                    assert forall|k: int| 0 <= k < n implies taken@[k] == srcs[k].len() by {
                        assert(q0[k] is None);
                    }
                    lemma_sum_full(taken@, srcs);
                    assert forall|k: int| 0 <= k < n implies #[trigger] from_source(out@, k)
                        == sources@[k]@ by {
                        assert(q0[k] is None);
                        assert(sources@[k]@.take(taken@[k] as int) =~= sources@[k]@);
                    }
                }
                break;
            },
            Some((rec, src)) => {
                assert(q0[src as int] is Some);
                let len_src = sources[src].len();
                assert(taken@[src as int] < len_src);
                out.push((rec, src));
                let t = taken[src] + 1;
                taken.set(src, t);
                if t < sources[src].len() {
                    queue.push_next_record(src, Some(sources[src][t]));
                } else {
                    queue.push_next_record(src, None);
                }
                proof {
                    lemma_sum_step(taken0, src as int, t);
                    assert(out@.drop_last() == out0);
                    assert(out@.last() == (rec, src));
                    assert forall|k: int| 0 <= k < n implies #[trigger] from_source(out@, k)
                        == sources@[k]@.take(taken@[k] as int) by {
                        assert(from_source(out0, k) == sources@[k]@.take(taken0[k] as int));
                        if k == src as int {
                            assert(sources@[k]@.take(t as int) =~= sources@[k]@.take(
                                taken0[k] as int,
                            ).push(rec));
                        }
                    }
                    lemma_sum_full_bound(taken@, srcs);
                    if sorted {
                        assert forall|a: int, b: int| 0 <= a < b < out@.len() implies key_le(
                            out@[a].0,
                            out@[a].1 as int,
                            out@[b].0,
                            out@[b].1 as int,
                        ) by {
                            if b == out@.len() - 1 {
                                assert(q0[src as int] is Some);
                            }
                        }
                        assert forall|a: int, j: int|
                            #![trigger out@[a], queue@[j]]
                            0 <= a < out@.len() && 0 <= j < n && queue@[j] is Some
                                implies key_le(
                                out@[a].0,
                                out@[a].1 as int,
                                queue@[j]->Some_0,
                                j,
                            ) by {
                            if j == src as int {
                                let nxt = queue@[j]->Some_0;
                                assert(sorted_by_insn(sources@[j]@));
                                assert(rec == sources@[j]@[taken0[j] as int]);
                                assert(rec.insn_count <= nxt.insn_count);
                                if a < out@.len() - 1 {
                                    assert(q0[src as int] is Some);
                                }
                            } else {
                                assert(q0[j] == queue@[j]);
                                if a < out@.len() - 1 {
                                    assert(q0[src as int] is Some);
                                }
                            }
                        }
                    }
                }
            },
        }
    }
    out
}

proof fn lemma_sum_full_bound(t: Seq<usize>, s: Seq<Seq<LogRecord>>)
    requires
        t.len() == s.len(),
        forall|j: int| 0 <= j < t.len() ==> #[trigger] t[j] <= s[j].len(),
    ensures
        sum(t) <= total_len(s),
    decreases t.len(),
{
    if t.len() > 0 {
        lemma_sum_full_bound(t.drop_last(), s.drop_last());
    }
}

} // verus!
