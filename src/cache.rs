//! A set-associative cache with least-recently-used replacement and
//! page-granularity invalidation.
use vstd::prelude::*;
use crate::seq_facts::{
    lemma_distinct_below, lemma_filter_all, lemma_filter_congruent, lemma_filter_filter,
    lemma_remove_is_filter,
};

verus! {

/// Bytes in a page, the unit of invalidation.
pub const PAGE_SIZE: u64 = 4096;

/// What one access does to the tags of a set, held least recently used first:
/// a present tag moves to the most recently used end; an absent one is
/// appended, evicting the least recently used tag when all `ways` are taken.
pub open spec fn lru_touch(tags: Seq<u64>, ways: nat, tag: u64) -> Seq<u64> {
    if tags.contains(tag) {
        without_tag(tags, tag).push(tag)
    } else if tags.len() < ways {
        tags.push(tag)
    } else {
        tags.drop_first().push(tag)
    }
}

/// Holds of every tag but `tag`.
pub open spec fn other_than(tag: u64) -> spec_fn(u64) -> bool {
    |t: u64| t != tag
}

/// Holds of the tags of blocks outside `lo..=hi`.
pub open spec fn outside_blocks(lo: int, hi: int) -> spec_fn(u64) -> bool {
    |t: u64| !(lo <= t && t <= hi)
}

/// The tags of a set without `tag`.
pub open spec fn without_tag(tags: Seq<u64>, tag: u64) -> Seq<u64> {
    tags.filter(other_than(tag))
}

proof fn lemma_without_absent_tag(tags: Seq<u64>, tag: u64)
    requires
        !tags.contains(tag),
    ensures
        without_tag(tags, tag) == tags,
    decreases tags.len(),
{
    reveal_with_fuel(Seq::filter, 1);
    if tags.len() > 0 {
        assert(tags.drop_last().push(tags.last()) =~= tags);
        assert(tags.last() != tag);
        lemma_without_absent_tag(tags.drop_last(), tag);
    } else {
        assert(without_tag(tags, tag) =~= tags);
    }
}

/// The tags of a set without those of the blocks `lo..=hi`.
pub open spec fn without_blocks(tags: Seq<u64>, lo: int, hi: int) -> Seq<u64> {
    tags.filter(outside_blocks(lo, hi))
}

/// The first block that holds a byte of the page at `page`.
pub open spec fn first_block(page: u64, block_size: u64) -> u64 {
    (page / block_size) as u64
}

/// The last block that holds a byte of the page at `page`.
pub open spec fn last_block(page: u64, block_size: u64) -> u64 {
    ((page + PAGE_SIZE - 1) / block_size as int) as u64
}

/// One set of a cache: `associativity` slots, each empty or holding the tag
/// of a block, and the occupied slots in least-recently-used-first order.
#[derive(Debug)]
pub struct CacheSet {
    lines: Vec<Option<u64>>,
    lru_order: Vec<usize>,
}

impl View for CacheSet {
    type V = Seq<u64>;

    /// The tags held, least recently used first.
    closed spec fn view(&self) -> Seq<u64> {
        self.lru_order@.map_values(|i: usize| self.lines@[i as int]->Some_0)
    }
}

impl CacheSet {
    /// The number of slots.
    pub closed spec fn ways(&self) -> nat {
        self.lines@.len()
    }

    /// The LRU order lists every occupied slot once and nothing else, and no
    /// tag is held twice.
    pub closed spec fn wf(&self) -> bool {
        &&& self.lines@.len() > 0
        &&& self.lru_order@.no_duplicates()
        &&& forall|k: int|
            0 <= k < self.lru_order@.len() ==> {
                &&& #[trigger] self.lru_order@[k] < self.lines@.len()
                &&& self.lines@[self.lru_order@[k] as int] is Some
            }
        &&& forall|i: int|
            0 <= i < self.lines@.len() && #[trigger] self.lines@[i] is Some
                ==> self.lru_order@.contains(i as usize)
        &&& self@.no_duplicates()
    }

    proof fn lemma_view_len(&self)
        ensures
            self@.len() == self.lru_order@.len(),
            forall|k: int|
                0 <= k < self.lru_order@.len() ==> #[trigger] self@[k]
                    == self.lines@[self.lru_order@[k] as int]->Some_0,
    {
    }

    /// An empty set with `associativity` slots.
    pub fn new(associativity: usize) -> (r: CacheSet)
        requires
            associativity > 0,
        ensures
            r.wf(),
            r.ways() == associativity,
            r@ == Seq::<u64>::empty(),
    {
        let r = CacheSet { lines: vec![None; associativity], lru_order: Vec::new() };
        assert(r@ =~= Seq::<u64>::empty());
        r
    }

    /// The first slot that holds `tag`, if any.
    fn find_tag(&self, tag: u64) -> (r: Option<usize>)
        ensures
            match r {
                Some(i) => i < self.lines@.len() && self.lines@[i as int] == Some(tag),
                None => forall|i: int|
                    0 <= i < self.lines@.len() ==> self.lines@[i] != Some(tag),
            },
    {
        let mut i: usize = 0;
        while i < self.lines.len()
            invariant
                i <= self.lines@.len(),
                forall|k: int| 0 <= k < i ==> self.lines@[k] != Some(tag),
            decreases self.lines@.len() - i,
        {
            if self.lines[i] == Some(tag) {
                return Some(i);
            }
            i += 1;
        }
        None
    }

    /// The first empty slot, if any.
    fn find_free(&self) -> (r: Option<usize>)
        ensures
            match r {
                Some(i) => i < self.lines@.len() && self.lines@[i as int] is None,
                None => forall|i: int| 0 <= i < self.lines@.len() ==> self.lines@[i] is Some,
            },
    {
        let mut i: usize = 0;
        while i < self.lines.len()
            invariant
                i <= self.lines@.len(),
                forall|k: int| 0 <= k < i ==> self.lines@[k] is Some,
            decreases self.lines@.len() - i,
        {
            if self.lines[i].is_none() {
                return Some(i);
            }
            i += 1;
        }
        None
    }

    /// The position of `slot` in the LRU order.
    fn lru_position(&self, slot: usize) -> (r: usize)
        requires
            self.lru_order@.contains(slot),
        ensures
            r < self.lru_order@.len(),
            self.lru_order@[r as int] == slot,
    {
        let mut j: usize = 0;
        while j < self.lru_order.len()
            invariant
                j <= self.lru_order@.len(),
                self.lru_order@.contains(slot),
                forall|k: int| 0 <= k < j ==> self.lru_order@[k] != slot,
            decreases self.lru_order@.len() - j,
        {
            if self.lru_order[j] == slot {
                return j;
            }
            j += 1;
        }
        assert(false);
        0
    }

    proof fn lemma_tag_in_view(&self, slot: usize, tag: u64)
        requires
            self.wf(),
            slot < self.lines@.len(),
            self.lines@[slot as int] == Some(tag),
        ensures
            self@.contains(tag),
    {
        assert(self.lines@[slot as int] is Some);
        assert(self.lru_order@.contains(slot));
        let k = choose|k: int| 0 <= k < self.lru_order@.len() && self.lru_order@[k] == slot;
        self.lemma_view_len();
        assert(self@[k] == tag);
    }

    proof fn lemma_tag_not_in_view(&self, tag: u64)
        requires
            self.wf(),
            forall|i: int| 0 <= i < self.lines@.len() ==> self.lines@[i] != Some(tag),
        ensures
            !self@.contains(tag),
    {
        if self@.contains(tag) {
            let k = choose|k: int| 0 <= k < self@.len() && self@[k] == tag;
            let slot = self.lru_order@[k] as int;
            assert(self.lines@[slot] == Some(tag));
        }
    }

    /// Looks `tag` up and makes it the most recently used tag of the set.
    /// Returns true on a hit, false on a miss.
    pub fn access(&mut self, tag: u64) -> (hit: bool)
        requires
            old(self).wf(),
        ensures
            final(self).wf(),
            final(self).ways() == old(self).ways(),
            hit == old(self)@.contains(tag),
            final(self)@ == lru_touch(old(self)@, old(self).ways(), tag),
    {
        let ghost old_view = self@;
        proof {
            lemma_distinct_below(self.lru_order@, self.lines.len());
        }
        match self.find_tag(tag) {
            Some(pos) => {
                proof {
                    self.lemma_tag_in_view(pos, tag);
                }
                let j = self.lru_position(pos);
                proof {
                    assert(old_view[j as int] == tag);
                    lemma_remove_is_filter(old_view, j as int, tag, other_than(tag));
                }
                self.lru_order.remove(j);
                self.lru_order.push(pos);
                assert(self@ =~= old_view.remove(j as int).push(tag));
                proof {
                    assert(self.lru_order@ =~= old(self).lru_order@.remove(j as int).push(pos));
                    assert forall|i: int|
                        0 <= i < self.lines@.len() && #[trigger] self.lines@[i] is Some
                            implies self.lru_order@.contains(i as usize) by {
                        if i != pos as int {
                            let k = choose|k: int|
                                0 <= k < old(self).lru_order@.len()
                                    && old(self).lru_order@[k] == i as usize;
                            assert(old(self).lru_order@[j as int] == pos);
                            assert(i as usize != pos);
                            if k < j {
                                assert(self.lru_order@[k] == i as usize);
                            } else {
                                assert(k != j);
                                assert(self.lru_order@[k - 1] == i as usize);
                            }
                        } else {
                            assert(self.lru_order@[self.lru_order@.len() - 1] == pos);
                        }
                    }
                    assert(without_tag(old_view, tag).push(tag) == self@);
                    assert forall|a: int, b: int|
                        0 <= a < self@.len() && 0 <= b < self@.len() && a != b
                            implies self@[a] != self@[b] by {
                        if a < self@.len() - 1 && b < self@.len() - 1 {
                            let ia = if a < j { a } else { a + 1 };
                            let ib = if b < j { b } else { b + 1 };
                            assert(old_view[ia] != old_view[ib]);
                        } else if a < self@.len() - 1 {
                            let ia = if a < j { a } else { a + 1 };
                            assert(old_view[ia] != old_view[j as int]);
                        } else {
                            let ib = if b < j { b } else { b + 1 };
                            assert(old_view[ib] != old_view[j as int]);
                        }
                    }
                }
                true
            },
            None => {
                proof {
                    self.lemma_tag_not_in_view(tag);
                }
                match self.find_free() {
                    Some(free) => {
                        proof {
                            if self.lru_order@.contains(free) {
                                let k = choose|k: int|
                                    0 <= k < self.lru_order@.len() && self.lru_order@[k] == free;
                                assert(self.lines@[self.lru_order@[k] as int] is Some);
                            }
                            if self.lru_order@.len() == self.lines@.len() {
                                assert(self.lru_order@.contains(free));
                            }
                        }
                        self.lines.set(free, Some(tag));
                        self.lru_order.push(free);
                        proof {
                            assert forall|k: int| 0 <= k < old(self).lru_order@.len() implies
                                #[trigger] old(self).lru_order@[k] != free by {
                                assert(old(self).lines@[old(self).lru_order@[k] as int] is Some);
                            }
                            assert(self@ =~= old_view.push(tag));
                            assert forall|i: int|
                                0 <= i < self.lines@.len() && #[trigger] self.lines@[i] is Some
                                    implies self.lru_order@.contains(i as usize) by {
                                if i != free as int {
                                    assert(old(self).lines@[i] is Some);
                                    let k = choose|k: int|
                                        0 <= k < old(self).lru_order@.len()
                                            && old(self).lru_order@[k] == i as usize;
                                    assert(self.lru_order@[k] == i as usize);
                                } else {
                                    assert(self.lru_order@[self.lru_order@.len() - 1] == free);
                                }
                            }
                            assert forall|a: int, b: int|
                                0 <= a < self@.len() && 0 <= b < self@.len() && a != b
                                    implies self@[a] != self@[b] by {
                                if a < old_view.len() && b < old_view.len() {
                                    assert(old_view[a] != old_view[b]);
                                } else if a < old_view.len() {
                                    assert(old_view.contains(old_view[a]));
                                } else {
                                    assert(old_view.contains(old_view[b]));
                                }
                            }
                        }
                    },
                    None => {
                        proof {
                            assert forall|x: usize| x < self.lines@.len() implies
                                self.lru_order@.contains(x) by {
                                assert(self.lines@[x as int] is Some);
                            }
                            lemma_distinct_below(self.lru_order@, self.lines.len());
                        }
                        let evict = self.lru_order.remove(0);
                        self.lines.set(evict, Some(tag));
                        self.lru_order.push(evict);
                        proof {
                            assert(self.lru_order@ =~= old(self).lru_order@.drop_first().push(evict));
                            assert forall|k: int| 1 <= k < old(self).lru_order@.len() implies
                                #[trigger] old(self).lru_order@[k] != evict by {
                                assert(old(self).lru_order@[0] == evict);
                            }
                            assert(self@ =~= old_view.drop_first().push(tag));
                            assert forall|i: int|
                                0 <= i < self.lines@.len() && #[trigger] self.lines@[i] is Some
                                    implies self.lru_order@.contains(i as usize) by {
                                if i != evict as int {
                                    let k = choose|k: int|
                                        0 <= k < old(self).lru_order@.len()
                                            && old(self).lru_order@[k] == i as usize;
                                    assert(k != 0);
                                    assert(self.lru_order@[k - 1] == i as usize);
                                } else {
                                    assert(self.lru_order@[self.lru_order@.len() - 1] == evict);
                                }
                            }
                            assert forall|a: int, b: int|
                                0 <= a < self@.len() && 0 <= b < self@.len() && a != b
                                    implies self@[a] != self@[b] by {
                                if a < self@.len() - 1 && b < self@.len() - 1 {
                                    assert(old_view[a + 1] != old_view[b + 1]);
                                } else if a < self@.len() - 1 {
                                    assert(old_view.contains(old_view[a + 1]));
                                } else {
                                    assert(old_view.contains(old_view[b + 1]));
                                }
                            }
                        }
                    },
                }
                false
            },
        }
    }

    /// Empties the slot that holds `tag`, if any; the slot becomes free.
    pub fn invalidate(&mut self, tag: u64)
        requires
            old(self).wf(),
        ensures
            final(self).wf(),
            final(self).ways() == old(self).ways(),
            final(self)@ == without_tag(old(self)@, tag),
    {
        let ghost old_view = self@;
        match self.find_tag(tag) {
            Some(pos) => {
                proof {
                    self.lemma_tag_in_view(pos, tag);
                }
                let j = self.lru_position(pos);
                proof {
                    lemma_remove_is_filter(old_view, j as int, tag, other_than(tag));
                }
                self.lines.set(pos, None);
                self.lru_order.remove(j);
                proof {
                    assert(self.lru_order@ =~= old(self).lru_order@.remove(j as int));
                    assert forall|k: int| 0 <= k < old(self).lru_order@.len() && k != j implies
                        #[trigger] old(self).lru_order@[k] != pos by {
                    }
                    assert(self@ =~= old_view.remove(j as int));
                    assert forall|i: int|
                        0 <= i < self.lines@.len() && #[trigger] self.lines@[i] is Some
                            implies self.lru_order@.contains(i as usize) by {
                        assert(i != pos as int);
                        assert(i < self.lines.len());
                        assert(i as usize != pos);
                        assert(old(self).lines@[i] is Some);
                        assert(old(self).lru_order@[j as int] == pos);
                        let k = choose|k: int|
                            0 <= k < old(self).lru_order@.len()
                                && old(self).lru_order@[k] == i as usize;
                        if k < j {
                            assert(self.lru_order@[k] == i as usize);
                        } else {
                            assert(k != j);
                            assert(self.lru_order@[k - 1] == i as usize);
                        }
                    }
                    assert forall|a: int, b: int|
                        0 <= a < self@.len() && 0 <= b < self@.len() && a != b
                            implies self@[a] != self@[b] by {
                        let ia = if a < j { a } else { a + 1 };
                        let ib = if b < j { b } else { b + 1 };
                        assert(old_view[ia] != old_view[ib]);
                    }
                    assert(self@ == without_tag(old_view, tag));
                }
            },
            None => {
                proof {
                    self.lemma_tag_not_in_view(tag);
                    lemma_without_absent_tag(old_view, tag);
                }
            },
        }
    }
}

/// Removing the blocks `lo..b-1` and then block `b` removes the blocks `lo..=b`.
proof fn lemma_without_blocks_step(tags: Seq<u64>, lo: int, b: int)
    requires
        0 <= lo <= b <= u64::MAX,
    ensures
        without_tag(without_blocks(tags, lo, b - 1), b as u64) == without_blocks(tags, lo, b),
{
    let p = outside_blocks(lo, b - 1);
    let q = other_than(b as u64);
    let pq = |x: u64| p(x) && q(x);
    lemma_filter_filter(tags, p, q);
    assert forall|i: int| 0 <= i < tags.len() implies pq(#[trigger] tags[i]) == outside_blocks(lo, b)(
        tags[i],
    ) by {
        let x = tags[i];
        assert(q(x) == (x != b as u64));
        assert((x != b as u64) == (x as int != b));
        assert(p(x) == !(lo <= x && x <= b - 1));
        assert(outside_blocks(lo, b)(x) == !(lo <= x && x <= b));
    }
    lemma_filter_congruent(tags, pq, outside_blocks(lo, b));
}

/// Removing no block leaves the tags as they are.
proof fn lemma_without_no_blocks(tags: Seq<u64>, lo: int)
    ensures
        without_blocks(tags, lo, lo - 1) == tags,
{
    lemma_filter_all(tags, outside_blocks(lo, lo - 1));
}

/// Without a tag of block `b`, removing the blocks `lo..b-1` removes `lo..=b`.
proof fn lemma_without_blocks_absent(tags: Seq<u64>, lo: int, b: int)
    requires
        0 <= b,
        !tags.contains(b as u64),
    ensures
        without_blocks(tags, lo, b - 1) == without_blocks(tags, lo, b),
{
    assert forall|i: int| 0 <= i < tags.len() implies outside_blocks(lo, b - 1)(#[trigger] tags[i])
        == outside_blocks(lo, b)(tags[i]) by {
        assert(tags.contains(tags[i]));
    }
    lemma_filter_congruent(tags, outside_blocks(lo, b - 1), outside_blocks(lo, b));
}

/// A cache of `size` bytes in blocks of `block_size` bytes, organised in
/// `size / block_size / associativity` sets of `associativity` ways. A block
/// is cached in the set whose index is its number modulo the number of sets,
/// with the block number as its tag.
#[derive(Debug)]
pub struct Cache {
    block_size: u64,
    sets: Vec<CacheSet>,
}

impl View for Cache {
    type V = Seq<Seq<u64>>;

    /// The tags of each set, least recently used first.
    closed spec fn view(&self) -> Seq<Seq<u64>> {
        self.sets@.map_values(|s: CacheSet| s@)
    }
}

impl Cache {
    /// Bytes per block.
    pub closed spec fn block_size(&self) -> nat {
        self.block_size as nat
    }

    /// Ways per set.
    pub closed spec fn ways(&self) -> nat {
        self.sets@[0].ways()
    }

    /// The number of sets.
    pub closed spec fn num_sets(&self) -> nat {
        self.sets@.len()
    }

    /// The block that holds byte `address`.
    pub open spec fn block_of(&self, address: u64) -> u64 {
        (address as int / self.block_size() as int) as u64
    }

    /// The set that caches byte `address`.
    pub open spec fn set_of(&self, address: u64) -> int {
        self.block_of(address) as int % self.num_sets() as int
    }

    /// Every set is well formed with the same number of ways, and holds only
    /// tags of the blocks that map to it.
    pub closed spec fn wf(&self) -> bool {
        &&& self.block_size > 0
        &&& self.sets@.len() > 0
        &&& forall|i: int|
            0 <= i < self.sets@.len() ==> {
                &&& (#[trigger] self.sets@[i]).wf()
                &&& self.sets@[i].ways() == self.sets@[0].ways()
            }
        &&& forall|i: int, t: u64|
            0 <= i < self.sets@.len() && #[trigger] self.sets@[i]@.contains(t) ==> t as int
                % self.sets@.len() as int == i
    }

    /// An empty cache of `size` bytes with blocks of `block_size` bytes and
    /// `associativity` ways per set.
    pub fn new(size: usize, block_size: usize, associativity: usize) -> (r: Cache)
        requires
            block_size > 0,
            associativity > 0,
            size / block_size / associativity > 0,
        ensures
            r.wf(),
            r.block_size() == block_size,
            r.ways() == associativity,
            r.num_sets() == size / block_size / associativity,
            forall|i: int| 0 <= i < r.num_sets() ==> (#[trigger] r@[i]) == Seq::<u64>::empty(),
    {
        let num_lines = size / block_size;
        let num_sets = num_lines / associativity;
        let mut sets: Vec<CacheSet> = Vec::new();
        let mut i: usize = 0;
        while i < num_sets
            invariant
                associativity > 0,
                i <= num_sets,
                sets@.len() == i,
                forall|k: int|
                    0 <= k < i ==> {
                        &&& (#[trigger] sets@[k]).wf()
                        &&& sets@[k].ways() == associativity
                        &&& sets@[k]@ == Seq::<u64>::empty()
                    },
            decreases num_sets - i,
        {
            sets.push(CacheSet::new(associativity));
            i += 1;
        }
        let r = Cache { block_size: block_size as u64, sets };
        assert forall|k: int| 0 <= k < r.num_sets() implies (#[trigger] r@[k]) == Seq::<u64>::empty() by {
            assert(r.sets@[k]@ == Seq::<u64>::empty());
        }
        r
    }

    /// Looks up the block that holds `address` in its set, making it the most
    /// recently used there. Returns true on a hit, false on a miss.
    pub fn access(&mut self, address: u64) -> (hit: bool)
        requires
            old(self).wf(),
        ensures
            final(self).wf(),
            final(self).block_size() == old(self).block_size(),
            final(self).ways() == old(self).ways(),
            final(self).num_sets() == old(self).num_sets(),
            hit == old(self)@[old(self).set_of(address)].contains(old(self).block_of(address)),
            final(self)@ == old(self)@.update(
                old(self).set_of(address),
                lru_touch(
                    old(self)@[old(self).set_of(address)],
                    old(self).ways(),
                    old(self).block_of(address),
                ),
            ),
    {
        let block_addr = address / self.block_size;
        let n = self.sets.len() as u64;
        let set_index = (block_addr % n) as usize;
        let ghost old_sets = self.sets@;
        let hit = self.sets[set_index].access(block_addr);
        proof {
            assert(self.sets@ == old_sets.update(set_index as int, self.sets@[set_index as int]));
            assert forall|i: int| 0 <= i < self.sets@.len() implies {
                &&& (#[trigger] self.sets@[i]).wf()
                &&& self.sets@[i].ways() == self.sets@[0].ways()
            } by {
                assert(old_sets[i].wf());
                assert(old_sets[i].ways() == old_sets[0].ways());
            }
            assert forall|i: int, t: u64|
                0 <= i < self.sets@.len() && #[trigger] self.sets@[i]@.contains(t) implies t as int
                    % self.sets@.len() as int == i by {
                if i == set_index as int {
                    let old_tags = old_sets[i]@;
                    if t != block_addr {
                        if old_tags.contains(block_addr) {
                            assert(without_tag(old_tags, block_addr).push(block_addr).contains(t));
                            assert(without_tag(old_tags, block_addr).contains(t));
                            old_tags.lemma_filter_contains_rev(other_than(block_addr), t);
                        } else if old_tags.len() < old_sets[i].ways() {
                            assert(old_tags.push(block_addr).contains(t));
                            assert(old_tags.contains(t));
                        } else {
                            assert(old_tags.drop_first().push(block_addr).contains(t));
                            assert(old_tags.drop_first().contains(t));
                            let k = choose|k: int| 0 <= k < old_tags.drop_first().len() && old_tags.drop_first()[k] == t;
                            assert(old_tags[k + 1] == t);
                            assert(old_tags.contains(t));
                        }
                    }
                } else {
                    assert(old_sets[i] == self.sets@[i]);
                }
            }
            assert(self@ =~= old(self)@.update(
                old(self).set_of(address),
                lru_touch(
                    old(self)@[old(self).set_of(address)],
                    old(self).ways(),
                    old(self).block_of(address),
                ),
            ));
        }
        hit
    }

    /// Drops from every set the blocks that hold a byte of the page at
    /// `address`; the slots they took become free.
    pub fn invalidate_page(&mut self, address: u64)
        requires
            old(self).wf(),
            address % PAGE_SIZE == 0,
        ensures
            final(self).wf(),
            final(self).block_size() == old(self).block_size(),
            final(self).ways() == old(self).ways(),
            final(self).num_sets() == old(self).num_sets(),
            final(self)@.len() == old(self)@.len(),
            forall|i: int|
                0 <= i < old(self)@.len() ==> #[trigger] final(self)@[i] == without_blocks(
                    old(self)@[i],
                    first_block(address, old(self).block_size() as u64) as int,
                    last_block(address, old(self).block_size() as u64) as int,
                ),
    {
        let start_block = address / self.block_size;
        let end_block = (address + (PAGE_SIZE - 1)) / self.block_size;
        let n = self.sets.len() as u64;
        let mut block_addr = start_block;
        proof {
            vstd::arithmetic::div_mod::lemma_div_is_ordered(
                address as int,
                address + (PAGE_SIZE - 1),
                self.block_size as int,
            );
            assert forall|i: int| 0 <= i < old(self)@.len() implies #[trigger] self@[i]
                == without_blocks(old(self)@[i], start_block as int, block_addr - 1) by {
                lemma_without_no_blocks(old(self)@[i], start_block as int);
            }
        }
        loop
            invariant_except_break
                forall|i: int|
                    0 <= i < old(self)@.len() ==> #[trigger] self@[i] == without_blocks(
                        old(self)@[i],
                        start_block as int,
                        block_addr - 1,
                    ),
            invariant
                old(self).wf(),
                self.wf(),
                start_block <= block_addr <= end_block,
                self.block_size == old(self).block_size,
                self.sets@.len() == old(self).sets@.len(),
                n == self.sets@.len(),
                self.ways() == old(self).ways(),
            ensures
                self.wf(),
                self.block_size == old(self).block_size,
                self.sets@.len() == old(self).sets@.len(),
                self.ways() == old(self).ways(),
                forall|i: int|
                    0 <= i < old(self)@.len() ==> #[trigger] self@[i] == without_blocks(
                        old(self)@[i],
                        start_block as int,
                        end_block as int,
                    ),
            decreases end_block - block_addr,
        {
            let set_index = (block_addr % n) as usize;
            assert(block_addr % n < n);
            assert(n as int == self.sets.len() as int);
            assert(set_index as int == block_addr as int % n as int);
            let ghost before = self@;
            let ghost before_sets = self.sets@;
            self.sets[set_index].invalidate(block_addr);
            proof {
                assert forall|i: int| 0 <= i < self.sets@.len() implies {
                    &&& (#[trigger] self.sets@[i]).wf()
                    &&& self.sets@[i].ways() == self.sets@[0].ways()
                } by {
                    assert(before_sets[i].wf());
                    assert(before_sets[i].ways() == before_sets[0].ways());
                }
                assert forall|i: int, t: u64|
                    0 <= i < self.sets@.len() && #[trigger] self.sets@[i]@.contains(t) implies t as int
                        % self.sets@.len() as int == i by {
                    if i == set_index as int {
                        before_sets[i]@.lemma_filter_contains_rev(other_than(block_addr), t);
                        assert(before_sets[i]@.contains(t));
                    } else {
                        assert(before_sets[i] == self.sets@[i]);
                    }
                }
                assert forall|i: int| 0 <= i < old(self)@.len() implies #[trigger] self@[i]
                    == without_blocks(old(self)@[i], start_block as int, block_addr as int) by {
                    assert(before[i] == before_sets[i]@);
                    if i == set_index as int {
                        assert(self.sets@[i]@ == without_tag(before_sets[i]@, block_addr));
                        lemma_without_blocks_step(old(self)@[i], start_block as int, block_addr as int);
                    } else {
                        assert(self.sets@[i] == before_sets[i]);
                        if old(self)@[i].contains(block_addr) {
                            assert(old(self).sets@[i]@.contains(block_addr));
                            assert(block_addr as int % n as int == i);
                            assert(set_index as int == block_addr as int % n as int);
                            assert(false);
                        }
                        lemma_without_blocks_absent(old(self)@[i], start_block as int, block_addr as int);
                    }
                }
            }
            if block_addr == end_block {
                break;
            }
            block_addr += 1;
        }
    }
}

/// The tags of a set after the blocks `accesses` were looked up in order.
pub open spec fn lru_run(tags: Seq<u64>, ways: nat, accesses: Seq<u64>) -> Seq<u64>
    decreases accesses.len(),
{
    if accesses.len() == 0 {
        tags
    } else {
        lru_touch(lru_run(tags, ways, accesses.drop_last()), ways, accesses.last())
    }
}

/// Whether the `j`-th of `accesses` hits, in a set that held `tags` before them.
pub open spec fn lru_run_hits(tags: Seq<u64>, ways: nat, accesses: Seq<u64>, j: int) -> bool {
    lru_run(tags, ways, accesses.take(j)).contains(accesses[j])
}

proof fn lemma_lru_run_distinct(ways: nat, accesses: Seq<u64>)
    requires
        ways > 0,
        accesses.no_duplicates(),
    ensures
        lru_run(Seq::empty(), ways, accesses) == if accesses.len() <= ways {
            accesses
        } else {
            accesses.subrange(accesses.len() - ways, accesses.len() as int)
        },
    decreases accesses.len(),
{
    if accesses.len() > 0 {
        let prev = accesses.drop_last();
        assert(prev.no_duplicates());
        lemma_lru_run_distinct(ways, prev);
        let before = lru_run(Seq::empty(), ways, prev);
        assert(!before.contains(accesses.last())) by {
            if before.contains(accesses.last()) {
                let k = choose|k: int| 0 <= k < before.len() && before[k] == accesses.last();
                if prev.len() > ways {
                    assert(accesses[prev.len() - ways + k] == accesses.last());
                } else {
                    assert(accesses[k] == accesses.last());
                }
            }
        }
        if prev.len() < ways {
            assert(before.push(accesses.last()) =~= accesses);
        } else if prev.len() == ways {
            assert(before.drop_first().push(accesses.last()) =~= accesses.subrange(
                accesses.len() - ways,
                accesses.len() as int,
            ));
        } else {
            assert(before.drop_first().push(accesses.last()) =~= accesses.subrange(
                accesses.len() - ways,
                accesses.len() as int,
            ));
        }
    }
}

/// In a set that starts empty, looking up blocks that are all different
/// misses every time; when there are no more of them than ways, the set then
/// holds them all in the order of access.
pub proof fn lemma_lru_distinct_accesses_miss(ways: nat, accesses: Seq<u64>)
    requires
        ways > 0,
        accesses.no_duplicates(),
    ensures
        forall|j: int|
            0 <= j < accesses.len() ==> !#[trigger] lru_run_hits(Seq::empty(), ways, accesses, j),
        accesses.len() <= ways ==> lru_run(Seq::empty(), ways, accesses) == accesses,
{
    assert forall|j: int| 0 <= j < accesses.len() implies !#[trigger] lru_run_hits(
        Seq::empty(),
        ways,
        accesses,
        j,
    ) by {
        let prefix = accesses.take(j);
        assert(prefix.no_duplicates());
        lemma_lru_run_distinct(ways, prefix);
        let held = lru_run(Seq::empty(), ways, prefix);
        if held.contains(accesses[j]) {
            let k = choose|k: int| 0 <= k < held.len() && held[k] == accesses[j];
            if prefix.len() > ways {
                assert(accesses[prefix.len() - ways + k] == accesses[j]);
            } else {
                assert(accesses[k] == accesses[j]);
            }
        }
    }
    lemma_lru_run_distinct(ways, accesses);
}

/// Looking a block up makes it present, so looking it up again at once hits.
pub proof fn lemma_lru_repeat_hits(tags: Seq<u64>, ways: nat, tag: u64)
    requires
        ways > 0,
    ensures
        lru_touch(tags, ways, tag).contains(tag),
{
    let r = lru_touch(tags, ways, tag);
    assert(r[r.len() - 1] == tag);
}

/// In a set of `ways` ways that starts empty, after `ways + 1` different
/// blocks the first one is gone, so looking it up again misses.
pub proof fn lemma_lru_evicts_least_recent(ways: nat, accesses: Seq<u64>)
    requires
        ways > 0,
        accesses.no_duplicates(),
        accesses.len() == ways + 1,
    ensures
        !lru_run(Seq::empty(), ways, accesses).contains(accesses[0]),
        !lru_run_hits(Seq::empty(), ways, accesses.push(accesses[0]), ways + 1 as int),
{
    lemma_lru_run_distinct(ways, accesses);
    let held = lru_run(Seq::empty(), ways, accesses);
    if held.contains(accesses[0]) {
        let k = choose|k: int| 0 <= k < held.len() && held[k] == accesses[0];
        assert(accesses[1 + k] == accesses[0]);
    }
    assert(accesses.push(accesses[0]).take(ways + 1 as int) =~= accesses);
}

/// A block is dropped by the invalidation of the page at `page` exactly when
/// it shares a byte with that page.
pub proof fn lemma_page_blocks(page: u64, block_size: u64, t: u64)
    requires
        block_size > 0,
        page % PAGE_SIZE == 0,
    ensures
        (first_block(page, block_size) <= t <= last_block(page, block_size)) <==> (t * block_size
            < page + PAGE_SIZE && page < (t + 1) * block_size),
{
    let bs = block_size as int;
    let p = page as int;
    let e = p + PAGE_SIZE - 1;
    let q1 = p / bs;
    let q2 = e / bs;
    vstd::arithmetic::div_mod::lemma_fundamental_div_mod(p, bs);
    vstd::arithmetic::div_mod::lemma_fundamental_div_mod(e, bs);
    let r1 = p % bs;
    let r2 = e % bs;
    assert(0 <= r1 < bs && 0 <= r2 < bs);
    let ti = t as int;
    assert((q1 <= ti) <==> (p < (ti + 1) * bs)) by (nonlinear_arith)
        requires
            p == bs * q1 + r1,
            0 <= r1 < bs,
    {
        if q1 <= ti {
            assert(bs * q1 <= bs * ti);
        } else {
            assert(bs * (ti + 1) <= bs * q1);
        }
    }
    assert((ti <= q2) <==> (ti * bs <= e)) by (nonlinear_arith)
        requires
            e == bs * q2 + r2,
            0 <= r2 < bs,
    {
        if ti <= q2 {
            assert(bs * ti <= bs * q2);
        } else {
            assert(bs * (q2 + 1) <= bs * ti);
        }
    }
    assert(e <= u64::MAX);
}

} // verus!
