//! An iterator adapter that can look ahead: items pulled early wait in a
//! queue, which is drained before the underlying iterator is asked again.
//! The items still to come are the buffered ones, then those that the
//! underlying iterator will give.
use vstd::prelude::*;
use vstd::std_specs::iter::IteratorSpec;

verus! {

/// An iterator with a queue of items pulled ahead of time.
pub struct LookaheadIterator<I> where I: Iterator {
    iter: I,
    buffer: Vec<I::Item>,
}

impl<I> LookaheadIterator<I> where I: Iterator {
    /// The items pulled but not yet handed out, oldest first.
    pub closed spec fn buffered(&self) -> Seq<I::Item> {
        self.buffer@
    }

    /// The underlying iterator.
    pub closed spec fn inner(&self) -> I {
        self.iter
    }

    /// An adapter over `iter` with nothing buffered.
    pub fn new(iter: I) -> (r: Self)
        ensures
            r.buffered() == Seq::<I::Item>::empty(),
            r.inner() == iter,
    {
        LookaheadIterator { iter, buffer: Vec::new() }
    }

    /// Buffers items until `n` are buffered or the underlying iterator is
    /// exhausted, and returns the buffered items; nothing is handed out.
    pub fn peek_n(&mut self, n: usize) -> (r: &[I::Item])
        ensures
            r@ == final(self).buffered(),
            old(self).buffered().is_prefix_of(final(self).buffered()),
            old(self).inner().obeys_prophetic_iter_laws() ==> {
                &&& final(self).buffered() + final(self).inner().remaining() == old(self).buffered()
                    + old(self).inner().remaining()
                &&& final(self).buffered().len() >= n || final(self).inner().remaining().len() == 0
            },
    {
        while self.buffer.len() < n
            invariant
                old(self).buffered().is_prefix_of(self.buffered()),
                self.iter.obeys_prophetic_iter_laws() == old(self).iter.obeys_prophetic_iter_laws(),
                old(self).inner().obeys_prophetic_iter_laws() ==> self.buffered()
                    + self.inner().remaining() == old(self).buffered() + old(self).inner().remaining(),
            ensures
                old(self).buffered().is_prefix_of(self.buffered()),
                old(self).inner().obeys_prophetic_iter_laws() ==> {
                    &&& self.buffered() + self.inner().remaining() == old(self).buffered()
                        + old(self).inner().remaining()
                    &&& self.buffered().len() >= n || self.inner().remaining().len() == 0
                },
            decreases n - self.buffer@.len(),
        {
            let ghost before = self.buffer@;
            match self.iter.next() {
                Some(item) => {
                    self.buffer.push(item);
                    proof {
                        if self.iter.obeys_prophetic_iter_laws() {
                            assert(self.buffered() + self.inner().remaining() =~= before.push(item)
                                + self.iter.remaining());
                        }
                    }
                },
                None => {
                    break;
                },
            }
        }
        self.buffer.as_slice()
    }

    /// Hands out the next item: the oldest buffered one, else the next of
    /// the underlying iterator.
    pub fn advance(&mut self) -> (r: Option<I::Item>)
        ensures
            old(self).buffered().len() > 0 ==> r == Some(old(self).buffered()[0])
                && final(self).buffered() == old(self).buffered().drop_first() && final(self).inner()
                == old(self).inner(),
            old(self).inner().obeys_prophetic_iter_laws() ==> {
                let before = old(self).buffered() + old(self).inner().remaining();
                let after = final(self).buffered() + final(self).inner().remaining();
                if before.len() > 0 {
                    r == Some(before[0]) && after == before.drop_first()
                } else {
                    r is None
                }
            },
    {
        if self.buffer.len() > 0 {
            let item = self.buffer.remove(0);
            proof {
                assert((old(self).buffered() + old(self).inner().remaining()).drop_first()
                    =~= self.buffered() + self.inner().remaining());
            }
            Some(item)
        } else {
            let r = self.iter.next();
            proof {
                assert(old(self).buffered() + old(self).inner().remaining()
                    =~= old(self).iter.remaining());
                assert(self.buffered() + self.inner().remaining() =~= self.iter.remaining());
            }
            r
        }
    }
}

} // verus!
