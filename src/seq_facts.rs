//! General facts about sequences used by the proofs of several modules.
use vstd::prelude::*;
use vstd::set_lib::*;

verus! {

/// Filtering twice keeps exactly the elements that pass both predicates.
pub proof fn lemma_filter_filter<A>(s: Seq<A>, p: spec_fn(A) -> bool, q: spec_fn(A) -> bool)
    ensures
        s.filter(p).filter(q) == s.filter(|x: A| p(x) && q(x)),
    decreases s.len(),
{
    reveal_with_fuel(Seq::filter, 1);
    if s.len() > 0 {
        lemma_filter_filter(s.drop_last(), p, q);
        let r = |x: A| p(x) && q(x);
        assert(s.filter(r) == if r(s.last()) {
            s.drop_last().filter(r).push(s.last())
        } else {
            s.drop_last().filter(r)
        });
        if p(s.last()) {
            assert(s.filter(p) == s.drop_last().filter(p).push(s.last()));
            assert(s.filter(p).drop_last() =~= s.drop_last().filter(p));
        } else {
            assert(s.filter(p) == s.drop_last().filter(p));
        }
    } else {
        assert(s.filter(p) =~= s);
        assert(s.filter(p).filter(q) =~= s);
        assert(s.filter(|x: A| p(x) && q(x)) =~= s);
    }
}

/// Two predicates that agree on every element of a sequence filter it alike.
pub proof fn lemma_filter_congruent<A>(s: Seq<A>, p: spec_fn(A) -> bool, q: spec_fn(A) -> bool)
    requires
        forall|i: int| 0 <= i < s.len() ==> p(#[trigger] s[i]) == q(s[i]),
    ensures
        s.filter(p) == s.filter(q),
    decreases s.len(),
{
    reveal_with_fuel(Seq::filter, 1);
    if s.len() > 0 {
        assert(p(s[s.len() - 1]) == q(s[s.len() - 1]));
        lemma_filter_congruent(s.drop_last(), p, q);
    } else {
        assert(s.filter(p) =~= s);
        assert(s.filter(q) =~= s);
    }
}

/// A filter that keeps every element is the identity.
pub proof fn lemma_filter_all<A>(s: Seq<A>, p: spec_fn(A) -> bool)
    requires
        forall|i: int| 0 <= i < s.len() ==> p(#[trigger] s[i]),
    ensures
        s.filter(p) == s,
    decreases s.len(),
{
    reveal_with_fuel(Seq::filter, 1);
    if s.len() > 0 {
        assert(p(s[s.len() - 1]));
        lemma_filter_all(s.drop_last(), p);
        assert(s.drop_last().push(s.last()) =~= s);
    } else {
        assert(s.filter(p) =~= s);
    }
}

/// In a sequence without duplicates, removing the position that holds `v`
/// is the same as filtering with a predicate that rejects `v` alone.
pub proof fn lemma_remove_is_filter<A>(s: Seq<A>, j: int, v: A, p: spec_fn(A) -> bool)
    requires
        s.no_duplicates(),
        0 <= j < s.len(),
        s[j] == v,
        forall|x: A| #[trigger] p(x) <==> x != v,
    ensures
        s.remove(j) == s.filter(p),
    decreases s.len(),
{
    reveal_with_fuel(Seq::filter, 1);
    if j == s.len() - 1 {
        assert(s.remove(j) =~= s.drop_last());
        assert forall|i: int| 0 <= i < s.drop_last().len() implies p(#[trigger] s.drop_last()[i]) by {
            assert(s[i] != s[j]);
        }
        lemma_filter_all(s.drop_last(), p);
    } else {
        assert(s.drop_last().no_duplicates());
        lemma_remove_is_filter(s.drop_last(), j, v, p);
        assert(s.last() != v);
        assert(s.remove(j) =~= s.drop_last().remove(j).push(s.last()));
    }
}

/// A sequence without duplicates whose elements are below `n` has at most `n`
/// elements, and when it has exactly `n` it holds every value below `n`.
pub proof fn lemma_distinct_below(s: Seq<usize>, n: usize)
    requires
        s.no_duplicates(),
        forall|k: int| 0 <= k < s.len() ==> #[trigger] s[k] < n,
    ensures
        s.len() <= n,
        s.len() == n ==> forall|x: usize| x < n ==> s.contains(x),
        (forall|x: usize| x < n ==> s.contains(x)) ==> s.len() == n,
{
    broadcast use vstd::set::group_set_axioms;
    broadcast use range_set_properties;

    let r = Set::<usize>::range(0, n);
    s.unique_seq_to_set();
    assert(s.to_set().subset_of(r));
    lemma_len_subset(s.to_set(), r);
    if s.len() == n {
        assert forall|x: usize| x < n implies s.contains(x) by {
            if !s.contains(x) {
                assert(s.to_set().subset_of(r.remove(x)));
                lemma_len_subset(s.to_set(), r.remove(x));
            }
        }
    }
    if forall|x: usize| x < n ==> s.contains(x) {
        assert(r.subset_of(s.to_set()));
        lemma_len_subset(r, s.to_set());
    }
}

} // verus!
