//! Counting elements that satisfy a predicate.
//!
//! The trainer sorts a scratch buffer of a node's rows and partitions the
//! training space separately; these lemmas say that both agree on how many
//! rows fall at or below the chosen threshold, so the splitter's pivot and
//! the partition point are the same number.
use vstd::prelude::*;

verus! {

/// How many elements of `s` satisfy `p`.
pub open spec fn count_matching<A>(s: Seq<A>, p: spec_fn(A) -> bool) -> int
    decreases s.len(),
{
    if s.len() == 0 {
        0
    } else {
        count_matching(s.drop_last(), p) + if p(s.last()) {
            1int
        } else {
            0int
        }
    }
}

/// The count lies between zero and the length.
pub proof fn lemma_count_matching_bounds<A>(s: Seq<A>, p: spec_fn(A) -> bool)
    ensures
        0 <= count_matching(s, p) <= s.len(),
    decreases s.len(),
{
    if s.len() > 0 {
        lemma_count_matching_bounds(s.drop_last(), p);
    }
}

/// When a prefix of length `q` satisfies `p` and the rest does not, the
/// count is exactly `q`.
pub proof fn lemma_count_matching_partitioned<A>(s: Seq<A>, p: spec_fn(A) -> bool, q: int)
    requires
        0 <= q <= s.len(),
        forall|k: int| 0 <= k < q ==> p(#[trigger] s[k]),
        forall|k: int| q <= k < s.len() ==> !p(#[trigger] s[k]),
    ensures
        count_matching(s, p) == q,
    decreases s.len(),
{
    if s.len() > 0 {
        if q == s.len() {
            lemma_count_matching_partitioned(s.drop_last(), p, q - 1);
        } else {
            lemma_count_matching_partitioned(s.drop_last(), p, q);
        }
    }
}

/// Removing one element lowers the count by one exactly when it matched.
pub proof fn lemma_count_matching_remove<A>(s: Seq<A>, p: spec_fn(A) -> bool, i: int)
    requires
        0 <= i < s.len(),
    ensures
        count_matching(s.remove(i), p) == count_matching(s, p) - if p(s[i]) {
            1int
        } else {
            0int
        },
    decreases s.len(),
{
    if i == s.len() - 1 {
        assert(s.remove(i) =~= s.drop_last());
    } else {
        lemma_count_matching_remove(s.drop_last(), p, i);
        assert(s.remove(i).drop_last() =~= s.drop_last().remove(i));
        assert(s.remove(i).last() == s.last());
    }
}

/// Sequences holding the same elements (as a multiset) have equal counts.
pub proof fn lemma_count_matching_multiset<A>(s1: Seq<A>, s2: Seq<A>, p: spec_fn(A) -> bool)
    requires
        s1.to_multiset() == s2.to_multiset(),
    ensures
        count_matching(s1, p) == count_matching(s2, p),
    decreases s1.len(),
{
    broadcast use vstd::seq_lib::group_to_multiset_ensures;

    if s1.len() == 0 {
        assert(s1.to_multiset().len() == 0);
        assert(s2.len() == 0);
    } else {
        let x = s1.last();
        let i1 = s1.len() - 1;
        assert(s1.contains(x));
        assert(s1.to_multiset().count(x) > 0);
        assert(s2.to_multiset().count(x) > 0);
        assert(s2.contains(x));
        let j = choose|j: int| 0 <= j < s2.len() && s2[j] == x;
        assert(s1.remove(i1).to_multiset() =~= s1.to_multiset().remove(x));
        assert(s2.remove(j).to_multiset() =~= s2.to_multiset().remove(x));
        lemma_count_matching_multiset(s1.remove(i1), s2.remove(j), p);
        lemma_count_matching_remove(s1, p, i1);
        lemma_count_matching_remove(s2, p, j);
    }
}

/// Two sequences whose elements satisfy their predicates in lockstep have
/// equal counts.
pub proof fn lemma_count_matching_pointwise<A, B>(
    s1: Seq<A>,
    s2: Seq<B>,
    p: spec_fn(A) -> bool,
    q: spec_fn(B) -> bool,
)
    requires
        s1.len() == s2.len(),
        forall|k: int| 0 <= k < s1.len() ==> (p(#[trigger] s1[k]) <==> q(#[trigger] s2[k])),
    ensures
        count_matching(s1, p) == count_matching(s2, q),
    decreases s1.len(),
{
    if s1.len() > 0 {
        lemma_count_matching_pointwise(s1.drop_last(), s2.drop_last(), p, q);
    }
}

} // verus!
