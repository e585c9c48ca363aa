//! The per-tree training space.
//!
//! Sample indices and their weighted targets live in two vectors of equal
//! length that are always permuted together; a tree node under construction
//! owns a contiguous range of both. `split` partitions a range in place
//! around a feature threshold, so a whole tree is trained in memory linear
//! in the number of samples.
use vstd::prelude::*;
use vstd::seq_lib::lemma_multiset_commutative;

use crate::dataset::Dataset;

verus! {

/// The samples and targets of a range, paired index by index.
pub open spec fn zip_pairs<W>(s: Seq<u32>, t: Seq<W>) -> Seq<(u32, W)> {
    Seq::new(s.len(), |i: int| (s[i], t[i]))
}

/// Swapping two positions of a sequence keeps its multiset of elements.
pub proof fn lemma_swap_to_multiset<A>(s: Seq<A>, a: int, b: int)
    requires
        0 <= a < s.len(),
        0 <= b < s.len(),
    ensures
        s.update(a, s[b]).update(b, s[a]).to_multiset() =~= s.to_multiset(),
{
    broadcast use vstd::multiset::group_multiset_axioms;

    if a == b {
        assert(s.update(a, s[b]).update(b, s[a]) =~= s);
    } else if a < b {
        lemma_swap_to_multiset_ordered(s, a, b);
    } else {
        lemma_swap_to_multiset_ordered(s, b, a);
        assert(s.update(a, s[b]).update(b, s[a]) =~= s.update(b, s[a]).update(a, s[b]));
    }
}

proof fn lemma_swap_to_multiset_ordered<A>(s: Seq<A>, a: int, b: int)
    requires
        0 <= a < b < s.len(),
    ensures
        s.update(a, s[b]).update(b, s[a]).to_multiset() =~= s.to_multiset(),
{
    broadcast use vstd::multiset::group_multiset_axioms;

    let s2 = s.update(a, s[b]).update(b, s[a]);
    let p1 = s.subrange(0, a);
    let x = s[a];
    let p2 = s.subrange(a + 1, b);
    let y = s[b];
    let p3 = s.subrange(b + 1, s.len() as int);
    assert(s =~= p1 + seq![x] + p2 + seq![y] + p3);
    assert(s2 =~= p1 + seq![y] + p2 + seq![x] + p3);
    lemma_multiset_commutative(p1 + seq![x] + p2 + seq![y], p3);
    lemma_multiset_commutative(p1 + seq![x] + p2, seq![y]);
    lemma_multiset_commutative(p1 + seq![x], p2);
    lemma_multiset_commutative(p1, seq![x]);
    lemma_multiset_commutative(p1 + seq![y] + p2 + seq![x], p3);
    lemma_multiset_commutative(p1 + seq![y] + p2, seq![x]);
    lemma_multiset_commutative(p1 + seq![y], p2);
    lemma_multiset_commutative(p1, seq![y]);
    assert(s.to_multiset() =~= s2.to_multiset());
}

/// A sequence rearranged only inside `[lo, hi)`, keeping that part's
/// multiset, keeps its whole multiset.
pub proof fn lemma_multiset_preserved_outside_unchanged<A>(
    s1: Seq<A>,
    s2: Seq<A>,
    lo: int,
    hi: int,
)
    requires
        s1.len() == s2.len(),
        0 <= lo <= hi <= s1.len(),
        forall|k: int| (0 <= k < lo || hi <= k < s1.len()) ==> #[trigger] s1[k] == s2[k],
        s1.subrange(lo, hi).to_multiset() == s2.subrange(lo, hi).to_multiset(),
    ensures
        s1.to_multiset() == s2.to_multiset(),
{
    broadcast use vstd::multiset::group_multiset_axioms;

    let n = s1.len() as int;
    assert(s1 =~= s1.subrange(0, lo) + s1.subrange(lo, hi) + s1.subrange(hi, n));
    assert(s2 =~= s2.subrange(0, lo) + s2.subrange(lo, hi) + s2.subrange(hi, n));
    assert(s1.subrange(0, lo) =~= s2.subrange(0, lo));
    assert(s1.subrange(hi, n) =~= s2.subrange(hi, n));
    lemma_multiset_commutative(s1.subrange(0, lo) + s1.subrange(lo, hi), s1.subrange(hi, n));
    lemma_multiset_commutative(s1.subrange(0, lo), s1.subrange(lo, hi));
    lemma_multiset_commutative(s2.subrange(0, lo) + s2.subrange(lo, hi), s2.subrange(hi, n));
    lemma_multiset_commutative(s2.subrange(0, lo), s2.subrange(lo, hi));
    assert(s1.to_multiset() =~= s2.to_multiset());
}

/// A tree's working set: sample indices into a dataset and their weighted
/// targets, permuted together.
pub struct TrainSpace<W: Copy> {
    /// Sample indices into the dataset.
    pub samples: Vec<u32>,
    /// The weighted target of each sample slot.
    pub targets: Vec<W>,
}

impl<W: Copy> TrainSpace<W> {
    /// Both vectors have the same length and every sample index is a row of
    /// a dataset with `size` rows.
    pub open spec fn wf(&self, size: int) -> bool {
        &&& self.samples@.len() == self.targets@.len()
        &&& forall|k: int| 0 <= k < self.samples@.len() ==> #[trigger] self.samples@[k] < size
    }

    /// Number of sample slots.
    pub fn size(&self) -> (n: usize)
        ensures
            n == self.samples@.len(),
    {
        self.samples.len()
    }

    /// Partitions `[lo, hi)` in place around `threshold` on `feature`:
    /// afterwards the samples of `[lo, r)` have `feature_val <= threshold`
    /// and those of `[r, hi)` have `feature_val > threshold`, the pairs of
    /// the range are rearranged but kept (as a multiset), and nothing
    /// outside the range moves.
    pub fn split(
        &mut self,
        dataset: &Dataset,
        lo: usize,
        hi: usize,
        feature: usize,
        threshold: u32,
    ) -> (r: usize)
        requires
            dataset.wf(),
            old(self).wf(dataset.spec_size()),
            lo <= hi <= old(self).samples@.len(),
            feature < dataset.spec_num_features(),
        ensures
            final(self).wf(dataset.spec_size()),
            final(self).samples@.len() == old(self).samples@.len(),
            final(self).targets@.len() == old(self).targets@.len(),
            lo <= r <= hi,
            forall|k: int|
                (0 <= k < lo || hi <= k < old(self).samples@.len()) ==> final(self).samples@[k]
                    == old(self).samples@[k] && final(self).targets@[k] == old(self).targets@[k],
            zip_pairs(final(self).samples@, final(self).targets@).subrange(
                lo as int,
                hi as int,
            ).to_multiset() == zip_pairs(old(self).samples@, old(self).targets@).subrange(
                lo as int,
                hi as int,
            ).to_multiset(),
            forall|k: int|
                lo <= k < r ==> dataset.spec_val(
                    #[trigger] final(self).samples@[k] as int,
                    feature as int,
                ) <= threshold,
            forall|k: int|
                r <= k < hi ==> dataset.spec_val(
                    #[trigger] final(self).samples@[k] as int,
                    feature as int,
                ) > threshold,
    {
        let ghost orig_zip_sub = zip_pairs(self.samples@, self.targets@).subrange(
            lo as int,
            hi as int,
        );
        let mut i: usize = lo;
        let mut j: usize = hi;
        while i < j
            invariant
                dataset.wf(),
                self.wf(dataset.spec_size()),
                self.samples@.len() == old(self).samples@.len(),
                self.targets@.len() == old(self).targets@.len(),
                lo <= i <= j <= hi <= self.samples@.len(),
                feature < dataset.spec_num_features(),
                forall|k: int|
                    (0 <= k < lo || hi <= k < self.samples@.len()) ==> self.samples@[k] == old(
                        self,
                    ).samples@[k] && self.targets@[k] == old(self).targets@[k],
                zip_pairs(self.samples@, self.targets@).subrange(lo as int, hi as int).to_multiset()
                    == orig_zip_sub.to_multiset(),
                forall|k: int|
                    lo <= k < i ==> dataset.spec_val(
                        #[trigger] self.samples@[k] as int,
                        feature as int,
                    ) <= threshold,
                forall|k: int|
                    j <= k < hi ==> dataset.spec_val(
                        #[trigger] self.samples@[k] as int,
                        feature as int,
                    ) > threshold,
            decreases j - i,
        {
            let sid = self.samples[i];
            if dataset.feature_val(sid as usize, feature) <= threshold {
                i = i + 1;
            } else {
                j = j - 1;
                let ghost pre_s = self.samples@;
                let ghost pre_t = self.targets@;
                let si = self.samples[i];
                let sj = self.samples[j];
                self.samples.set(i, sj);
                self.samples.set(j, si);
                let ti = self.targets[i];
                let tj = self.targets[j];
                self.targets.set(i, tj);
                self.targets.set(j, ti);
                proof {
                    let zpre = zip_pairs(pre_s, pre_t);
                    let zpost = zip_pairs(self.samples@, self.targets@);
                    assert(zpost =~= zpre.update(i as int, zpre[j as int]).update(
                        j as int,
                        zpre[i as int],
                    ));
                    let a = i - lo;
                    let b = j - lo;
                    let zpre_sub = zpre.subrange(lo as int, hi as int);
                    let zpost_sub = zpost.subrange(lo as int, hi as int);
                    assert(zpost_sub =~= zpre_sub.update(a, zpre_sub[b]).update(b, zpre_sub[a]));
                    lemma_swap_to_multiset(zpre_sub, a, b);
                }
            }
        }
        i
    }
}

} // verus!
