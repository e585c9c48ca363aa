//! A trained classification tree: the decision tree plus its leaf
//! probability table.
use vstd::prelude::*;

use crate::config::{Metric, TrainConfig};
use crate::dataset::Dataset;
use crate::decision_tree::{lemma_decide_below, spec_decide, DecisionTree};
use crate::splitter::{g_items_ok, g_mass, g_total, GItem, SPLIT_LEN_LIMIT};
use crate::trainer::{
    chunks_ok, fit_tree, leaf_close_reason, packed_ok, ranges_disjoint, record_matches_space,
    records_len_sum, LeafRecord, PROBA_SCALE,
};
use crate::trainset::TrainSpace;

verus! {

/// The `leaf`-th length-`kk` chunk of `p`.
pub open spec fn chunk_of(p: Seq<u64>, leaf: int, kk: int) -> Seq<u64> {
    p.subrange(leaf * kk, (leaf + 1) * kk)
}

/// A classification tree model. Prediction descends the tree and reads the
/// leaf's fixed-point class distribution from the table.
#[derive(Clone)]
pub struct ClassifierModel {
    proba: Vec<u64>,
    num_classes: usize,
    tree: DecisionTree,
    leaf_records: Ghost<Seq<LeafRecord<GItem>>>,
}

impl ClassifierModel {
    /// The leaf probability table.
    pub closed spec fn spec_proba(&self) -> Seq<u64> {
        self.proba@
    }

    /// What each leaf was closed over: its rows' sample ids and weighted
    /// class codes, its range of the training space, and its depth.
    pub closed spec fn spec_leaf_records(&self) -> Seq<LeafRecord<GItem>> {
        self.leaf_records@
    }

    /// The batch of weighted class codes each leaf was closed over.
    pub open spec fn spec_leaf_items(&self) -> Seq<Seq<GItem>> {
        Seq::new(self.spec_leaf_records().len(), |k: int| self.spec_leaf_records()[k].items)
    }

    /// The number of classes.
    pub closed spec fn spec_num_classes(&self) -> int {
        self.num_classes as int
    }

    /// The tree.
    pub closed spec fn spec_tree(&self) -> DecisionTree {
        self.tree
    }

    /// The feature count predictions expect.
    pub open spec fn spec_num_features(&self) -> int {
        self.spec_tree().spec_num_features()
    }

    /// The chunk a sample's prediction reads.
    pub open spec fn spec_chunk(&self, sample: Seq<u32>) -> Seq<u64> {
        chunk_of(
            self.spec_proba(),
            spec_decide(self.spec_tree().spec_nodes(), sample, 0) as int,
            self.spec_num_classes(),
        )
    }

    /// A trained model: a sound tree whose every leaf value indexes one
    /// normalized chunk of the table.
    pub open spec fn wf(&self) -> bool {
        &&& 1 <= self.spec_num_classes()
        &&& 1 <= self.spec_num_features()
        &&& self.spec_tree().wf()
        &&& self.spec_tree().spec_nodes().len() >= 1
        &&& self.spec_proba().len() as int % self.spec_num_classes() == 0
        &&& self.spec_proba().len() >= self.spec_num_classes()
        &&& chunks_ok(self.spec_proba(), self.spec_num_classes())
        &&& self.spec_tree().leaves_below(
            self.spec_proba().len() as int / self.spec_num_classes(),
        )
        &&& self.spec_leaf_records().len() == self.spec_proba().len() as int
            / self.spec_num_classes()
        &&& forall|k: int|
            0 <= k < self.spec_leaf_records().len() ==> g_items_ok(
                (#[trigger] self.spec_leaf_records()[k]).items,
                self.spec_num_classes(),
            ) && self.spec_leaf_records()[k].items.len() >= 1 && (forall|c: int|
                0 <= c < self.spec_num_classes() ==> self.spec_proba()[k * self.spec_num_classes()
                    + c] == (g_mass(self.spec_leaf_records()[k].items, c) * (PROBA_SCALE as int))
                    / g_total(self.spec_leaf_records()[k].items))
    }

    /// The number of classes.
    pub fn num_classes(&self) -> (n: usize)
        ensures
            n == self.spec_num_classes(),
    {
        self.num_classes
    }

    /// The feature count predictions expect.
    pub fn num_features(&self) -> (n: usize)
        ensures
            n == self.spec_num_features(),
    {
        self.tree.num_features()
    }

    /// Trains a tree on the training space with the Gini metric.
    pub fn train(
        dataset: &Dataset,
        space: &mut TrainSpace<u32>,
        num_classes: usize,
        conf: &TrainConfig,
    ) -> (r: ClassifierModel)
        requires
            dataset.wf(),
            1 <= dataset.spec_num_features() <= 0xFFFF,
            old(space).wf(dataset.spec_size()),
            1 <= old(space).samples@.len() <= SPLIT_LEN_LIMIT,
            packed_ok(old(space).targets@, num_classes as int),
            1 <= num_classes < 0x1000_0000,
            1 <= conf.min_samples_leaf <= SPLIT_LEN_LIMIT,
            conf.metric == Metric::GINI,
        ensures
            r.wf(),
            r.spec_num_classes() == num_classes,
            r.spec_num_features() == dataset.spec_num_features(),
            // the leaves' rows are exactly the contiguous ranges of the
            // final training space, they partition it, and each leaf was
            // closed only for one of the stopping rule's reasons
            forall|k: int|
                0 <= k < r.spec_leaf_records().len() ==> record_matches_space(
                    #[trigger] r.spec_leaf_records()[k],
                    final(space).samples@,
                    final(space).targets@,
                ) && leaf_close_reason(
                    *dataset,
                    r.spec_leaf_records()[k],
                    *conf,
                    num_classes as nat,
                    conf.min_samples_leaf as int,
                ),
            forall|a: int, b: int|
                0 <= a < b < r.spec_leaf_records().len() ==> ranges_disjoint(
                    (#[trigger] r.spec_leaf_records()[a]).lo,
                    r.spec_leaf_records()[a].hi,
                    (#[trigger] r.spec_leaf_records()[b]).lo,
                    r.spec_leaf_records()[b].hi,
                ),
            records_len_sum(r.spec_leaf_records()) == old(space).samples@.len(),
            crate::trainset::zip_pairs(
                final(space).samples@,
                final(space).targets@,
            ).to_multiset() == crate::trainset::zip_pairs(
                old(space).samples@,
                old(space).targets@,
            ).to_multiset(),
    {
        let (tree, proba, leaf_records) = fit_tree(dataset, space, num_classes, conf);
        ClassifierModel { proba, num_classes, tree, leaf_records }
    }

    /// The fixed-point class distribution of the leaf `sample` reaches.
    pub fn predict_one(&self, sample: &Vec<u32>) -> (r: Vec<u64>)
        requires
            self.wf(),
            sample@.len() == self.spec_num_features(),
        ensures
            r@ == self.spec_chunk(sample@),
            r@.len() == self.spec_num_classes(),
            // the returned chunk is the normalized class distribution of
            // the reached leaf's recorded training items
            ({
                let leaf = spec_decide(self.spec_tree().spec_nodes(), sample@, 0) as int;
                forall|c: int|
                    0 <= c < self.spec_num_classes() ==> #[trigger] r@[c] == (g_mass(
                        self.spec_leaf_records()[leaf].items,
                        c,
                    ) * (PROBA_SCALE as int)) / g_total(self.spec_leaf_records()[leaf].items)
            }),
    {
        let kk = self.num_classes;
        let plen = self.proba.len();
        let leaf = self.tree.predict(sample) as usize;
        proof {
            assert(plen as int / (kk as int) >= 1) by (nonlinear_arith)
                requires
                    plen >= kk,
                    kk >= 1,
            {}
            lemma_decide_below(
                self.spec_tree().spec_nodes(),
                sample@,
                0,
                self.spec_proba().len() as int / (kk as int),
            );
            assert((leaf + 1) * (kk as int) <= plen) by (nonlinear_arith)
                requires
                    leaf + 1 <= plen as int / (kk as int),
                    plen as int % (kk as int) == 0,
                    kk >= 1,
            {}
            assert(0 <= leaf * (kk as int)) by (nonlinear_arith)
                requires
                    leaf >= 0,
                    kk >= 1,
            {}
            assert(leaf * (kk as int) + kk == (leaf + 1) * (kk as int)) by (nonlinear_arith);
        }
        let start = leaf * kk;
        let mut r: Vec<u64> = Vec::new();
        let mut c: usize = 0;
        while c < kk
            invariant
                self.wf(),
                kk == self.spec_num_classes(),
                start == leaf * kk,
                start + kk <= plen,
                plen == self.spec_proba().len(),
                c <= kk,
                r@.len() == c,
                forall|j: int| 0 <= j < c ==> #[trigger] r@[j] == self.spec_proba()[start + j],
            decreases kk - c,
        {
            r.push(self.proba[start + c]);
            c = c + 1;
        }
        proof {
            assert(r@ =~= chunk_of(self.spec_proba(), leaf as int, kk as int));
        }
        r
    }

    /// The concatenated class distributions of every row of a row-major
    /// matrix.
    pub fn predict(&self, data: &Vec<u32>, num_rows: usize) -> (r: Vec<u64>)
        requires
            self.wf(),
            data@.len() == num_rows * self.spec_num_features(),
            num_rows * self.spec_num_classes() <= usize::MAX,
        ensures
            r@.len() == num_rows * self.spec_num_classes(),
            forall|i: int|
                0 <= i < num_rows ==> #[trigger] chunk_of(r@, i, self.spec_num_classes())
                    == self.spec_chunk(
                    data@.subrange(
                        i * self.spec_num_features(),
                        (i + 1) * self.spec_num_features(),
                    ),
                ),
    {
        let ff = self.tree.num_features();
        let kk = self.num_classes;
        let dlen = data.len();
        let mut r: Vec<u64> = Vec::new();
        let mut i: usize = 0;
        while i < num_rows
            invariant
                self.wf(),
                ff == self.spec_num_features(),
                kk == self.spec_num_classes(),
                dlen == data@.len(),
                data@.len() == num_rows * ff,
                num_rows * kk <= usize::MAX,
                i <= num_rows,
                r@.len() == i * kk,
                forall|j: int|
                    0 <= j < i ==> #[trigger] chunk_of(r@, j, kk as int) == self.spec_chunk(
                        data@.subrange(j * ff, (j + 1) * ff),
                    ),
            decreases num_rows - i,
        {
            proof {
                assert((i + 1) * ff <= num_rows * ff && 0 <= i * ff && i * ff + ff == (i + 1)
                    * ff) by (nonlinear_arith)
                    requires
                        0 <= i < num_rows,
                        ff >= 1,
                {}
                assert(i * ff + ff <= dlen);
                assert(i * kk + kk == (i + 1) * kk && (i + 1) * kk <= num_rows * kk) by (
                nonlinear_arith)
                    requires
                        0 <= i < num_rows,
                        kk >= 1,
                {}
            }
            let mut row: Vec<u32> = Vec::new();
            let mut t: usize = 0;
            let base = i * ff;
            while t < ff
                invariant
                    dlen == data@.len(),
                    base + ff <= dlen,
                    t <= ff,
                    row@.len() == t,
                    forall|j: int| 0 <= j < t ==> #[trigger] row@[j] == data@[base + j],
                decreases ff - t,
            {
                row.push(data[base + t]);
                t = t + 1;
            }
            proof {
                assert(row@ =~= data@.subrange(i * ff as int, (i + 1) * ff as int));
            }
            let chunk = self.predict_one(&row);
            let ghost pre_r = r@;
            let mut cc: usize = 0;
            while cc < kk
                invariant
                    cc <= kk == chunk@.len(),
                    r@.len() == pre_r.len() + cc,
                    forall|j: int| 0 <= j < pre_r.len() ==> #[trigger] r@[j] == pre_r[j],
                    forall|j: int|
                        0 <= j < cc ==> #[trigger] r@[pre_r.len() + j] == chunk@[j],
                decreases kk - cc,
            {
                r.push(chunk[cc]);
                cc = cc + 1;
            }
            proof {
                assert(pre_r.len() == i * kk as int);
                assert forall|j: int| 0 <= j < kk implies r@[pre_r.len() + j] == chunk@[j] by {}
                assert(chunk_of(r@, i as int, kk as int) =~= chunk@);
                assert forall|j: int|
                    0 <= j < i implies #[trigger] chunk_of(r@, j, kk as int) == self.spec_chunk(
                    data@.subrange(j * ff as int, (j + 1) * ff as int),
                ) by {
                    assert(0 <= j * kk && (j + 1) * kk <= pre_r.len() && j * kk + kk == (j + 1)
                        * kk) by (nonlinear_arith)
                        requires
                            0 <= j < i,
                            pre_r.len() == i * (kk as int),
                            kk >= 1,
                    {}
                    assert forall|t: int|
                        0 <= t < kk implies #[trigger] r@[j * (kk as int) + t] == pre_r[j * (
                        kk as int) + t] by {
                        assert(0 <= j * (kk as int) + t < pre_r.len());
                    }
                    assert(chunk_of(r@, j, kk as int) =~= chunk_of(pre_r, j, kk as int));
                }
            }
            i = i + 1;
        }
        r
    }
}


/// Every stored probability is at most one fixed-point unit.
pub proof fn lemma_chunk_elem_bound(m: ClassifierModel, sample: Seq<u32>, j: int)
    requires
        m.wf(),
        0 <= j < m.spec_num_classes(),
    ensures
        m.spec_chunk(sample).len() == m.spec_num_classes(),
        0 <= m.spec_chunk(sample)[j] <= crate::trainer::PROBA_SCALE,
{
    let kk = m.spec_num_classes();
    let plen = m.spec_proba().len() as int;
    let leaf = spec_decide(m.spec_tree().spec_nodes(), sample, 0) as int;
    assert(plen / kk >= 1) by (nonlinear_arith)
        requires
            plen >= kk,
            kk >= 1,
    {}
    lemma_decide_below(m.spec_tree().spec_nodes(), sample, 0, plen / kk);
    vstd::arithmetic::div_mod::lemma_fundamental_div_mod(plen, kk);
    assert(0 <= leaf * kk && (leaf + 1) * kk <= plen && leaf * kk + kk == (leaf + 1) * kk) by (
    nonlinear_arith)
        requires
            0 <= leaf,
            leaf + 1 <= plen / kk,
            plen % kk == 0,
            kk >= 1,
            plen == kk * (plen / kk) + plen % kk,
    {}
    let chunk = m.spec_chunk(sample);
    let mapped = m.spec_proba().subrange(leaf * kk, (leaf + 1) * kk).map(
        |i: int, x: u64| x as int,
    );
    assert(0 <= leaf < plen / kk);
    assert(crate::trainer::chunk_sum(m.spec_proba(), leaf, kk) <= crate::trainer::PROBA_SCALE);
    crate::metrics::lemma_sum_bounds(mapped, j);
    assert(chunk[j] == mapped[j]);
}

} // verus!
