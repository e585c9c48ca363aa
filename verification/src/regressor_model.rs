//! A trained regression tree: the decision tree plus its leaf value table.
use vstd::prelude::*;

use crate::config::{Metric, TrainConfig};
use crate::dataset::Dataset;
use crate::decision_tree::{lemma_decide_below, spec_decide, DecisionTree};
use crate::metrics::TARGET_LIMIT;
use crate::ratio::div_toward_zero;
use crate::reg_trainer::{fit_reg_tree, m_leaf_close_reason, m_record_matches_space, wt_ok};
use crate::splitter::{m_items_ok, m_sum, m_total, MItem, MSE_LEN_LIMIT};
use crate::trainer::{ranges_disjoint, records_len_sum, LeafRecord};
use crate::trainset::TrainSpace;
use crate::weightable::WeightedTarget;

verus! {

/// A regression tree model. Prediction descends the tree and reads the
/// leaf's fixed-point mean from the value table.
#[derive(Clone)]
pub struct RegressorModel {
    values: Vec<i64>,
    tree: DecisionTree,
    leaf_records: Ghost<Seq<LeafRecord<MItem>>>,
}

impl RegressorModel {
    /// The leaf value table.
    pub closed spec fn spec_values(&self) -> Seq<i64> {
        self.values@
    }

    /// What each leaf was closed over: its rows' sample ids and weighted
    /// targets, its range of the training space, and its depth.
    pub closed spec fn spec_leaf_records(&self) -> Seq<LeafRecord<MItem>> {
        self.leaf_records@
    }

    /// The batch of weighted training targets each leaf was closed over.
    pub open spec fn spec_leaf_items(&self) -> Seq<Seq<MItem>> {
        Seq::new(self.spec_leaf_records().len(), |k: int| self.spec_leaf_records()[k].items)
    }

    /// The tree.
    pub closed spec fn spec_tree(&self) -> DecisionTree {
        self.tree
    }

    /// The feature count predictions expect.
    pub open spec fn spec_num_features(&self) -> int {
        self.spec_tree().spec_num_features()
    }

    /// The fixed-point value a sample's prediction reads.
    pub open spec fn spec_predict(&self, sample: Seq<u32>) -> i64 {
        self.spec_values()[spec_decide(self.spec_tree().spec_nodes(), sample, 0) as int]
    }

    /// A trained model: a sound tree whose every leaf value indexes the
    /// table of in-range means.
    pub open spec fn wf(&self) -> bool {
        &&& 1 <= self.spec_num_features()
        &&& self.spec_tree().wf()
        &&& self.spec_tree().spec_nodes().len() >= 1
        &&& self.spec_values().len() >= 1
        &&& self.spec_tree().leaves_below(self.spec_values().len() as int)
        &&& forall|k: int|
            0 <= k < self.spec_values().len() ==> -(TARGET_LIMIT as int)
                <= #[trigger] self.spec_values()[k] <= TARGET_LIMIT
        &&& self.spec_leaf_records().len() == self.spec_values().len()
        &&& forall|k: int|
            0 <= k < self.spec_values().len() ==> m_items_ok(
                (#[trigger] self.spec_leaf_records()[k]).items,
            ) && self.spec_leaf_records()[k].items.len() >= 1 && self.spec_values()[k]
                == div_toward_zero(
                m_sum(self.spec_leaf_records()[k].items),
                m_total(self.spec_leaf_records()[k].items),
            )
    }

    /// The feature count predictions expect.
    pub fn num_features(&self) -> (n: usize)
        ensures
            n == self.spec_num_features(),
    {
        self.tree.num_features()
    }

    /// Trains a tree on the training space with the MSE metric.
    pub fn train(dataset: &Dataset, space: &mut TrainSpace<WeightedTarget>, conf: &TrainConfig) -> (r:
        RegressorModel)
        requires
            dataset.wf(),
            1 <= dataset.spec_num_features() <= 0xFFFF,
            old(space).wf(dataset.spec_size()),
            1 <= old(space).samples@.len() <= MSE_LEN_LIMIT,
            wt_ok(old(space).targets@),
            1 <= conf.min_samples_leaf <= MSE_LEN_LIMIT,
            conf.metric == Metric::MSE,
        ensures
            r.wf(),
            r.spec_num_features() == dataset.spec_num_features(),
            // the leaves' rows are exactly the contiguous ranges of the
            // final training space, they partition it, and each leaf was
            // closed only for one of the stopping rule's reasons
            forall|k: int|
                0 <= k < r.spec_leaf_records().len() ==> m_record_matches_space(
                    #[trigger] r.spec_leaf_records()[k],
                    final(space).samples@,
                    final(space).targets@,
                ) && m_leaf_close_reason(
                    *dataset,
                    r.spec_leaf_records()[k],
                    *conf,
                    conf.min_samples_leaf as int,
                ),
            forall|a: int, b: int|
                0 <= a < b < r.spec_leaf_records().len() ==> ranges_disjoint(
                    (#[trigger] r.spec_leaf_records()[a]).lo,
                    r.spec_leaf_records()[a].hi,
                    (#[trigger] r.spec_leaf_records()[b]).lo,
                    r.spec_leaf_records()[b].hi,
                ),
            records_len_sum(r.spec_leaf_records()) == old(space).samples@.len(),
            crate::trainset::zip_pairs(
                final(space).samples@,
                final(space).targets@,
            ).to_multiset() == crate::trainset::zip_pairs(
                old(space).samples@,
                old(space).targets@,
            ).to_multiset(),
    {
        let (tree, values, leaf_records) = fit_reg_tree(dataset, space, conf);
        RegressorModel { values, tree, leaf_records }
    }

    /// The fixed-point mean of the leaf `sample` reaches.
    pub fn predict_one(&self, sample: &Vec<u32>) -> (r: i64)
        requires
            self.wf(),
            sample@.len() == self.spec_num_features(),
        ensures
            r == self.spec_predict(sample@),
            -(TARGET_LIMIT as int) <= r <= TARGET_LIMIT,
            // the prediction is the weighted mean of the reached leaf's
            // recorded training targets
            ({
                let leaf = spec_decide(self.spec_tree().spec_nodes(), sample@, 0) as int;
                r == div_toward_zero(
                    m_sum(self.spec_leaf_records()[leaf].items),
                    m_total(self.spec_leaf_records()[leaf].items),
                )
            }),
    {
        let leaf = self.tree.predict(sample) as usize;
        proof {
            lemma_decide_below(
                self.spec_tree().spec_nodes(),
                sample@,
                0,
                self.spec_values().len() as int,
            );
        }
        self.values[leaf]
    }

    /// The fixed-point predictions of every row of a row-major matrix.
    pub fn predict(&self, data: &Vec<u32>, num_rows: usize) -> (r: Vec<i64>)
        requires
            self.wf(),
            data@.len() == num_rows * self.spec_num_features(),
        ensures
            r@.len() == num_rows,
            forall|i: int|
                0 <= i < num_rows ==> #[trigger] r@[i] == self.spec_predict(
                    data@.subrange(
                        i * self.spec_num_features(),
                        (i + 1) * self.spec_num_features(),
                    ),
                ),
            forall|i: int|
                0 <= i < num_rows ==> -(TARGET_LIMIT as int) <= #[trigger] r@[i] <= TARGET_LIMIT,
    {
        let ff = self.tree.num_features();
        let dlen = data.len();
        let mut r: Vec<i64> = Vec::new();
        let mut i: usize = 0;
        while i < num_rows
            invariant
                self.wf(),
                ff == self.spec_num_features(),
                dlen == data@.len(),
                data@.len() == num_rows * ff,
                i <= num_rows,
                r@.len() == i,
                forall|j: int|
                    0 <= j < i ==> #[trigger] r@[j] == self.spec_predict(
                        data@.subrange(j * ff, (j + 1) * ff),
                    ),
                forall|j: int|
                    0 <= j < i ==> -(TARGET_LIMIT as int) <= #[trigger] r@[j] <= TARGET_LIMIT,
            decreases num_rows - i,
        {
            proof {
                assert((i + 1) * ff <= num_rows * ff && 0 <= i * ff && i * ff + ff == (i + 1)
                    * ff) by (nonlinear_arith)
                    requires
                        0 <= i < num_rows,
                        ff >= 1,
                {}
            }
            let base = i * ff;
            let mut row: Vec<u32> = Vec::new();
            let mut t: usize = 0;
            while t < ff
                invariant
                    dlen == data@.len(),
                    base + ff <= dlen,
                    t <= ff,
                    row@.len() == t,
                    forall|j: int| 0 <= j < t ==> #[trigger] row@[j] == data@[base + j],
                decreases ff - t,
            {
                row.push(data[base + t]);
                t = t + 1;
            }
            proof {
                assert(row@ =~= data@.subrange(i * ff as int, (i + 1) * ff as int));
            }
            let v = self.predict_one(&row);
            r.push(v);
            i = i + 1;
        }
        r
    }
}

} // verus!
