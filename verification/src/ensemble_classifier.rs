//! The random forest classifier.
//!
//! Fitting derives one seed per tree, bootstraps a weight vector per tree,
//! and trains the trees in index order, so the ensemble is a deterministic
//! function of the inputs and the master seed. Prediction averages the
//! trees' fixed-point class distributions and decodes the first-maximal
//! class.
use vstd::prelude::*;

use crate::classes_mapping::{strictly_sorted, ClassDecode, ClassesMapping};
use crate::classifier_model::{chunk_of, ClassifierModel};
use crate::classify;
use crate::config::{EnsembleConfig, Metric, NumFeatures, TrainConfig};
use crate::config_builders::{
    CommonConfigBuilder, EnsembleConfigBuilder, EnsembleConfigProvider, TrainConfigProvider,
};
use crate::dataset::Dataset;
use crate::ensemble_trainer::{derive_seeds, draw_bootstrap_weights};
use crate::first_max;
use crate::rng::{rng_from_seed, rng_next_u64};
use crate::splitter::SPLIT_LEN_LIMIT;
use crate::trainer::{chunk_sum, PROBA_SCALE};
use crate::trainset::TrainSpace;

verus! {

/// Configuration for a random forest classifier.
#[derive(Clone, Copy, Debug, PartialEq, Eq, Structural)]
pub struct ClassifierConfig {
    /// The per-tree training options.
    pub train_config: TrainConfig,
    /// The ensemble options.
    pub ensemble_config: EnsembleConfig,
}

impl TrainConfigProvider for ClassifierConfig {
    open spec fn spec_train_config(&self) -> TrainConfig {
        self.train_config
    }

    open spec fn spec_with_train_config(&self, c: TrainConfig) -> Self {
        ClassifierConfig { train_config: c, ensemble_config: self.ensemble_config }
    }

    fn train_config(&self) -> (c: &TrainConfig) {
        &self.train_config
    }

    fn with_train_config(self, c: TrainConfig) -> (r: Self) {
        ClassifierConfig { train_config: c, ensemble_config: self.ensemble_config }
    }
}

impl EnsembleConfigProvider for ClassifierConfig {
    open spec fn spec_ensemble_config(&self) -> EnsembleConfig {
        self.ensemble_config
    }

    open spec fn spec_with_ensemble_config(&self, c: EnsembleConfig) -> Self {
        ClassifierConfig { train_config: self.train_config, ensemble_config: c }
    }

    fn ensemble_config(&self) -> (c: &EnsembleConfig) {
        &self.ensemble_config
    }

    fn with_ensemble_config(self, c: EnsembleConfig) -> (r: Self) {
        ClassifierConfig { train_config: self.train_config, ensemble_config: c }
    }
}

impl CommonConfigBuilder for ClassifierConfig {

}

impl EnsembleConfigBuilder for ClassifierConfig {

}

/// Sum over `models` of entry `j` of the chunk `sample` reaches.
pub open spec fn sum_chunks(models: Seq<ClassifierModel>, sample: Seq<u32>, j: int) -> int
    decreases models.len(),
{
    if models.len() == 0 {
        0
    } else {
        sum_chunks(models.drop_last(), sample, j) + models.last().spec_chunk(sample)[j]
    }
}

/// The averaged fixed-point class distribution of an ensemble for one
/// sample.
pub open spec fn ensemble_chunk(
    models: Seq<ClassifierModel>,
    sample: Seq<u32>,
    kk: int,
) -> Seq<u64> {
    Seq::new(kk as nat, |j: int| (sum_chunks(models, sample, j) / models.len() as int) as u64)
}


/// The per-class sum over an ensemble is between zero and one fixed-point
/// unit per tree.
proof fn lemma_sum_chunks_bound(models: Seq<ClassifierModel>, sample: Seq<u32>, j: int, kk: int)
    requires
        0 <= j < kk,
        forall|t: int|
            0 <= t < models.len() ==> (#[trigger] models[t]).wf() && models[t].spec_num_classes()
                == kk,
    ensures
        0 <= sum_chunks(models, sample, j) <= models.len() * (PROBA_SCALE as int),
    decreases models.len(),
{
    if models.len() > 0 {
        lemma_sum_chunks_bound(models.drop_last(), sample, j, kk);
        crate::classifier_model::lemma_chunk_elem_bound(models.last(), sample, j);
    }
}

/// Sum of the first `c` classes of the chunk `sample` reaches in one tree.
pub open spec fn chunk_prefix(m: ClassifierModel, sample: Seq<u32>, c: int) -> int
    decreases c,
{
    if c <= 0 {
        0
    } else {
        chunk_prefix(m, sample, c - 1) + m.spec_chunk(sample)[c - 1]
    }
}

/// Sum over the first `c` classes of the summed per-tree chunks.
pub open spec fn sum_classes(models: Seq<ClassifierModel>, sample: Seq<u32>, c: int) -> int
    decreases c,
{
    if c <= 0 {
        0
    } else {
        sum_classes(models, sample, c - 1) + sum_chunks(models, sample, c - 1)
    }
}

/// Summing chunks then classes equals summing classes then chunks.
proof fn lemma_sum_classes_split(models: Seq<ClassifierModel>, sample: Seq<u32>, c: int)
    requires
        models.len() >= 1,
        c >= 0,
    ensures
        sum_classes(models, sample, c) == sum_classes(models.drop_last(), sample, c)
            + chunk_prefix(models.last(), sample, c),
    decreases c,
{
    if c > 0 {
        lemma_sum_classes_split(models, sample, c - 1);
    }
}

/// A tree's class prefix sums up to the sum of its leaf chunk.
proof fn lemma_chunk_prefix_total(m: ClassifierModel, sample: Seq<u32>, c: int)
    requires
        m.wf(),
        0 <= c <= m.spec_num_classes(),
    ensures
        chunk_prefix(m, sample, c) == crate::metrics::sum_of(
            m.spec_chunk(sample).take(c).map(|i: int, x: u64| x as int),
        ),
    decreases c,
{
    crate::classifier_model::lemma_chunk_elem_bound(m, sample, 0);
    if c > 0 {
        lemma_chunk_prefix_total(m, sample, c - 1);
        let mapped = m.spec_chunk(sample).take(c).map(|i: int, x: u64| x as int);
        assert(mapped.drop_last() =~= m.spec_chunk(sample).take(c - 1).map(
            |i: int, x: u64| x as int,
        ));
        assert(mapped.last() == m.spec_chunk(sample)[c - 1]);
    }
}

/// Each tree contributes one fixed-point unit to the class sums, up to one
/// rounding step per class.
proof fn lemma_sum_classes_bounds(models: Seq<ClassifierModel>, sample: Seq<u32>, kk: int)
    requires
        kk >= 1,
        forall|t: int|
            0 <= t < models.len() ==> (#[trigger] models[t]).wf() && models[t].spec_num_classes()
                == kk,
    ensures
        models.len() * ((PROBA_SCALE as int) - kk) <= sum_classes(models, sample, kk)
            <= models.len() * (PROBA_SCALE as int),
    decreases models.len(),
{
    if models.len() == 0 {
        lemma_sum_classes_zero(models, sample, kk);
    } else {
        let m = models.last();
        lemma_sum_classes_bounds(models.drop_last(), sample, kk);
        lemma_sum_classes_split(models, sample, kk);
        lemma_chunk_prefix_total(m, sample, kk);
        // the tree's whole leaf chunk is its table chunk, whose sum the
        // normalization invariant bounds
        let leaf = crate::decision_tree::spec_decide(m.spec_tree().spec_nodes(), sample, 0) as int;
        let plen = m.spec_proba().len() as int;
        assert(plen / kk >= 1) by (nonlinear_arith)
            requires
                plen >= kk,
                kk >= 1,
        {}
        crate::decision_tree::lemma_decide_below(m.spec_tree().spec_nodes(), sample, 0, plen / kk);
        vstd::arithmetic::div_mod::lemma_fundamental_div_mod(plen, kk);
        assert(0 <= leaf * kk && (leaf + 1) * kk <= plen && leaf * kk + kk == (leaf + 1) * kk) by (
        nonlinear_arith)
            requires
                0 <= leaf,
                leaf + 1 <= plen / kk,
                plen % kk == 0,
                kk >= 1,
                plen == kk * (plen / kk) + plen % kk,
        {}
        assert(m.spec_chunk(sample).take(kk) =~= m.spec_chunk(sample));
        assert(m.spec_chunk(sample).map(|i: int, x: u64| x as int) =~= m.spec_proba().subrange(
            leaf * kk,
            (leaf + 1) * kk,
        ).map(|i: int, x: u64| x as int));
        assert(crate::trainer::chunk_sum(m.spec_proba(), leaf, kk) == chunk_prefix(m, sample, kk));
        assert(0 <= leaf < plen / kk);
        assert((PROBA_SCALE as int) - kk <= chunk_prefix(m, sample, kk) <= PROBA_SCALE as int);
        let t0 = models.drop_last().len() as int;
        assert((t0 + 1) * ((PROBA_SCALE as int) - kk) == t0 * ((PROBA_SCALE as int) - kk) + ((
        PROBA_SCALE as int) - kk) && (t0 + 1) * (PROBA_SCALE as int) == t0 * (PROBA_SCALE as int)
            + (PROBA_SCALE as int)) by (nonlinear_arith);
    }
}

proof fn lemma_sum_classes_zero(models: Seq<ClassifierModel>, sample: Seq<u32>, c: int)
    requires
        models.len() == 0,
        c >= 0,
    ensures
        sum_classes(models, sample, c) == 0,
    decreases c,
{
    if c > 0 {
        lemma_sum_classes_zero(models, sample, c - 1);
    }
}

/// The averaged chunk's prefix sums divide the class sums with at most one
/// rounding step per class.
proof fn lemma_avg_prefix(
    models: Seq<ClassifierModel>,
    sample: Seq<u32>,
    avg: Seq<u64>,
    kk: int,
    c: int,
)
    requires
        1 <= models.len(),
        avg.len() == kk,
        0 <= c <= kk,
        forall|c2: int|
            0 <= c2 < kk ==> #[trigger] avg[c2] == sum_chunks(models, sample, c2)
                / models.len() as int,
        forall|c2: int| 0 <= c2 < kk ==> 0 <= #[trigger] sum_chunks(models, sample, c2),
    ensures
        models.len() * crate::metrics::sum_of(avg.take(c).map(|i: int, x: u64| x as int))
            <= sum_classes(models, sample, c),
        sum_classes(models, sample, c) <= models.len() * crate::metrics::sum_of(
            avg.take(c).map(|i: int, x: u64| x as int),
        ) + models.len() * c,
    decreases c,
{
    let tn = models.len() as int;
    if c == 0 {
        assert(avg.take(0).map(|i: int, x: u64| x as int) =~= Seq::<int>::empty());
        assert(tn * 0 == 0) by (nonlinear_arith);
    } else {
        lemma_avg_prefix(models, sample, avg, kk, c - 1);
        let mapped = avg.take(c).map(|i: int, x: u64| x as int);
        assert(mapped.drop_last() =~= avg.take(c - 1).map(|i: int, x: u64| x as int));
        assert(mapped.last() == avg[c - 1]);
        let sc = sum_chunks(models, sample, c - 1);
        let q = avg[c - 1] as int;
        vstd::arithmetic::div_mod::lemma_fundamental_div_mod(sc, tn);
        let pre = crate::metrics::sum_of(avg.take(c - 1).map(|i: int, x: u64| x as int));
        assert(tn * (pre + q) <= sum_classes(models, sample, c) && sum_classes(models, sample, c)
            <= tn * (pre + q) + tn * c) by (nonlinear_arith)
            requires
                tn >= 1,
                sum_classes(models, sample, c) == sum_classes(models, sample, c - 1) + sc,
                tn * pre <= sum_classes(models, sample, c - 1),
                sum_classes(models, sample, c - 1) <= tn * pre + tn * (c - 1),
                sc == tn * q + sc % tn,
                0 <= sc % tn < tn,
                q == sc / tn,
        {}
    }
}

/// A random forest classifier.
#[derive(Clone)]
pub struct Classifier {
    ensemble: Vec<ClassifierModel>,
    classes_map: ClassesMapping,
}

impl Classifier {
    /// The trained trees.
    pub closed spec fn spec_models(&self) -> Seq<ClassifierModel> {
        self.ensemble@
    }

    /// The label table.
    pub closed spec fn spec_labels(&self) -> Seq<i64> {
        self.classes_map.table()
    }

    /// The feature count predictions expect.
    pub open spec fn spec_num_features(&self) -> int {
        self.spec_models()[0].spec_num_features()
    }

    /// The number of classes.
    pub open spec fn spec_num_classes(&self) -> int {
        self.spec_labels().len() as int
    }

    /// A trained forest: at least one sound tree, all over the same
    /// features and classes, beside a sorted label table.
    pub open spec fn wf(&self) -> bool {
        &&& self.spec_models().len() >= 1
        &&& strictly_sorted(self.spec_labels())
        &&& forall|t: int|
            0 <= t < self.spec_models().len() ==> (#[trigger] self.spec_models()[t]).wf()
                && self.spec_models()[t].spec_num_features() == self.spec_num_features()
                && self.spec_models()[t].spec_num_classes() == self.spec_num_classes()
    }

    /// The label the forest predicts for a sample: the label of the
    /// first-maximal class of the averaged leaf distributions.
    pub open spec fn spec_predict_label(&self, sample: Seq<u32>) -> i64 {
        self.spec_labels()[first_max(
            ensemble_chunk(self.spec_models(), sample, self.spec_num_classes()),
        )]
    }

    /// Training config filled with default values: 100 trees, one thread,
    /// square-root feature subsets, Gini, seed 42.
    pub fn default_config() -> (r: ClassifierConfig)
        ensures
            r == (ClassifierConfig {
                train_config: TrainConfig {
                    max_depth: usize::MAX,
                    max_features: NumFeatures::SQRT,
                    seed: 42,
                    metric: Metric::GINI,
                    min_samples_leaf: 1,
                    min_samples_split: 2,
                },
                ensemble_config: EnsembleConfig { num_trees: 100, num_threads: 1 },
            }),
    {
        ClassifierConfig {
            train_config: TrainConfig {
                max_depth: usize::MAX,
                max_features: NumFeatures::SQRT,
                seed: 42,
                metric: Metric::GINI,
                min_samples_leaf: 1,
                min_samples_split: 2,
            },
            ensemble_config: EnsembleConfig { num_trees: 100, num_threads: 1 },
        }
    }

    /// Trains a random forest classifier on row-major data.
    pub fn fit(data: &Vec<u32>, labels: &Vec<i64>, conf: &ClassifierConfig) -> (r: Classifier)
        requires
            1 <= labels@.len() <= SPLIT_LEN_LIMIT,
            data@.len() % labels@.len() == 0,
            1 <= data@.len() / labels@.len() <= 0xFFFF,
            conf.train_config.metric == Metric::GINI,
            1 <= conf.train_config.min_samples_leaf <= SPLIT_LEN_LIMIT,
            1 <= conf.ensemble_config.num_trees <= 0x7FFF_FFFF,
        ensures
            r.wf(),
            r.spec_models().len() == conf.ensemble_config.num_trees,
            r.spec_num_features() == data@.len() as int / labels@.len() as int,
            forall|v: i64| r.spec_labels().contains(v) <==> labels@.contains(v),
    {
        let n = labels.len();
        let ds = Dataset::with_transposed(data, n);
        let (classes_map, codes) = ClassesMapping::with_encode(labels);
        let kk = classes_map.num_classes();
        proof {
            assert(labels@.contains(labels@[0]));
            assert(classes_map.table().contains(labels@[0]));
            assert(kk >= 1);
            assert forall|k: int| 0 <= k < n implies #[trigger] codes@[k] < kk by {
                assert(classes_map.table()[codes@[k] as int] == labels@[k]);
            }
        }
        let num_trees = conf.ensemble_config.num_trees;
        let seeds = derive_seeds(conf.train_config.seed, num_trees);
        let mut ensemble: Vec<ClassifierModel> = Vec::new();
        let mut id: usize = 0;
        while id < num_trees
            invariant
                ds.wf(),
                1 <= ds.spec_num_features() <= 0xFFFF,
                ds.spec_size() == n,
                1 <= n == labels@.len() <= SPLIT_LEN_LIMIT,
                codes@.len() == n,
                forall|k: int| 0 <= k < n ==> #[trigger] codes@[k] < kk,
                1 <= kk <= n,
                kk == classes_map.table().len(),
                seeds@.len() == num_trees,
                conf.train_config.metric == Metric::GINI,
                1 <= conf.train_config.min_samples_leaf <= SPLIT_LEN_LIMIT,
                id <= num_trees,
                ensemble@.len() == id,
                forall|t: int|
                    0 <= t < id ==> (#[trigger] ensemble@[t]).wf()
                        && ensemble@[t].spec_num_features() == ds.spec_num_features()
                        && ensemble@[t].spec_num_classes() == kk,
            decreases num_trees - id,
        {
            let mut tree_rng = rng_from_seed(seeds[id]);
            let weights = draw_bootstrap_weights(&mut tree_rng, n);
            let mut samples: Vec<u32> = Vec::new();
            let mut targets: Vec<u32> = Vec::new();
            let mut i: usize = 0;
            while i < n
                invariant
                    n == labels@.len() <= SPLIT_LEN_LIMIT,
                    codes@.len() == n,
                    weights@.len() == n,
                    forall|k: int| 0 <= k < n ==> #[trigger] codes@[k] < kk,
                    forall|k: int| 0 <= k < n ==> #[trigger] weights@[k] <= 15,
                    1 <= kk <= n,
                    i <= n,
                    samples@.len() == targets@.len() <= i,
                    forall|k: int| 0 <= k < samples@.len() ==> #[trigger] samples@[k] < n,
                    forall|k: int|
                        0 <= k < targets@.len() ==> 1 <= (#[trigger] targets@[k]) % 16 <= 15
                            && targets@[k] / 16 < kk,
                    (exists|k: int| 0 <= k < i && #[trigger] weights@[k] > 0) ==> samples@.len()
                        >= 1,
                decreases n - i,
            {
                let w = weights[i];
                if w > 0 {
                    let code = codes[i];
                    let packed = code * 16 + w;
                    proof {
                        assert(packed % 16 == w && packed / 16 == code) by (nonlinear_arith)
                            requires
                                packed == code * 16 + w,
                                code >= 0,
                                1 <= w <= 15,
                        {}
                    }
                    samples.push(i as u32);
                    targets.push(packed);
                }
                i = i + 1;
            }
            proof {
                // the bootstrap keeps at least one sample
                let k0 = choose|k: int| 0 <= k < n && #[trigger] weights@[k] > 0;
                assert(samples@.len() >= 1);
            }
            let mut tree_conf = conf.train_config;
            tree_conf.seed = rng_next_u64(&mut tree_rng);
            let mut space = TrainSpace { samples, targets };
            let model = ClassifierModel::train(&ds, &mut space, kk, &tree_conf);
            ensemble.push(model);
            id = id + 1;
        }
        Classifier { ensemble, classes_map }
    }

    /// The averaged fixed-point class distributions of every row.
    pub fn proba(&self, dataset: &Vec<u32>) -> (r: Vec<u64>)
        requires
            self.wf(),
            dataset@.len() as int % self.spec_num_features() == 0,
            (dataset@.len() as int / self.spec_num_features()) * self.spec_num_classes()
                <= usize::MAX,
            self.spec_models().len() <= 0x7FFF_FFFF,
        ensures
            ({
                let kk = self.spec_num_classes();
                let rows = dataset@.len() as int / self.spec_num_features();
                &&& r@.len() == rows * kk
                &&& forall|i: int, j: int|
                    0 <= i < rows && 0 <= j < kk ==> #[trigger] r@[i * kk + j] == ensemble_chunk(
                        self.spec_models(),
                        dataset@.subrange(
                            i * self.spec_num_features(),
                            (i + 1) * self.spec_num_features(),
                        ),
                        kk,
                    )[j]
                &&& forall|i: int|
                    0 <= i < rows ==> (PROBA_SCALE as int) - 2 * kk <= #[trigger] chunk_sum(
                        r@,
                        i,
                        kk,
                    ) <= PROBA_SCALE
            }),
    {
        let ff = self.ensemble[0].num_features();
        let kk = self.ensemble[0].num_classes();
        let num_trees = self.ensemble.len();
        let rows = dataset.len() / ff;
        proof {
            vstd::arithmetic::div_mod::lemma_fundamental_div_mod(
                dataset@.len() as int,
                ff as int,
            );
            assert(dataset@.len() as int == (rows as int) * (ff as int)) by (nonlinear_arith)
                requires
                    dataset@.len() as int == (ff as int) * (rows as int),
            {}
        }
        let total = rows * kk;
        let mut acc: Vec<u64> = Vec::new();
        let mut z: usize = 0;
        while z < total
            invariant
                z <= total,
                acc@.len() == z,
                forall|x: int| 0 <= x < z ==> #[trigger] acc@[x] == 0,
            decreases total - z,
        {
            acc.push(0);
            z = z + 1;
        }
        proof {
            assert forall|i: int, j: int|
                0 <= i < rows && 0 <= j < kk implies #[trigger] acc@[i * (kk as int) + j]
                == sum_chunks(
                self.spec_models().take(0),
                dataset@.subrange(i * ff as int, (i + 1) * ff as int),
                j,
            ) by {
                assert(0 <= i * (kk as int) + j < total) by (nonlinear_arith)
                    requires
                        0 <= i < rows,
                        0 <= j < kk,
                        total == rows * kk,
                {}
            }
        }
        let mut t: usize = 0;
        while t < num_trees
            invariant
                self.wf(),
                ff == self.spec_num_features(),
                kk == self.spec_num_classes(),
                num_trees == self.spec_models().len() <= 0x7FFF_FFFF,
                dataset@.len() == rows * ff,
                rows * kk <= usize::MAX,
                total == rows * kk,
                t <= num_trees,
                acc@.len() == total,
                forall|i: int, j: int|
                    0 <= i < rows && 0 <= j < kk ==> #[trigger] acc@[i * (kk as int) + j]
                        == sum_chunks(
                        self.spec_models().take(t as int),
                        dataset@.subrange(i * ff as int, (i + 1) * ff as int),
                        j,
                    ),
            decreases num_trees - t,
        {
            let model = &self.ensemble[t];
            let p = model.predict(dataset, rows);
            let ghost pre_acc = acc@;
            proof {
                assert forall|y: int|
                    0 <= y < total implies #[trigger] pre_acc[y] + p@[y] < 0x8000_0000_0000_0000u64
                    by {
                    vstd::arithmetic::div_mod::lemma_fundamental_div_mod(y, kk as int);
                    vstd::arithmetic::div_mod::lemma_multiply_divide_lt(y, kk as int, rows as int);
                    vstd::arithmetic::div_mod::lemma_mod_bound(y, kk as int);
                    let i = y / (kk as int);
                    let j = y % (kk as int);
                    assert(y == i * (kk as int) + j) by (nonlinear_arith)
                        requires
                            y == (kk as int) * i + j,
                    {}
                    let row = dataset@.subrange(i * ff as int, (i + 1) * ff as int);
                    lemma_sum_chunks_bound(
                        self.spec_models().take(t as int),
                        row,
                        j,
                        kk as int,
                    );
                    crate::classifier_model::lemma_chunk_elem_bound(
                        self.spec_models()[t as int],
                        row,
                        j,
                    );
                    assert(0 <= i * (kk as int) && (i + 1) * (kk as int) <= total && i * (
                    kk as int) + (kk as int) == (i + 1) * (kk as int)) by (nonlinear_arith)
                        requires
                            0 <= i < rows,
                            0 <= j < kk,
                            total == rows * kk,
                    {}
                    assert(chunk_of(p@, i, kk as int)[j] == p@[i * (kk as int) + j]);
                    assert(chunk_of(p@, i, kk as int)[j] == p@[y]);
                    assert(self.spec_models().take(t as int).len() * (PROBA_SCALE as int)
                        <= 0x7FFF_FFFF * (PROBA_SCALE as int)) by (nonlinear_arith)
                        requires
                            self.spec_models().take(t as int).len() <= 0x7FFF_FFFF,
                    {}
                }
            }
            let mut x: usize = 0;
            while x < total
                invariant
                    x <= total == acc@.len() == pre_acc.len(),
                    p@.len() == total,
                    forall|y: int| 0 <= y < x ==> #[trigger] acc@[y] == pre_acc[y] + p@[y],
                    forall|y: int| x <= y < total ==> #[trigger] acc@[y] == pre_acc[y],
                    forall|y: int|
                        0 <= y < total ==> #[trigger] pre_acc[y] + p@[y]
                            < 0x8000_0000_0000_0000u64,
                decreases total - x,
            {
                let v = acc[x] + p[x];
                acc.set(x, v);
                x = x + 1;
            }
            proof {
                assert forall|i: int, j: int|
                    0 <= i < rows && 0 <= j < kk implies #[trigger] acc@[i * (kk as int) + j]
                    == sum_chunks(
                    self.spec_models().take(t + 1),
                    dataset@.subrange(i * ff as int, (i + 1) * ff as int),
                    j,
                ) by {
                    let row = dataset@.subrange(i * ff as int, (i + 1) * ff as int);
                    let x = i * (kk as int) + j;
                    assert(0 <= x < total && 0 <= i * (kk as int) && (i + 1) * (kk as int)
                        <= total && i * (kk as int) + (kk as int) == (i + 1) * (kk as int)) by (
                    nonlinear_arith)
                        requires
                            x == i * (kk as int) + j,
                            0 <= i < rows,
                            0 <= j < kk,
                            total == rows * kk,
                    {}
                    assert(self.spec_models().take(t + 1).drop_last() =~= self.spec_models().take(
                        t as int,
                    ));
                    assert(self.spec_models().take(t + 1).last() == self.spec_models()[t as int]);
                    assert(chunk_of(p@, i, kk as int) == self.spec_models()[t as int].spec_chunk(
                        row,
                    ));
                    assert(p@[x] == chunk_of(p@, i, kk as int)[j]);
                }
            }
            t = t + 1;
        }
        proof {
            assert(self.spec_models().take(num_trees as int) =~= self.spec_models());
        }
        let mut r: Vec<u64> = Vec::new();
        let mut x: usize = 0;
        while x < total
            invariant
                self.wf(),
                ff == self.spec_num_features(),
                kk == self.spec_num_classes(),
                num_trees == self.spec_models().len(),
                dataset@.len() == rows * ff,
                total == rows * kk,
                acc@.len() == total,
                forall|i: int, j: int|
                    0 <= i < rows && 0 <= j < kk ==> #[trigger] acc@[i * (kk as int) + j]
                        == sum_chunks(
                        self.spec_models(),
                        dataset@.subrange(i * ff as int, (i + 1) * ff as int),
                        j,
                    ),
                x <= total,
                r@.len() == x,
                forall|y: int| 0 <= y < x ==> #[trigger] r@[y] == acc@[y] / (num_trees as u64),
            decreases total - x,
        {
            r.push(acc[x] / (num_trees as u64));
            x = x + 1;
        }
        proof {
            assert forall|i: int, j: int|
                0 <= i < rows && 0 <= j < kk implies #[trigger] r@[i * (kk as int) + j]
                == ensemble_chunk(
                self.spec_models(),
                dataset@.subrange(i * ff as int, (i + 1) * ff as int),
                kk as int,
            )[j] by {
                let x = i * (kk as int) + j;
                assert(0 <= x < total) by (nonlinear_arith)
                    requires
                        x == i * (kk as int) + j,
                        0 <= i < rows,
                        0 <= j < kk,
                        total == rows * kk,
                {}
            }
            let models = self.spec_models();
            let tn = models.len() as int;
            let kv = kk as int;
            assert forall|i: int|
                0 <= i < rows implies (PROBA_SCALE as int) - 2 * kv <= #[trigger] chunk_sum(
                r@,
                i,
                kv,
            ) <= PROBA_SCALE by {
                let row = dataset@.subrange(i * ff as int, (i + 1) * ff as int);
                let avg = ensemble_chunk(models, row, kv);
                assert(0 <= i * kv && (i + 1) * kv <= r@.len() && i * kv + kv == (i + 1) * kv) by (
                nonlinear_arith)
                    requires
                        0 <= i < rows,
                        kv >= 1,
                        r@.len() == rows * kv,
                {}
                assert forall|c2: int|
                    0 <= c2 < kv implies 0 <= #[trigger] sum_chunks(models, row, c2) <= tn * (
                PROBA_SCALE as int) by {
                    lemma_sum_chunks_bound(models, row, c2, kv);
                }
                assert forall|c2: int|
                    0 <= c2 < kv implies #[trigger] avg[c2] == sum_chunks(models, row, c2)
                    / tn by {
                    assert(sum_chunks(models, row, c2) / tn <= tn * (PROBA_SCALE as int)) by (
                    nonlinear_arith)
                        requires
                            0 <= sum_chunks(models, row, c2) <= tn * (PROBA_SCALE as int),
                            tn >= 1,
                    {}
                }
                assert forall|j: int|
                    0 <= j < kv implies r@.subrange(i * kv, (i + 1) * kv)[j] == #[trigger] avg[j]
                    by {
                    assert(r@[i * kv + j] == ensemble_chunk(models, row, kv)[j]);
                }
                assert(r@.subrange(i * kv, (i + 1) * kv) =~= avg);
                assert(avg.take(kv) =~= avg);
                lemma_sum_classes_bounds(models, row, kv);
                lemma_avg_prefix(models, row, avg, kv, kv);
                let sa = crate::metrics::sum_of(avg.map(|i2: int, x: u64| x as int));
                assert(avg.take(kv).map(|i2: int, x: u64| x as int) =~= avg.map(
                    |i2: int, x: u64| x as int,
                ));
                assert((PROBA_SCALE as int) - 2 * kv <= sa <= PROBA_SCALE) by (nonlinear_arith)
                    requires
                        tn >= 1,
                        kv >= 1,
                        tn * sa <= sum_classes(models, row, kv),
                        sum_classes(models, row, kv) <= tn * sa + tn * kv,
                        tn * ((PROBA_SCALE as int) - kv) <= sum_classes(models, row, kv),
                        sum_classes(models, row, kv) <= tn * (PROBA_SCALE as int),
                {}
                assert(chunk_sum(r@, i, kv) == sa);
            }
        }
        r
    }

    /// Predicts the labels of a row-major matrix of samples.
    pub fn predict(&self, dataset: &Vec<u32>) -> (r: Vec<i64>)
        requires
            self.wf(),
            dataset@.len() as int % self.spec_num_features() == 0,
            (dataset@.len() as int / self.spec_num_features()) * self.spec_num_classes()
                <= usize::MAX,
            self.spec_models().len() <= 0x7FFF_FFFF,
        ensures
            r@.len() == dataset@.len() as int / self.spec_num_features(),
            forall|i: int|
                0 <= i < r@.len() ==> #[trigger] r@[i] == self.spec_predict_label(
                    dataset@.subrange(
                        i * self.spec_num_features(),
                        (i + 1) * self.spec_num_features(),
                    ),
                ),
    {
        let ff = self.ensemble[0].num_features();
        let kk = self.ensemble[0].num_classes();
        let rows = dataset.len() / ff;
        let proba = self.proba(dataset);
        proof {
            vstd::arithmetic::div_mod::lemma_mod_multiples_basic(rows as int, kk as int);
            vstd::arithmetic::div_mod::lemma_div_multiples_vanish(rows as int, kk as int);
            assert(proba@.len() as int == (rows as int) * (kk as int) && proba@.len() as int == (
            kk as int) * (rows as int)) by (nonlinear_arith)
                requires
                    proba@.len() == rows * kk,
            {}
            assert(proba@.len() as int % (kk as int) == 0);
            assert(proba@.len() as int / (kk as int) == rows);
        }
        let labels = classify(&proba, &self.classes_map);
        proof {
            assert forall|i: int|
                0 <= i < labels@.len() implies #[trigger] labels@[i] == self.spec_predict_label(
                dataset@.subrange(i * ff as int, (i + 1) * ff as int),
            ) by {
                let row = dataset@.subrange(i * ff as int, (i + 1) * ff as int);
                assert(0 <= i * (kk as int) && (i + 1) * (kk as int) <= proba@.len() && i * (
                kk as int) + (kk as int) == (i + 1) * (kk as int)) by (nonlinear_arith)
                    requires
                        0 <= i < proba@.len() as int / (kk as int),
                        proba@.len() == (proba@.len() as int / (kk as int)) * (kk as int),
                        kk >= 1,
                {}
                assert forall|j: int|
                    0 <= j < kk implies chunk_of(proba@, i, kk as int)[j] == ensemble_chunk(
                    self.spec_models(),
                    row,
                    kk as int,
                )[j] by {
                    assert(chunk_of(proba@, i, kk as int)[j] == proba@[i * (kk as int) + j]);
                }
                assert(chunk_of(proba@, i, kk as int) =~= ensemble_chunk(
                    self.spec_models(),
                    row,
                    kk as int,
                ));
            }
        }
        labels
    }

    /// Predicts the label of a single sample of `num_features()` keys.
    pub fn predict_one(&self, sample: &Vec<u32>) -> (r: i64)
        requires
            self.wf(),
            sample@.len() == self.spec_num_features(),
            self.spec_num_classes() <= usize::MAX,
            self.spec_models().len() <= 0x7FFF_FFFF,
        ensures
            r == self.spec_predict_label(sample@),
    {
        proof {
            let ff = self.spec_num_features();
            vstd::arithmetic::div_mod::lemma_mod_multiples_basic(1, ff);
            vstd::arithmetic::div_mod::lemma_div_multiples_vanish(1, ff);
            assert(sample@.len() as int == 1 * ff) by (nonlinear_arith)
                requires
                    sample@.len() == ff,
            {}
            assert(sample@.len() as int / ff == 1 && sample@.len() as int % ff == 0);
        }
        let labels = self.predict(sample);
        proof {
            let ff = self.spec_num_features();
            assert(sample@.subrange(0, ff) =~= sample@);
        }
        labels[0]
    }

    /// The feature count predictions expect.
    pub fn num_features(&self) -> (n: usize)
        requires
            self.wf(),
        ensures
            n == self.spec_num_features(),
    {
        self.ensemble[0].num_features()
    }
}

impl ClassDecode for Classifier {
    open spec fn spec_table(&self) -> Seq<i64> {
        self.spec_labels()
    }

    fn get_decode_table(&self) -> (r: &Vec<i64>) {
        self.classes_map.get_decode_table()
    }
}

} // verus!
