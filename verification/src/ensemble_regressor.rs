//! The random forest regressor.
//!
//! Fitting mirrors the classifier forest: one derived seed and one
//! bootstrap per tree, trained in index order. Prediction averages the
//! trees' fixed-point values, rounding the mean toward zero.
use vstd::prelude::*;

use crate::config::{EnsembleConfig, Metric, NumFeatures, TrainConfig};
use crate::config_builders::{
    CommonConfigBuilder, EnsembleConfigBuilder, EnsembleConfigProvider, TrainConfigProvider,
};
use crate::dataset::Dataset;
use crate::ensemble_trainer::{derive_seeds, draw_bootstrap_weights};
use crate::metrics::TARGET_LIMIT;
use crate::ratio::div_toward_zero;
use crate::regressor_model::RegressorModel;
use crate::rng::{rng_from_seed, rng_next_u64};
use crate::splitter::MSE_LEN_LIMIT;
use crate::trainset::TrainSpace;
use crate::weightable::WeightedTarget;

verus! {

/// Configuration for a random forest regressor.
#[derive(Clone, Copy, Debug, PartialEq, Eq, Structural)]
pub struct RegressorConfig {
    /// The per-tree training options.
    pub train_config: TrainConfig,
    /// The ensemble options.
    pub ensemble_config: EnsembleConfig,
}

impl TrainConfigProvider for RegressorConfig {
    open spec fn spec_train_config(&self) -> TrainConfig {
        self.train_config
    }

    open spec fn spec_with_train_config(&self, c: TrainConfig) -> Self {
        RegressorConfig { train_config: c, ensemble_config: self.ensemble_config }
    }

    fn train_config(&self) -> (c: &TrainConfig) {
        &self.train_config
    }

    fn with_train_config(self, c: TrainConfig) -> (r: Self) {
        RegressorConfig { train_config: c, ensemble_config: self.ensemble_config }
    }
}

impl EnsembleConfigProvider for RegressorConfig {
    open spec fn spec_ensemble_config(&self) -> EnsembleConfig {
        self.ensemble_config
    }

    open spec fn spec_with_ensemble_config(&self, c: EnsembleConfig) -> Self {
        RegressorConfig { train_config: self.train_config, ensemble_config: c }
    }

    fn ensemble_config(&self) -> (c: &EnsembleConfig) {
        &self.ensemble_config
    }

    fn with_ensemble_config(self, c: EnsembleConfig) -> (r: Self) {
        RegressorConfig { train_config: self.train_config, ensemble_config: c }
    }
}

impl CommonConfigBuilder for RegressorConfig {

}

impl EnsembleConfigBuilder for RegressorConfig {

}

/// Sum over `models` of the value `sample` reaches.
pub open spec fn sum_values(models: Seq<RegressorModel>, sample: Seq<u32>) -> int
    decreases models.len(),
{
    if models.len() == 0 {
        0
    } else {
        sum_values(models.drop_last(), sample) + models.last().spec_predict(sample)
    }
}

/// A random forest regressor.
#[derive(Clone)]
pub struct Regressor {
    ensemble: Vec<RegressorModel>,
}

impl Regressor {
    /// The trained trees.
    pub closed spec fn spec_models(&self) -> Seq<RegressorModel> {
        self.ensemble@
    }

    /// The feature count predictions expect.
    pub open spec fn spec_num_features(&self) -> int {
        self.spec_models()[0].spec_num_features()
    }

    /// A trained forest: at least one sound tree, all over the same
    /// features.
    pub open spec fn wf(&self) -> bool {
        &&& 1 <= self.spec_models().len() <= 0x7FFF_FFFF
        &&& forall|t: int|
            0 <= t < self.spec_models().len() ==> (#[trigger] self.spec_models()[t]).wf()
                && self.spec_models()[t].spec_num_features() == self.spec_num_features()
    }

    /// The fixed-point value the forest predicts: the mean of the trees'
    /// values, rounded toward zero.
    pub open spec fn spec_predict_value(&self, sample: Seq<u32>) -> int {
        div_toward_zero(sum_values(self.spec_models(), sample), self.spec_models().len() as int)
    }

    /// Training config filled with default values: 100 trees, one thread,
    /// square-root feature subsets, MSE, seed 42.
    pub fn default_config() -> (r: RegressorConfig)
        ensures
            r == (RegressorConfig {
                train_config: TrainConfig {
                    max_depth: usize::MAX,
                    max_features: NumFeatures::SQRT,
                    seed: 42,
                    metric: Metric::MSE,
                    min_samples_leaf: 1,
                    min_samples_split: 2,
                },
                ensemble_config: EnsembleConfig { num_trees: 100, num_threads: 1 },
            }),
    {
        RegressorConfig {
            train_config: TrainConfig {
                max_depth: usize::MAX,
                max_features: NumFeatures::SQRT,
                seed: 42,
                metric: Metric::MSE,
                min_samples_leaf: 1,
                min_samples_split: 2,
            },
            ensemble_config: EnsembleConfig { num_trees: 100, num_threads: 1 },
        }
    }

    /// Trains a random forest regressor on row-major data.
    pub fn fit(data: &Vec<u32>, targets: &Vec<i64>, conf: &RegressorConfig) -> (r: Regressor)
        requires
            1 <= targets@.len() <= MSE_LEN_LIMIT,
            data@.len() % targets@.len() == 0,
            1 <= data@.len() / targets@.len() <= 0xFFFF,
            forall|k: int|
                0 <= k < targets@.len() ==> -(TARGET_LIMIT as int) <= #[trigger] targets@[k]
                    <= TARGET_LIMIT,
            conf.train_config.metric == Metric::MSE,
            1 <= conf.train_config.min_samples_leaf <= MSE_LEN_LIMIT,
            1 <= conf.ensemble_config.num_trees <= 0x7FFF_FFFF,
        ensures
            r.wf(),
            r.spec_models().len() == conf.ensemble_config.num_trees,
            r.spec_num_features() == data@.len() as int / targets@.len() as int,
    {
        let n = targets.len();
        let ds = Dataset::with_transposed(data, n);
        let num_trees = conf.ensemble_config.num_trees;
        let seeds = derive_seeds(conf.train_config.seed, num_trees);
        let mut ensemble: Vec<RegressorModel> = Vec::new();
        let mut id: usize = 0;
        while id < num_trees
            invariant
                ds.wf(),
                1 <= ds.spec_num_features() <= 0xFFFF,
                ds.spec_size() == n,
                1 <= n == targets@.len() <= MSE_LEN_LIMIT,
                forall|k: int|
                    0 <= k < n ==> -(TARGET_LIMIT as int) <= #[trigger] targets@[k]
                        <= TARGET_LIMIT,
                seeds@.len() == num_trees,
                conf.train_config.metric == Metric::MSE,
                1 <= conf.train_config.min_samples_leaf <= MSE_LEN_LIMIT,
                id <= num_trees,
                ensemble@.len() == id,
                forall|t: int|
                    0 <= t < id ==> (#[trigger] ensemble@[t]).wf()
                        && ensemble@[t].spec_num_features() == ds.spec_num_features(),
            decreases num_trees - id,
        {
            let mut tree_rng = rng_from_seed(seeds[id]);
            let weights = draw_bootstrap_weights(&mut tree_rng, n);
            let mut samples: Vec<u32> = Vec::new();
            let mut wt: Vec<WeightedTarget> = Vec::new();
            let mut i: usize = 0;
            while i < n
                invariant
                    n == targets@.len() <= MSE_LEN_LIMIT,
                    weights@.len() == n,
                    forall|k: int| 0 <= k < n ==> #[trigger] weights@[k] <= 15,
                    forall|k: int|
                        0 <= k < n ==> -(TARGET_LIMIT as int) <= #[trigger] targets@[k]
                            <= TARGET_LIMIT,
                    i <= n,
                    samples@.len() == wt@.len() <= i,
                    forall|k: int| 0 <= k < samples@.len() ==> #[trigger] samples@[k] < n,
                    forall|k: int|
                        0 <= k < wt@.len() ==> 1 <= (#[trigger] wt@[k]).weight <= 15 && -(
                        TARGET_LIMIT as int) <= wt@[k].target <= TARGET_LIMIT,
                    (exists|k: int| 0 <= k < i && #[trigger] weights@[k] > 0) ==> samples@.len()
                        >= 1,
                decreases n - i,
            {
                let w = weights[i];
                if w > 0 {
                    samples.push(i as u32);
                    wt.push(WeightedTarget { target: targets[i], weight: w });
                }
                i = i + 1;
            }
            proof {
                // the bootstrap keeps at least one sample
                let k0 = choose|k: int| 0 <= k < n && #[trigger] weights@[k] > 0;
                assert(samples@.len() >= 1);
            }
            let mut tree_conf = conf.train_config;
            tree_conf.seed = rng_next_u64(&mut tree_rng);
            let mut space = TrainSpace { samples, targets: wt };
            let model = RegressorModel::train(&ds, &mut space, &tree_conf);
            ensemble.push(model);
            id = id + 1;
        }
        Regressor { ensemble }
    }

    /// Predicts the fixed-point values of a row-major matrix of samples.
    pub fn predict(&self, dataset: &Vec<u32>) -> (r: Vec<i64>)
        requires
            self.wf(),
            dataset@.len() as int % self.spec_num_features() == 0,
        ensures
            r@.len() == dataset@.len() as int / self.spec_num_features(),
            forall|i: int|
                0 <= i < r@.len() ==> #[trigger] r@[i] == self.spec_predict_value(
                    dataset@.subrange(
                        i * self.spec_num_features(),
                        (i + 1) * self.spec_num_features(),
                    ),
                ),
    {
        let ff = self.ensemble[0].num_features();
        let num_trees = self.ensemble.len();
        let rows = dataset.len() / ff;
        proof {
            vstd::arithmetic::div_mod::lemma_fundamental_div_mod(
                dataset@.len() as int,
                ff as int,
            );
            assert(dataset@.len() as int == (rows as int) * (ff as int)) by (nonlinear_arith)
                requires
                    dataset@.len() as int == (ff as int) * (rows as int),
            {}
        }
        let mut acc: Vec<i64> = Vec::new();
        let mut z: usize = 0;
        while z < rows
            invariant
                z <= rows,
                acc@.len() == z,
                forall|x: int| 0 <= x < z ==> #[trigger] acc@[x] == 0,
            decreases rows - z,
        {
            acc.push(0);
            z = z + 1;
        }
        proof {
            assert forall|i: int|
                0 <= i < rows implies #[trigger] acc@[i] == sum_values(
                self.spec_models().take(0),
                dataset@.subrange(i * ff as int, (i + 1) * ff as int),
            ) by {
                assert(acc@[i] == 0);
            }
        }
        let mut t: usize = 0;
        while t < num_trees
            invariant
                self.wf(),
                ff == self.spec_num_features(),
                num_trees == self.spec_models().len() <= 0x7FFF_FFFF,
                dataset@.len() == rows * ff,
                t <= num_trees,
                acc@.len() == rows,
                forall|i: int|
                    0 <= i < rows ==> #[trigger] acc@[i] == sum_values(
                        self.spec_models().take(t as int),
                        dataset@.subrange(i * ff as int, (i + 1) * ff as int),
                    ),
            decreases num_trees - t,
        {
            let model = &self.ensemble[t];
            let p = model.predict(dataset, rows);
            let ghost pre_acc = acc@;
            proof {
                assert forall|i: int|
                    0 <= i < rows implies -0x4000_0000_0000_0000 < #[trigger] pre_acc[i] + p@[i]
                    < 0x4000_0000_0000_0000 by {
                    let row = dataset@.subrange(i * ff as int, (i + 1) * ff as int);
                    lemma_sum_values_bound(self.spec_models().take(t as int), row);
                    assert(self.spec_models().take(t as int).len() * (TARGET_LIMIT as int)
                        <= 0x7FFF_FFFF * (TARGET_LIMIT as int)) by (nonlinear_arith)
                        requires
                            self.spec_models().take(t as int).len() <= 0x7FFF_FFFF,
                    {}
                }
            }
            let mut x: usize = 0;
            while x < rows
                invariant
                    x <= rows == acc@.len() == pre_acc.len(),
                    p@.len() == rows,
                    forall|y: int| 0 <= y < x ==> #[trigger] acc@[y] == pre_acc[y] + p@[y],
                    forall|y: int| x <= y < rows ==> #[trigger] acc@[y] == pre_acc[y],
                    forall|y: int|
                        0 <= y < rows ==> -0x4000_0000_0000_0000 < #[trigger] pre_acc[y] + p@[y]
                            < 0x4000_0000_0000_0000,
                decreases rows - x,
            {
                let v = acc[x] + p[x];
                acc.set(x, v);
                x = x + 1;
            }
            proof {
                assert forall|i: int|
                    0 <= i < rows implies #[trigger] acc@[i] == sum_values(
                    self.spec_models().take(t + 1),
                    dataset@.subrange(i * ff as int, (i + 1) * ff as int),
                ) by {
                    assert(self.spec_models().take(t + 1).drop_last() =~= self.spec_models().take(
                        t as int,
                    ));
                    assert(self.spec_models().take(t + 1).last() == self.spec_models()[t as int]);
                }
            }
            t = t + 1;
        }
        proof {
            assert(self.spec_models().take(num_trees as int) =~= self.spec_models());
        }
        let mut r: Vec<i64> = Vec::new();
        let mut x: usize = 0;
        while x < rows
            invariant
                self.wf(),
                ff == self.spec_num_features(),
                num_trees == self.spec_models().len(),
                dataset@.len() == rows * ff,
                acc@.len() == rows,
                forall|i: int|
                    0 <= i < rows ==> #[trigger] acc@[i] == sum_values(
                        self.spec_models(),
                        dataset@.subrange(i * ff as int, (i + 1) * ff as int),
                    ),
                x <= rows,
                r@.len() == x,
                forall|y: int|
                    0 <= y < x ==> #[trigger] r@[y] == div_toward_zero(
                        acc@[y] as int,
                        num_trees as int,
                    ),
            decreases rows - x,
        {
            proof {
                let row = dataset@.subrange(x * ff as int, (x + 1) * ff as int);
                lemma_sum_values_bound(self.spec_models(), row);
                assert(self.spec_models().len() * (TARGET_LIMIT as int) <= 0x7FFF_FFFF * (
                TARGET_LIMIT as int)) by (nonlinear_arith)
                    requires
                        self.spec_models().len() <= 0x7FFF_FFFF,
                {}
                assert(acc@[x as int] == sum_values(self.spec_models(), row));
            }
            let s = acc[x];
            let nt = num_trees as u64;
            let v: i64 = if s >= 0 {
                ((s as u64) / nt) as i64
            } else {
                let q = ((-s) as u64) / nt;
                proof {
                    vstd::arithmetic::div_mod::lemma_fundamental_div_mod(
                        (-s) as int,
                        nt as int,
                    );
                    assert(q <= (-s) as int) by (nonlinear_arith)
                        requires
                            (-s) as int == (nt as int) * (q as int) + ((-s) as int) % (nt as int),
                            0 <= ((-s) as int) % (nt as int),
                            nt >= 1,
                            q >= 0,
                    {}
                }
                -(q as i64)
            };
            proof {
                if s >= 0 {
                    vstd::arithmetic::div_mod::lemma_fundamental_div_mod(s as int, nt as int);
                    assert((s as u64) / nt <= s as int) by (nonlinear_arith)
                        requires
                            s as int == (nt as int) * (((s as u64) / nt) as int) + (s as int) % (
                            nt as int),
                            0 <= (s as int) % (nt as int),
                            nt >= 1,
                            ((s as u64) / nt) as int >= 0,
                    {}
                }
            }
            r.push(v);
            x = x + 1;
        }
        r
    }

    /// Predicts the fixed-point value of a single sample.
    pub fn predict_one(&self, sample: &Vec<u32>) -> (r: i64)
        requires
            self.wf(),
            sample@.len() == self.spec_num_features(),
        ensures
            r == self.spec_predict_value(sample@),
    {
        proof {
            let ff = self.spec_num_features();
            vstd::arithmetic::div_mod::lemma_mod_multiples_basic(1, ff);
            vstd::arithmetic::div_mod::lemma_div_multiples_vanish(1, ff);
            assert(sample@.len() as int == 1 * ff) by (nonlinear_arith)
                requires
                    sample@.len() == ff,
            {}
            assert(sample@.len() as int / ff == 1 && sample@.len() as int % ff == 0);
        }
        let values = self.predict(sample);
        proof {
            let ff = self.spec_num_features();
            assert(sample@.subrange(0, ff) =~= sample@);
        }
        values[0]
    }

    /// The feature count predictions expect.
    pub fn num_features(&self) -> (n: usize)
        requires
            self.wf(),
        ensures
            n == self.spec_num_features(),
    {
        self.ensemble[0].num_features()
    }
}

/// The summed tree values stay within one fixed-point range per tree.
proof fn lemma_sum_values_bound(models: Seq<RegressorModel>, sample: Seq<u32>)
    requires
        forall|t: int| 0 <= t < models.len() ==> (#[trigger] models[t]).wf(),
    ensures
        -(models.len() * (TARGET_LIMIT as int)) <= sum_values(models, sample) <= models.len() * (
        TARGET_LIMIT as int),
    decreases models.len(),
{
    if models.len() > 0 {
        lemma_sum_values_bound(models.drop_last(), sample);
        let m = models.last();
        let leaf = crate::decision_tree::spec_decide(m.spec_tree().spec_nodes(), sample, 0) as int;
        crate::decision_tree::lemma_decide_below(
            m.spec_tree().spec_nodes(),
            sample,
            0,
            m.spec_values().len() as int,
        );
        assert(-(TARGET_LIMIT as int) <= m.spec_predict(sample) <= TARGET_LIMIT);
    }
}

} // verus!
