//! The single-tree regressor over fixed-point targets.
use vstd::prelude::*;

use crate::config::{Metric, NumFeatures, TrainConfig};
use crate::config_builders::{CommonConfigBuilder, RegressorConfigBuilder, TrainConfigProvider};
use crate::dataset::Dataset;
use crate::metrics::TARGET_LIMIT;
use crate::regressor_model::RegressorModel;
use crate::splitter::MSE_LEN_LIMIT;
use crate::trainset::TrainSpace;
use crate::weightable::WeightedTarget;

verus! {

/// A training configuration for a tree regressor.
#[derive(Clone, Copy, Debug, PartialEq, Eq, Structural)]
pub struct RegressorConfig {
    /// The tree-training options.
    pub config: TrainConfig,
}

impl TrainConfigProvider for RegressorConfig {
    open spec fn spec_train_config(&self) -> TrainConfig {
        self.config
    }

    open spec fn spec_with_train_config(&self, c: TrainConfig) -> Self {
        RegressorConfig { config: c }
    }

    fn train_config(&self) -> (c: &TrainConfig) {
        &self.config
    }

    fn with_train_config(self, c: TrainConfig) -> (r: Self) {
        RegressorConfig { config: c }
    }
}

impl CommonConfigBuilder for RegressorConfig {

}

impl RegressorConfigBuilder for RegressorConfig {

}

/// A regression tree.
#[derive(Clone)]
pub struct Regressor {
    regressor: RegressorModel,
}

impl Regressor {
    /// The trained tree model.
    pub closed spec fn spec_model(&self) -> RegressorModel {
        self.regressor
    }

    /// The feature count predictions expect.
    pub open spec fn spec_num_features(&self) -> int {
        self.spec_model().spec_num_features()
    }

    /// A trained regressor.
    pub open spec fn wf(&self) -> bool {
        self.spec_model().wf()
    }

    /// The fixed-point value this tree predicts for a sample.
    pub open spec fn spec_predict_value(&self, sample: Seq<u32>) -> i64 {
        self.spec_model().spec_predict(sample)
    }

    /// Training config filled with default values: unlimited depth, all
    /// features, MSE, seed 42.
    pub fn default_config() -> (r: RegressorConfig)
        ensures
            r.config == (TrainConfig {
                max_depth: usize::MAX,
                max_features: NumFeatures::NUMBER(usize::MAX),
                seed: 42,
                metric: Metric::MSE,
                min_samples_leaf: 1,
                min_samples_split: 2,
            }),
    {
        RegressorConfig {
            config: TrainConfig {
                max_depth: usize::MAX,
                max_features: NumFeatures::NUMBER(usize::MAX),
                seed: 42,
                metric: Metric::MSE,
                min_samples_leaf: 1,
                min_samples_split: 2,
            },
        }
    }

    /// Trains a regression tree on row-major data with fixed-point targets.
    pub fn fit(data: &Vec<u32>, targets: &Vec<i64>, config: &RegressorConfig) -> (r: Regressor)
        requires
            1 <= targets@.len() <= MSE_LEN_LIMIT,
            data@.len() % targets@.len() == 0,
            1 <= data@.len() / targets@.len() <= 0xFFFF,
            forall|k: int|
                0 <= k < targets@.len() ==> -(TARGET_LIMIT as int) <= #[trigger] targets@[k]
                    <= TARGET_LIMIT,
            config.config.metric == Metric::MSE,
            1 <= config.config.min_samples_leaf <= MSE_LEN_LIMIT,
        ensures
            r.wf(),
            r.spec_num_features() == data@.len() as int / targets@.len() as int,
    {
        let n = targets.len();
        let ds = Dataset::with_transposed(data, n);
        let mut samples: Vec<u32> = Vec::new();
        let mut wt: Vec<WeightedTarget> = Vec::new();
        let mut i: usize = 0;
        while i < n
            invariant
                n == targets@.len() <= MSE_LEN_LIMIT,
                forall|k: int|
                    0 <= k < n ==> -(TARGET_LIMIT as int) <= #[trigger] targets@[k]
                        <= TARGET_LIMIT,
                i <= n,
                samples@.len() == i,
                wt@.len() == i,
                forall|k: int| 0 <= k < i ==> #[trigger] samples@[k] == k,
                forall|k: int|
                    0 <= k < i ==> 1 <= (#[trigger] wt@[k]).weight <= 15 && -(TARGET_LIMIT as int)
                        <= wt@[k].target <= TARGET_LIMIT,
            decreases n - i,
        {
            samples.push(i as u32);
            wt.push(WeightedTarget { target: targets[i], weight: 1 });
            i = i + 1;
        }
        let mut space = TrainSpace { samples, targets: wt };
        let model = RegressorModel::train(&ds, &mut space, &config.config);
        Regressor { regressor: model }
    }

    /// Predicts the fixed-point values of a row-major matrix of samples.
    pub fn predict(&self, dataset: &Vec<u32>) -> (r: Vec<i64>)
        requires
            self.wf(),
            dataset@.len() as int % self.spec_num_features() == 0,
        ensures
            r@.len() == dataset@.len() as int / self.spec_num_features(),
            forall|i: int|
                0 <= i < r@.len() ==> #[trigger] r@[i] == self.spec_predict_value(
                    dataset@.subrange(
                        i * self.spec_num_features(),
                        (i + 1) * self.spec_num_features(),
                    ),
                ),
    {
        let ff = self.regressor.num_features();
        let rows = dataset.len() / ff;
        proof {
            vstd::arithmetic::div_mod::lemma_fundamental_div_mod(
                dataset@.len() as int,
                ff as int,
            );
            assert(dataset@.len() as int == (rows as int) * (ff as int)) by (nonlinear_arith)
                requires
                    dataset@.len() as int == (ff as int) * (rows as int),
            {}
        }
        self.regressor.predict(dataset, rows)
    }

    /// Predicts the fixed-point value of a single sample.
    pub fn predict_one(&self, sample: &Vec<u32>) -> (r: i64)
        requires
            self.wf(),
            sample@.len() == self.spec_num_features(),
        ensures
            r == self.spec_predict_value(sample@),
    {
        self.regressor.predict_one(sample)
    }

    /// The feature count predictions expect.
    pub fn num_features(&self) -> (n: usize)
        ensures
            n == self.spec_num_features(),
    {
        self.regressor.num_features()
    }
}

} // verus!
