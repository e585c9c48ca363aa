//! Builder traits shared by the classifier and regressor configurations.
//!
//! The builders consume and return the configuration value, so a chain of
//! `with_...` calls reads the same as the usual builder style while every
//! step has an exact contract: each step returns
//! `spec_with_train_config`/`spec_with_ensemble_config` of the updated part,
//! and the implementing type's open definition of those spec functions says
//! that nothing else changes.
use vstd::prelude::*;

use crate::config::{EnsembleConfig, Metric, NumFeatures, TrainConfig};

verus! {

/// Access to the tree-training part of a configuration.
pub trait TrainConfigProvider: Sized {
    /// The tree-training configuration this value carries.
    spec fn spec_train_config(&self) -> TrainConfig;

    /// The same value with its tree-training configuration replaced.
    spec fn spec_with_train_config(&self, c: TrainConfig) -> Self;

    /// Reads the tree-training configuration.
    fn train_config(&self) -> (c: &TrainConfig)
        ensures
            *c == self.spec_train_config(),
    ;

    /// Replaces the tree-training configuration, leaving the rest unchanged.
    fn with_train_config(self, c: TrainConfig) -> (r: Self)
        ensures
            r == self.spec_with_train_config(c),
            r.spec_train_config() == c,
    ;
}

/// Builder steps every tree kind shares.
pub trait CommonConfigBuilder: TrainConfigProvider {
    /// Sets the maximal tree depth.
    fn with_max_depth(self, n: usize) -> (r: Self)
        ensures
            r == self.spec_with_train_config(
                (TrainConfig { max_depth: n, ..self.spec_train_config() }),
            ),
    {
        let mut c = *self.train_config();
        c.max_depth = n;
        self.with_train_config(c)
    }

    /// Sets the seed for feature-subset and bootstrap randomness.
    fn with_seed(self, seed: u64) -> (r: Self)
        ensures
            r == self.spec_with_train_config(
                (TrainConfig { seed, ..self.spec_train_config() }),
            ),
    {
        let mut c = *self.train_config();
        c.seed = seed;
        self.with_train_config(c)
    }

    /// Sets the number of features to consider in each split.
    fn with_max_features(self, max_features: NumFeatures) -> (r: Self)
        ensures
            r == self.spec_with_train_config(
                (TrainConfig { max_features, ..self.spec_train_config() }),
            ),
    {
        let mut c = *self.train_config();
        c.max_features = max_features;
        self.with_train_config(c)
    }

    /// Sets the minimal number of samples a split candidate node must hold.
    fn with_min_samples_split(self, num_samples: usize) -> (r: Self)
        ensures
            r == self.spec_with_train_config(
                (TrainConfig { min_samples_split: num_samples, ..self.spec_train_config() }),
            ),
    {
        let mut c = *self.train_config();
        c.min_samples_split = num_samples;
        self.with_train_config(c)
    }

    /// Sets the least number of sample slots a leaf must keep.
    fn with_min_samples_leaf(self, num_samples: usize) -> (r: Self)
        ensures
            r == self.spec_with_train_config(
                (TrainConfig { min_samples_leaf: num_samples, ..self.spec_train_config() }),
            ),
    {
        let mut c = *self.train_config();
        c.min_samples_leaf = num_samples;
        self.with_train_config(c)
    }
}

/// Builder step for classifiers.
pub trait ClassifierConfigBuilder: TrainConfigProvider {
    /// Sets the metric to the Gini index.
    fn with_gini(self) -> (r: Self)
        ensures
            r == self.spec_with_train_config(
                (TrainConfig { metric: Metric::GINI, ..self.spec_train_config() }),
            ),
    {
        let mut c = *self.train_config();
        c.metric = Metric::GINI;
        self.with_train_config(c)
    }
}

/// Builder step for regressors.
pub trait RegressorConfigBuilder: TrainConfigProvider {
    /// Sets the metric to MSE.
    fn with_mse(self) -> (r: Self)
        ensures
            r == self.spec_with_train_config(
                (TrainConfig { metric: Metric::MSE, ..self.spec_train_config() }),
            ),
    {
        let mut c = *self.train_config();
        c.metric = Metric::MSE;
        self.with_train_config(c)
    }
}

/// Access to the ensemble part of a configuration.
pub trait EnsembleConfigProvider: Sized {
    /// The ensemble configuration this value carries.
    spec fn spec_ensemble_config(&self) -> EnsembleConfig;

    /// The same value with its ensemble configuration replaced.
    spec fn spec_with_ensemble_config(&self, c: EnsembleConfig) -> Self;

    /// Reads the ensemble configuration.
    fn ensemble_config(&self) -> (c: &EnsembleConfig)
        ensures
            *c == self.spec_ensemble_config(),
    ;

    /// Replaces the ensemble configuration, leaving the rest unchanged.
    fn with_ensemble_config(self, c: EnsembleConfig) -> (r: Self)
        ensures
            r == self.spec_with_ensemble_config(c),
            r.spec_ensemble_config() == c,
    ;
}

/// Builder steps for ensembles.
pub trait EnsembleConfigBuilder: EnsembleConfigProvider + CommonConfigBuilder {
    /// Sets the number of threads a parallel runner may use.
    fn with_threads(self, n: usize) -> (r: Self)
        ensures
            r == self.spec_with_ensemble_config(
                (EnsembleConfig { num_threads: n, ..self.spec_ensemble_config() }),
            ),
    {
        let mut c = *self.ensemble_config();
        c.num_threads = n;
        self.with_ensemble_config(c)
    }

    /// Sets the number of trees in the ensemble.
    fn with_trees(self, n: usize) -> (r: Self)
        ensures
            r == self.spec_with_ensemble_config(
                (EnsembleConfig { num_trees: n, ..self.spec_ensemble_config() }),
            ),
    {
        let mut c = *self.ensemble_config();
        c.num_trees = n;
        self.with_ensemble_config(c)
    }
}

} // verus!
