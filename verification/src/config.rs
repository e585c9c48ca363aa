//! Configurations for training.
use vstd::prelude::*;

verus! {

/// Split impurity metric: Gini index for classification trees, MSE for
/// regression trees.
#[derive(Clone, Copy, Debug, PartialEq, Eq, Structural)]
pub enum Metric {
    GINI,
    MSE,
}

/// Limiting strategy for the number of features considered at each split.
#[derive(Clone, Copy, Debug, PartialEq, Eq, Structural)]
pub enum NumFeatures {
    /// Takes the integer square root of the total feature count.
    SQRT,
    /// Takes the floor of the base-2 logarithm of the total feature count.
    LOG,
    /// Sets the exact number.
    NUMBER(usize),
}

/// Configuration for training a decision tree.
#[derive(Clone, Copy, Debug, PartialEq, Eq, Structural)]
pub struct TrainConfig {
    /// Max depth of a tree; the root is at depth 0.
    pub max_depth: usize,
    /// Seed for randomizing feature subsets in splits when
    /// `max_features` resolves below the feature count. In ensembles it
    /// also seeds the bootstrap draws.
    pub seed: u64,
    /// Metric of split impurity.
    pub metric: Metric,
    /// Maximum number of features to consider in each split. If the trainer
    /// finds no legal split within that many features, it keeps scanning the
    /// remaining features rather than giving up.
    pub max_features: NumFeatures,
    /// Minimal number of samples in a node that can be split.
    pub min_samples_split: usize,
    /// Forces leaves to hold at least this many sample slots.
    pub min_samples_leaf: usize,
}

/// Configuration for training an ensemble of trees.
#[derive(Clone, Copy, Debug, PartialEq, Eq, Structural)]
pub struct EnsembleConfig {
    /// Number of decision trees in the ensemble.
    pub num_trees: usize,
    /// Number of worker threads a parallel runner may use; the library's own
    /// trainer works tree by tree and ignores it.
    pub num_threads: usize,
}

} // verus!
