//! Single decision trees.
pub use crate::tree_classifier::Classifier;
pub use crate::tree_classifier::ClassifierConfig;
pub use crate::tree_regressor::Regressor;
pub use crate::tree_regressor::RegressorConfig;
