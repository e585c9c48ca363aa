//! Random forests.
pub use crate::ensemble_classifier::Classifier;
pub use crate::ensemble_classifier::ClassifierConfig;
pub use crate::ensemble_regressor::Regressor;
pub use crate::ensemble_regressor::RegressorConfig;
