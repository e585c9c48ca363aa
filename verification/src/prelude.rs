//! The traits a user brings into scope for the builder style and decoding.
pub use crate::classes_mapping::ClassDecode;
pub use crate::config_builders::ClassifierConfigBuilder;
pub use crate::config_builders::CommonConfigBuilder;
pub use crate::config_builders::EnsembleConfigBuilder;
pub use crate::config_builders::EnsembleConfigProvider;
pub use crate::config_builders::RegressorConfigBuilder;
pub use crate::config_builders::TrainConfigProvider;
