//! The index of labelled references and the search for a query's nearest neighbours.

pub mod build;
pub mod counting;
pub mod format;
pub mod geometry;
pub mod knn;
pub mod laws;
pub mod layout;
pub mod partition_scheme;
pub mod partition_set;
pub mod predict;
pub mod references;
pub mod route;
pub mod search;
pub mod sort;
pub mod specialist;
pub mod store;
pub mod trail;
pub mod tree;

pub use partition_set::PartitionSet;
pub use specialist::IndexMetadata;
pub use specialist::SearchMode;
pub use specialist::SearchSettings;
pub use specialist::SpecialistIndex;
pub use tree::SearchStats;
