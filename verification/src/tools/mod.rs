//! What the command-line tools compute.

pub mod entries;
pub mod evaluate;
pub mod info;
pub mod labels;
pub mod laws;
pub mod locality;
pub mod measure;
