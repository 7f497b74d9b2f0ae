//! Editing the feature lists of one dependency in a Cargo manifest, in place.
pub mod names;
pub mod request;
pub mod features;
pub mod entry;
pub mod manifest;
pub mod edit;
