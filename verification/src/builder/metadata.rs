//! The builder of `metadata.json`.
use vstd::prelude::*;

verus! {

/// Builds `metadata.json`; writing it is the application's part.
#[derive(Debug, Clone, Copy)]
pub struct MetadataBuilder {}

impl MetadataBuilder {
    /// A metadata builder.
    pub fn new() -> (r: Self) {
        MetadataBuilder {}
    }
}

impl Default for MetadataBuilder {
    /// Same as [`MetadataBuilder::new`].
    fn default() -> (r: Self) {
        MetadataBuilder::new()
    }
}

} // verus!
