use vstd::prelude::*;

pub mod assets;
pub mod builder;
pub mod compress;
pub mod decompress;
pub mod byte_order;
pub mod dictionary;
pub mod dictionary_builder;
pub mod error;
pub mod mode;
pub mod nbest;
pub mod sorting;
pub mod space_penalty;
pub mod text;
pub mod trainer;
pub mod util;
pub mod viterbi;

verus! {

/// Results of this library.
pub type LinderaResult<T> = Result<T, crate::error::LinderaError>;

/// Returns the crate version string.
pub fn get_version() -> (r: &'static str)
    ensures
        r@ == "0.1.0"@,
{
    "0.1.0"
}

} // verus!
