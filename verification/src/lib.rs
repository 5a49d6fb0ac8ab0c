use vstd::prelude::*;

pub mod cache_manager;
pub mod codec;
pub mod indexing_service;
pub mod inverted_index;
pub mod line_access;
pub mod ngram_index;
pub mod ngram_utils;
pub mod token_utils;

verus! {

/// Width in bytes of every n-gram window.
pub const NGRAM_SIZE: usize = 3;

} // verus!