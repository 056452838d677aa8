use vstd::prelude::*;

pub mod text;
pub mod extractor;
pub mod ranking;
pub mod fuzzy_search;
pub mod fuzzy_data;
pub mod processor;
pub mod config;
pub mod scraper_pool_manager;
pub mod embeddings_search;

verus! {
} // verus!
