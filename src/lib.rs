//! Approximate set-membership filters over sparse integer sets.
//!
//! Three filters share one hashing scheme and one sizing model:
//! a single-bitmap filter, a sliced filter with one set per hash index,
//! and a growing filter made of sliced generations.
//!
//! Probabilities are fixed-point numbers: a value `p` stands for `p / 2^64`.
pub mod hashing;
pub mod key_set;
pub mod scalable_bloom_filter;
pub mod stable_bloom_filter;
pub mod variant_bloom_filter;
pub mod utils;

pub use hashing::{get_hash, HashKey};
pub use scalable_bloom_filter::ScalableBloomFilter;
pub use stable_bloom_filter::StableBloomFilter;
pub use variant_bloom_filter::VariantBloomFilter;
pub use utils::{calculate_best_k, calculate_best_m, BloomError, Rate};
