//! Near-duplicate image grouping: a union-find over inserted values, the
//! grouping of perceptual hashes by Hamming distance, a memoizing cache, a
//! registry of keyed background tasks and the arithmetic of scan progress.

pub mod disjoint_set;
pub mod equality;
pub mod grouping;
pub mod partition;
pub mod hash;
pub mod request;
pub mod similarity;
pub mod table;
pub mod cache;
pub mod manager;
pub mod analyzer;
pub mod listing;
