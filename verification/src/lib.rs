//! Pruning and publishing for a self-hosted Nix binary cache.

pub mod binary_cache;
pub mod byte_set;
pub mod cli;
pub mod closure_cache;
pub mod dep_scan;
pub mod gcroots;
pub mod lock;
pub mod path;
pub mod progress;
pub mod protocol;
pub mod prune;
pub mod publish;
pub mod store_hash;
pub mod text;
pub mod with_lock;
pub mod writer;
