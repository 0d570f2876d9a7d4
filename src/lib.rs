//! Materialises the history of a source package, stored as content-addressed
//! chunks, into a two-chain commit graph, and parses unified-diff patches.
//!
//! The modules hold the decisions of each phase; reading from the network,
//! the local chunk store and the destination repository is left to callers.

pub mod config;
pub mod fetch;
pub mod find_repo;
pub mod history;
pub mod keyed;
pub mod lists;
pub mod patch;
pub mod text;
pub mod tree;

pub use config::Config;
pub use fetch::prefix_of;
pub use find_repo::{find_repos, TempRepo};
pub use lists::outdated;
pub use patch::{parse, Patch};
