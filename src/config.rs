//! Settings shared by the commands.
use vstd::prelude::*;

verus! {

#[verifier::external_type_specification]
#[verifier::external_body]
pub struct ExPathBuf(std::path::PathBuf);

/// The mirror that serves the chunk stores and the list of sources.
pub const DEFAULT_MIRROR: &'static str = "https://deb-casync.goeswhere.com/";

/// The name of this tool's directories under the user's base directories.
pub const CACHE_PREFIX: &'static str = "mid";

/// The version of the layout of the cache, a directory under its root.
pub const CACHE_LAYOUT: &'static str = "1";

pub struct Config {
    /// Where fetched chunks and lists are kept.
    pub cache_root: std::path::PathBuf,
    /// The base URL of the mirror.
    pub casync_mirror: String,
}

} // verus!
