//! Server and cache configuration, with the defaults the server falls back to.
use vstd::prelude::*;
use vstd::string::*;

verus! {

#[verifier::external_type_specification]
#[verifier::external_body]
pub struct ExPathBuf(std::path::PathBuf);

/// How the server is set up.
pub struct Config {
    /// The address the cache server listens on.
    pub bind_address: String,
    /// The address the metrics for the cache server listens on.
    pub bind_metrics_address: String,
    /// The upstream cache store this cache server sits in front of, as a URL.
    pub upstream_store_url: String,
    /// Configuration for the caching behavior.
    pub cache: CacheConfig,
}

/// How the cache behaves.
pub struct CacheConfig {
    /// Directory used to store temporary cache files (they are unlinked after
    /// creation, so this is not used for persistence).
    pub dir: std::path::PathBuf,
    /// Max size of all temporary cache files, in bytes.
    pub max_disk_capacity: u64,
    /// Max project sources to keep in memory.
    pub max_project_sources: usize,
    /// Max bake outputs to keep in memory.
    pub max_bake_outputs: usize,
    /// Open files to leave for everything but cache files.
    pub min_non_cache_files: u64,
    /// Open files that cache files must be able to use at least.
    pub min_cache_files: u64,
}

/// The bytes in a gigabyte, as `bytesize` counts them: 10^9.
pub const BYTES_PER_GIGABYTE: u64 = 1_000_000_000;

/// `n` gigabytes in bytes, as `bytesize::ByteSize::gb(n).as_u64()` gives them.
pub fn gigabytes(n: u64) -> (bytes: u64)
    requires
        n * 1_000_000_000 <= u64::MAX,
    ensures
        bytes == n * 1_000_000_000,
{
    n * BYTES_PER_GIGABYTE
}

/// The default listening address.
pub fn default_bind_address() -> (s: String)
    ensures
        s@ == "0.0.0.0:3000"@,
{
    "0.0.0.0:3000".to_owned()
}

/// The default address for metrics.
pub fn default_bind_metrics_address() -> (s: String)
    ensures
        s@ == "0.0.0.0:3001"@,
{
    "0.0.0.0:3001".to_owned()
}

/// The default disk space for cache files: one gigabyte.
pub fn default_max_disk_capacity() -> (bytes: u64)
    ensures
        bytes == 1_000_000_000,
{
    gigabytes(1)
}

/// The default number of project sources kept in memory.
pub fn default_max_project_sources() -> (n: usize)
    ensures
        n == 10_000,
{
    10_000
}

/// The default number of bake outputs kept in memory.
pub fn default_max_bake_outputs() -> (n: usize)
    ensures
        n == 10_000,
{
    10_000
}

/// Whether an upstream store URL with this scheme can be served (over HTTP).
pub fn is_supported_upstream_scheme(scheme: &str) -> (supported: bool)
    ensures
        supported == (scheme@ == "http"@ || scheme@ == "https"@),
{
    let scheme = scheme.to_owned();
    let http = "http".to_owned();
    let https = "https".to_owned();
    scheme == http || scheme == https
}

} // verus!
