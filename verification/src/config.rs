//! Server and index settings, with their defaults.
use vstd::prelude::*;

verus! {

/// Where the HTTP server listens.
#[derive(Debug, Clone)]
pub struct ServerConfig {
    pub host: String,
    pub port: u16,
}

/// The default host: every interface.
pub fn default_host() -> (r: String)
    ensures
        r@ == "0.0.0.0"@,
{
    "0.0.0.0".to_owned()
}

/// The default port.
pub fn default_port() -> (r: u16)
    ensures
        r == 3000,
{
    3000
}

impl Default for ServerConfig {
    fn default() -> (r: Self)
        ensures
            r.host@ == "0.0.0.0"@,
            r.port == 3000,
    {
        ServerConfig { host: default_host(), port: default_port() }
    }
}

/// Where indexes are kept and how they are maintained.
#[derive(Debug, Clone)]
pub struct IndexConfig {
    /// The directory that holds the indexes.
    pub data_dir: String,
    /// Buffered documents that make a segment due (0: never).
    pub flush_threshold: usize,
    pub merge_max_segments: usize,
    /// Hits returned when a search names no limit.
    pub default_result_limit: usize,
}

/// The default data directory.
pub fn default_data_dir() -> (r: String)
    ensures
        r@ == "data"@,
{
    "data".to_owned()
}

/// The default number of buffered documents that makes a segment due.
pub fn default_flush_threshold() -> (r: usize)
    ensures
        r == 1000,
{
    1000
}

/// The default largest number of segments.
pub fn default_merge_max_segments() -> (r: usize)
    ensures
        r == 10,
{
    10
}

/// The default number of hits per search.
pub fn default_result_limit() -> (r: usize)
    ensures
        r == 10,
{
    10
}

impl Default for IndexConfig {
    fn default() -> (r: Self)
        ensures
            r.data_dir@ == "data"@,
            r.flush_threshold == 1000,
            r.merge_max_segments == 10,
            r.default_result_limit == 10,
    {
        IndexConfig {
            data_dir: default_data_dir(),
            flush_threshold: default_flush_threshold(),
            merge_max_segments: default_merge_max_segments(),
            default_result_limit: default_result_limit(),
        }
    }
}

} // verus!
