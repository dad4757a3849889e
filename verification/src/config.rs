//! The settings of the proxy, with their defaults.

use vstd::prelude::*;

verus! {

/// All settings.
#[derive(Debug)]
pub struct ProxyConfig {
    pub server: ServerConfig,
    pub backend: BackendConfig,
    pub cache: CacheConfig,
    pub health: HealthConfig,
    /// The path of the policy file. Without one the default policy holds.
    pub policy_path: Option<String>,
}

/// Where the proxy listens.
#[derive(Debug)]
pub struct ServerConfig {
    pub bind_host: String,
    pub bind_port: u16,
    /// The host names that requests may be addressed to. Without a list only
    /// loopback names are allowed.
    pub allowed_hosts: Option<Vec<String>>,
}

/// The MCP server behind the proxy.
#[derive(Debug)]
pub struct BackendConfig {
    pub url: String,
    /// The time for one call, in milliseconds.
    pub timeout_ms: u64,
}

/// The cache.
#[derive(Debug, Clone, Copy, PartialEq, Eq, Structural)]
pub struct CacheConfig {
    /// The number of answers to keep; they leave by age only.
    pub max_entries: usize,
    /// A rough limit on memory, in megabytes, for reports.
    pub max_memory_mb: usize,
    /// Seconds to live for a tool that the policy does not name.
    pub default_ttl_seconds: u64,
    /// Seconds between two evictions of expired answers, 0 for none.
    pub evict_interval_seconds: u64,
    /// Whether answers built on changed files are checked before they are kept.
    pub lazy_revalidation_enabled: bool,
    /// How long a read waits for the index to catch up, in milliseconds, 0 for not at all.
    pub revalidation_max_wait_ms: u64,
    /// The pause between two tries of such a read, in milliseconds.
    pub revalidation_retry_interval_ms: u64,
    /// Seconds after which a mark on a changed file is dropped.
    pub dirty_ttl_seconds: u64,
}

/// The checks on the backend.
#[derive(Debug, Clone, Copy, PartialEq, Eq, Structural)]
pub struct HealthConfig {
    /// Seconds between two checks.
    pub interval_s: u64,
    /// The time for one check, in milliseconds.
    pub backend_timeout_ms: u64,
}

pub fn default_backend_timeout_ms() -> (r: u64)
    ensures
        r == 5000,
{
    5000
}

pub fn default_max_entries() -> (r: usize)
    ensures
        r == 10_000,
{
    10_000
}

pub fn default_max_memory_mb() -> (r: usize)
    ensures
        r == 200,
{
    200
}

pub fn default_ttl_seconds() -> (r: u64)
    ensures
        r == 600,
{
    600
}

pub fn default_evict_interval_seconds() -> (r: u64)
    ensures
        r == 60,
{
    60
}

pub fn default_lazy_revalidation_enabled() -> (r: bool)
    ensures
        r,
{
    true
}

pub fn default_revalidation_max_wait_ms() -> (r: u64)
    ensures
        r == 2000,
{
    2000
}

pub fn default_revalidation_retry_interval_ms() -> (r: u64)
    ensures
        r == 150,
{
    150
}

pub fn default_dirty_ttl_seconds() -> (r: u64)
    ensures
        r == 300,
{
    300
}

pub fn default_health_interval_s() -> (r: u64)
    ensures
        r == 30,
{
    30
}

pub fn default_health_timeout_ms() -> (r: u64)
    ensures
        r == 2000,
{
    2000
}

impl Default for CacheConfig {
    fn default() -> (r: Self)
        ensures
            r == (CacheConfig {
                max_entries: 10_000,
                max_memory_mb: 200,
                default_ttl_seconds: 600,
                evict_interval_seconds: 60,
                lazy_revalidation_enabled: true,
                revalidation_max_wait_ms: 2000,
                revalidation_retry_interval_ms: 150,
                dirty_ttl_seconds: 300,
            }),
    {
        CacheConfig {
            max_entries: default_max_entries(),
            max_memory_mb: default_max_memory_mb(),
            default_ttl_seconds: default_ttl_seconds(),
            evict_interval_seconds: default_evict_interval_seconds(),
            lazy_revalidation_enabled: default_lazy_revalidation_enabled(),
            revalidation_max_wait_ms: default_revalidation_max_wait_ms(),
            revalidation_retry_interval_ms: default_revalidation_retry_interval_ms(),
            dirty_ttl_seconds: default_dirty_ttl_seconds(),
        }
    }
}

impl Default for HealthConfig {
    fn default() -> (r: Self)
        ensures
            r == (HealthConfig { interval_s: 30, backend_timeout_ms: 2000 }),
    {
        HealthConfig {
            interval_s: default_health_interval_s(),
            backend_timeout_ms: default_health_timeout_ms(),
        }
    }
}

} // verus!
