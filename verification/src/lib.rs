//! Core of a caching proxy in front of an MCP server.
//!
//! - [`config`] — the settings and their defaults.
//! - [`policy`] — what is cached, and for how long.
//! - [`cache`] — the answers, with times to live and keys.
//! - [`reverse_index`] — from a file to the keys of the answers built on it.
//! - [`dirty`] — the files that changed and that the index has yet to catch up with.
//! - [`freeze`] — the scopes that are refused for some time.
//! - [`singleflight`] — one call at a time for equal calls.
//! - [`metrics`] — counters and their Prometheus text.
//! - [`proxy`] — what becomes of a tool call and of the backend's reply.
//! - [`batch`] — calls for many names at once.
//! - [`meta`] — the service field `_meta` of a backend's answer.
//! - [`json`] — JSON values.
//! - [`handlers`] — the service endpoints.
//! - [`server`], [`rmcp_client`] — the two sides of the MCP protocol.
//! - [`pidlock`] — the lock against a second instance.
//! - [`clock`], [`text`], [`table`] — time, strings and the hash map underneath.
//!
//! The library decides; what it decides is carried out elsewhere. Functions whose
//! outcome depends on the time come in two forms: one that takes the time as an
//! argument and says exactly what it does, and one that reads the clock and calls
//! the first.

pub mod batch;
pub mod cache;
pub mod clock;
pub mod config;
pub mod dirty;
pub mod freeze;
pub mod handlers;
pub mod json;
pub mod meta;
pub mod metrics;
pub mod pidlock;
pub mod policy;
pub mod proxy;
pub mod reverse_index;
pub mod rmcp_client;
pub mod server;
pub mod singleflight;
pub mod table;
pub mod text;

pub use cache::{Cache, CacheEntry};
pub use config::{BackendConfig, CacheConfig, HealthConfig, ProxyConfig, ServerConfig};
pub use dirty::DirtySet;
pub use freeze::{FreezeController, FreezeEntry, FreezeState};
pub use metrics::{Metrics, MetricsSnapshot};
pub use policy::{Policy, ScopePolicy, ToolPolicy};
pub use proxy::{CacheProxy, ProxyError, ProxyResult, RevalConfig};
pub use reverse_index::ReverseIndex;
pub use singleflight::SingleFlight;
