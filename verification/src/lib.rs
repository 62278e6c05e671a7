//! A caching proxy core for a crate-registry API: version resolution with a
//! two-tier TTL index, an artifact cache keyed by (package, version,
//! filename), registry-response extraction, and the request router over
//! them. The surrounding program supplies what cannot be verified: the
//! listener, the transfers, the clock and the configuration file.

pub mod cache;
pub mod config;
pub mod crates_api;
pub mod curl_client;
pub mod json;
pub mod mem_map;
pub mod proxy;
pub mod records;
pub mod store;
pub mod strutil;
pub mod version_manager;
