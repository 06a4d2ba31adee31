//! Chunked streaming cache core.
//!
//! A read-only cache for large remote files that are fetched over HTTP range
//! requests and persisted in sparse local files. The library holds the logic
//! of the cache: chunk geometry and retention priorities, the reader tracker
//! that drives read-ahead, download planning (coalesced contiguous batches,
//! retry and backoff policy, incremental publication of finished chunks),
//! the eviction sweeper, the request rate limiter, and the sidecar metadata
//! codec. All I/O (HTTP, files, clocks, sleeping) is performed by the caller,
//! which feeds plain values in and carries the decisions out.

use vstd::prelude::*;

pub mod cache;
pub mod chunk;
pub mod config;
pub mod dec;
pub mod downloader;
pub mod entry;
pub mod fetcher;
pub mod meta;
pub mod ratelimiter;
pub mod reader;
pub mod sparse;

verus! {

/// Size of an individual chunk: 8 MiB. Chunks are batched together into
/// single range requests; this is the unit of cache residency, and existing
/// caches break if it changes.
pub const DEFAULT_CHUNK_SIZE: u64 = 8388608;

} // verus!
