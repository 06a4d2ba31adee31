//! Configuration recognised by the cache core.
//!
//! The caller loads these values from its environment and hands them over as
//! plain data; the core only checks and consumes them. The one constraint is
//! the sweeper headroom: the sweep-down target must sit at least
//! `SWEEP_HEADROOM_BYTES` below the hard ceiling, so that downloads in
//! flight during a sweep cannot push disk use past the ceiling.

use vstd::prelude::*;

verus! {

/// Room that must separate `cache_target_size` from `cache_max_size`.
pub const SWEEP_HEADROOM_BYTES: u64 = 5 * 1024 * 1024 * 1024;

/// Options of the cache core.
///
/// * `cache_dir`: root directory of the `.bin` and `.cachemeta` files.
/// * `cache_max_size`: hard ceiling; the sweeper evicts when total cached
///   bytes reach it.
/// * `cache_target_size`: size the sweeper evicts down to.
/// * `cache_grace_period_secs`: recency window granting `GracePeriod`
///   priority.
/// * `cache_sweep_interval_secs`: sweep cadence.
/// * `chunk_preload`: optional `(head, tail)` pair pinning the first
///   `head + 1` and last `tail` chunks of every file at `Preloaded`.
/// * `torbox_username` / `torbox_password`: when both are set, downloads use
///   basic authentication against the path-based endpoint; when both are
///   unset, a signed URL is resolved per file.
#[derive(Debug, Clone)]
pub struct Config {
    pub cache_dir: String,
    pub cache_max_size: u64,
    pub cache_target_size: u64,
    pub cache_grace_period_secs: u64,
    pub cache_sweep_interval_secs: u64,
    pub chunk_preload: Option<(u64, u64)>,
    pub torbox_username: Option<String>,
    pub torbox_password: Option<String>,
}

impl Config {
    /// The sweeper headroom constraint.
    pub open spec fn wf(self) -> bool {
        self.cache_target_size as int + SWEEP_HEADROOM_BYTES as int <= self.cache_max_size as int
    }

    /// Check the sweeper headroom constraint; a configuration that fails it
    /// must be rejected by the caller before the cache is brought up.
    pub fn validate(&self) -> (r: bool)
        ensures
            r == self.wf(),
    {
        self.cache_target_size <= u64::MAX - SWEEP_HEADROOM_BYTES && self.cache_target_size
            + SWEEP_HEADROOM_BYTES <= self.cache_max_size
    }
}

} // verus!
