//! How the RAM and disk tiers of the slice store are set up.
//!
//! A disk write is silently discarded when the flushers cannot keep up, so there is a maximum
//! sustainable fill rate. Four flushers and a large buffer pool are shipped, because they cost
//! little and the failure is silent.
use crate::config::Config;
use vstd::prelude::*;
use vstd::string::*;

verus! {

/// Flushers draining the disk write queue.
pub const DEFAULT_FLUSHERS: u64 = 4;

/// Total flush buffer pool, shared across flushers: 128 MiB.
pub const DEFAULT_BUFFER_POOL: u64 = 134_217_728;

/// Disk block size, 64 MiB. Must comfortably exceed one encoded slice, since a block is the unit
/// of disk eviction and also caps the largest storable entry.
pub const DEFAULT_BLOCK_SIZE: u64 = 67_108_864;

#[derive(Debug, Clone, Copy, PartialEq, Eq, Structural)]
pub struct StoreConfig {
    pub memory_bytes: u64,
    pub disk_bytes: u64,
    pub block_bytes: u64,
    pub flushers: u64,
    pub buffer_pool_bytes: u64,
    /// Bypass the page cache for the disk tier. Off by default: buffered reads measured faster.
    pub direct_io: bool,
}

pub open spec fn default_store() -> StoreConfig {
    StoreConfig {
        memory_bytes: 2_147_483_648,
        disk_bytes: 1_073_741_824_000,
        block_bytes: DEFAULT_BLOCK_SIZE,
        flushers: DEFAULT_FLUSHERS,
        buffer_pool_bytes: DEFAULT_BUFFER_POOL,
        direct_io: false,
    }
}

impl Default for StoreConfig {
    fn default() -> (out: Self)
        ensures
            out == default_store(),
    {
        StoreConfig {
            memory_bytes: 2_147_483_648,
            disk_bytes: 1_073_741_824_000,
            block_bytes: DEFAULT_BLOCK_SIZE,
            flushers: DEFAULT_FLUSHERS,
            buffer_pool_bytes: DEFAULT_BUFFER_POOL,
            direct_io: false,
        }
    }
}

impl StoreConfig {
    /// Derive the store configuration from the process configuration. A block must hold several
    /// slices to be useful as an eviction unit.
    pub fn from_config(config: &Config) -> (out: Self)
        requires
            config.cache_slice_size * 4 <= u64::MAX,
        ensures
            out == (StoreConfig {
                memory_bytes: config.cache_mem_size,
                disk_bytes: config.cache_disk_size,
                block_bytes: if config.cache_slice_size * 4 > DEFAULT_BLOCK_SIZE {
                    (config.cache_slice_size * 4) as u64
                } else {
                    DEFAULT_BLOCK_SIZE
                },
                ..default_store()
            }),
    {
        let slices: u64 = config.cache_slice_size * 4;
        let defaults = StoreConfig::default();
        StoreConfig {
            memory_bytes: config.cache_mem_size,
            disk_bytes: config.cache_disk_size,
            block_bytes: if slices > DEFAULT_BLOCK_SIZE {
                slices
            } else {
                DEFAULT_BLOCK_SIZE
            },
            flushers: defaults.flushers,
            buffer_pool_bytes: defaults.buffer_pool_bytes,
            direct_io: defaults.direct_io,
        }
    }
}

/// Why the store cannot be used. What its engine reports is kept in its words.
#[derive(Debug, PartialEq, Eq)]
pub enum StoreError {
    /// The cache directory cannot be created.
    Directory { path: String, source: String },
    Open { source: String },
    Fetch { source: String },
}

impl StoreError {
    pub open spec fn message_spec(self) -> Seq<char> {
        match self {
            StoreError::Directory { path, source } => "cannot create cache directory "@ + path@
                + ": "@ + source@,
            StoreError::Open { source } => "cannot open the slice store: "@ + source@,
            StoreError::Fetch { source } => "slice fetch failed: "@ + source@,
        }
    }

    /// The error in words.
    pub fn message(&self) -> (out: String)
        ensures
            out@ == self.message_spec(),
    {
        match self {
            StoreError::Directory { path, source } => {
                let mut out = "cannot create cache directory ".to_owned();
                out.append(path.as_str());
                out.append(": ");
                out.append(source.as_str());
                out
            },
            StoreError::Open { source } => {
                "cannot open the slice store: ".to_owned().concat(source.as_str())
            },
            StoreError::Fetch { source } => {
                "slice fetch failed: ".to_owned().concat(source.as_str())
            },
        }
    }
}

} // verus!
