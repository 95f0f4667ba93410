//! How the tiers of the prototype's store are sized.
use vstd::prelude::*;

verus! {

/// Store sizing. Both tiers are hard caps.
#[derive(Debug, Clone, Copy, PartialEq, Eq, Structural)]
pub struct StoreConfig {
    /// Memory tier capacity in bytes.
    pub memory_bytes: usize,
    /// Disk tier capacity in bytes.
    pub disk_bytes: usize,
    /// Disk block size. Must comfortably exceed one encoded slice.
    pub block_bytes: usize,
}

impl Default for StoreConfig {
    fn default() -> (out: Self)
        ensures
            out == (StoreConfig {
                memory_bytes: 67_108_864,
                disk_bytes: 1_073_741_824,
                block_bytes: 16_777_216,
            }),
    {
        StoreConfig {
            memory_bytes: 67_108_864,
            disk_bytes: 1_073_741_824,
            block_bytes: 16_777_216,
        }
    }
}

} // verus!
