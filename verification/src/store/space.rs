//! Free-space guard.
//!
//! The configured disk size is what was intended, not what is available: the cache is usually not
//! alone on its volume. So the cap in force is the smaller of what was configured and what the
//! filesystem can still give while a reserve stays free.
use vstd::prelude::*;
use vstd::string::*;

verus! {

/// What the filesystem reports.
#[derive(Debug, Clone, Copy, PartialEq, Eq, Structural)]
pub struct DiskSpace {
    pub total: u64,
    /// Bytes available to an unprivileged process: reserved blocks are not ours to use.
    pub available: u64,
}

/// The space of a filesystem cannot be read.
#[derive(Debug, PartialEq, Eq)]
pub struct SpaceError {
    pub path: String,
    pub source: String,
}

impl SpaceError {
    /// The error in words.
    pub fn message(&self) -> (out: String)
        ensures
            out@ == "cannot read free space for "@ + self.path@ + ": "@ + self.source@,
    {
        let mut out = "cannot read free space for ".to_owned();
        out.append(self.path.as_str());
        out.append(": ");
        out.append(self.source.as_str());
        out
    }
}

/// Disk space out of the block counts of a filesystem. The counts are in fragments; only where no
/// fragment size is given does the block size stand in for it.
pub fn from_blocks(blocks: u64, available: u64, fragment_size: u64, block_size: u64) -> (out:
    DiskSpace)
    requires
        blocks * unit_of(fragment_size, block_size) <= u64::MAX,
        available * unit_of(fragment_size, block_size) <= u64::MAX,
    ensures
        out.total == blocks * unit_of(fragment_size, block_size),
        out.available == available * unit_of(fragment_size, block_size),
{
    let unit: u64 = if fragment_size > 0 {
        fragment_size
    } else {
        block_size
    };
    DiskSpace { total: blocks * unit, available: available * unit }
}

pub open spec fn unit_of(fragment_size: u64, block_size: u64) -> u64 {
    if fragment_size > 0 {
        fragment_size
    } else {
        block_size
    }
}

/// How large the cache may grow: what it already holds and what it can still claim without eating
/// into the reserve, but never more than was configured.
pub open spec fn cap(configured: u64, min_free: u64, used: u64, space: DiskSpace) -> int {
    let claimable = if space.available > min_free {
        space.available - min_free
    } else {
        0
    };
    if configured <= used + claimable {
        configured as int
    } else {
        used + claimable
    }
}

/// The cap the store should actually enforce.
///
/// `used` is what the cache currently occupies, so the calculation answers "how large may the
/// cache grow" rather than "how much free space is there".
pub fn effective_cap(configured: u64, min_free: u64, used: u64, space: DiskSpace) -> (out: u64)
    ensures
        out == cap(configured, min_free, used, space),
{
    let claimable: u64 = space.available.saturating_sub(min_free);
    let ceiling: u64 = used.saturating_add(claimable);
    if configured < ceiling {
        configured
    } else {
        ceiling
    }
}

/// The guard never raises the cap above what was configured, and never asks the cache to give up
/// what it already holds within that.
pub proof fn cap_stays_between_used_and_configured(
    configured: u64,
    min_free: u64,
    used: u64,
    space: DiskSpace,
)
    ensures
        cap(configured, min_free, used, space) <= configured,
        used <= configured ==> used <= cap(configured, min_free, used, space),
{
}

/// Growing to the cap leaves the reserve free, as far as it still is.
pub proof fn growing_to_the_cap_keeps_the_reserve(
    configured: u64,
    min_free: u64,
    used: u64,
    space: DiskSpace,
)
    requires
        space.available >= min_free,
        used <= cap(configured, min_free, used, space),
    ensures
        space.available - (cap(configured, min_free, used, space) - used) >= min_free,
{
}

/// Whether the guard is currently reducing the cap.
pub fn is_engaged(configured: u64, effective: u64) -> (out: bool)
    ensures
        out == (effective < configured),
{
    effective < configured
}

/// The cap is the configured size wherever the filesystem can give that much, and otherwise all
/// that it can give without touching the reserve; a reserve that is already eaten into gives
/// nothing.
pub proof fn the_cap_is_what_can_be_had(
    configured: u64,
    min_free: u64,
    used: u64,
    space: DiskSpace,
)
    ensures
        space.available >= min_free && configured <= used + (space.available - min_free) ==> cap(
            configured,
            min_free,
            used,
            space,
        ) == configured,
        space.available >= min_free && configured > used + (space.available - min_free) ==> cap(
            configured,
            min_free,
            used,
            space,
        ) - used == space.available - min_free,
        space.available < min_free && configured > used ==> cap(configured, min_free, used, space)
            == used,
        space.available < min_free && configured <= used ==> cap(configured, min_free, used, space)
            == configured,
{
}

/// Space is counted in fragments; only where no fragment size is given, in blocks.
pub proof fn fragments_are_what_is_counted(fragment_size: u64, block_size: u64)
    ensures
        fragment_size > 0 ==> unit_of(fragment_size, block_size) == fragment_size,
        unit_of(0, block_size) == block_size,
{
}

} // verus!
