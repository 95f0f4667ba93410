//! Periodic sampling of state that is not event-driven.
//!
//! Free disk, index occupancy, in-flight requests and per-service saturation are levels: nothing
//! happens when they change, so something has to look.
use crate::proxy::shutdown::Drain;
use crate::store::space;
use crate::store::space::DiskSpace;
use vstd::prelude::*;
use vstd::string::*;

verus! {

/// The ceiling of a service, and what it has left of it. Nothing is left to tell where it has no
/// permits of its own.
#[derive(Debug, PartialEq, Eq)]
pub struct Ceiling {
    pub service: String,
    pub limit: usize,
    pub available: Option<usize>,
}

/// What is looked at. What could not be read is absent.
#[derive(Debug)]
pub struct Inputs {
    pub objects: Option<usize>,
    pub indexed_bytes: Option<u64>,
    pub disk: Option<DiskSpace>,
    pub configured_disk_bytes: u64,
    pub min_free_bytes: u64,
    pub ceilings: Vec<Ceiling>,
}

/// The levels of the disk.
#[derive(Debug, Clone, Copy, PartialEq, Eq, Structural)]
pub struct DiskLevels {
    pub total_bytes: i64,
    pub available_bytes: i64,
    /// What the store may use, after the free-space guard.
    pub capacity_bytes: i64,
    /// 1 while the guard holds the store below its configured size.
    pub guard_engaged: i64,
}

/// The levels of a service.
#[derive(Debug, PartialEq, Eq)]
pub struct ServiceLevels {
    pub service: String,
    pub limit: i64,
    /// How much of the limit is taken, where that is known.
    pub inflight: Option<i64>,
}

/// The levels that are reported.
#[derive(Debug, PartialEq, Eq)]
pub struct Levels {
    pub requests_in_flight: i64,
    /// 1 while draining.
    pub draining: i64,
    pub index_objects: i64,
    pub index_bytes: i64,
    /// Left as they were where the disk could not be read.
    pub disk: Option<DiskLevels>,
    pub services: Vec<ServiceLevels>,
}

pub open spec fn flag(b: bool) -> i64 {
    if b {
        1
    } else {
        0
    }
}

fn show_flag(b: bool) -> (out: i64)
    ensures
        out == flag(b),
{
    if b {
        1
    } else {
        0
    }
}

/// How much of a limit is taken.
pub open spec fn taken(limit: usize, available: Option<usize>) -> Option<i64> {
    match available {
        Some(left) => Some(
            (if limit >= left {
                (limit - left) as usize
            } else {
                0
            }) as i64,
        ),
        None => None,
    }
}

pub open spec fn bytes_or_zero(bytes: Option<u64>) -> u64 {
    match bytes {
        Some(n) => n,
        None => 0,
    }
}

/// What there is to report. A gauge holds 64 bits with a sign.
pub fn sample(inputs: &Inputs, drain: &Drain) -> (out: Levels)
    ensures
        out.requests_in_flight == drain.running() as i64,
        out.draining == flag(drain.refuses()),
        out.index_objects == (match inputs.objects {
            Some(n) => n as i64,
            None => 0,
        }),
        out.index_bytes == bytes_or_zero(inputs.indexed_bytes) as i64,
        match inputs.disk {
            Some(disk) => {
                let capacity = space::cap(
                    inputs.configured_disk_bytes,
                    inputs.min_free_bytes,
                    bytes_or_zero(inputs.indexed_bytes),
                    disk,
                );
                out.disk == Some(
                    DiskLevels {
                        total_bytes: disk.total as i64,
                        available_bytes: disk.available as i64,
                        capacity_bytes: capacity as u64 as i64,
                        guard_engaged: flag(capacity < inputs.configured_disk_bytes),
                    },
                )
            },
            None => out.disk is None,
        },
        out.services@.len() == inputs.ceilings@.len(),
        forall|i: int|
            0 <= i < out.services@.len() ==> {
                let ceiling = inputs.ceilings@[i];
                &&& (#[trigger] out.services@[i]).service@ == ceiling.service@
                &&& out.services@[i].limit == ceiling.limit as i64
                &&& out.services@[i].inflight == taken(ceiling.limit, ceiling.available)
            },
{
    let indexed: u64 = match inputs.indexed_bytes {
        Some(n) => n,
        None => 0,
    };
    let disk = match inputs.disk {
        Some(disk) => {
            let capacity: u64 = space::effective_cap(
                inputs.configured_disk_bytes,
                inputs.min_free_bytes,
                indexed,
                disk,
            );
            Some(
                DiskLevels {
                    total_bytes: #[verifier::truncate] (disk.total as i64),
                    available_bytes: #[verifier::truncate] (disk.available as i64),
                    capacity_bytes: #[verifier::truncate] (capacity as i64),
                    guard_engaged: show_flag(
                        space::is_engaged(inputs.configured_disk_bytes, capacity),
                    ),
                },
            )
        },
        None => None,
    };
    let mut services: Vec<ServiceLevels> = Vec::new();
    let n: usize = inputs.ceilings.len();
    for i in 0..n
        invariant
            n == inputs.ceilings@.len(),
            services@.len() == i,
            forall|j: int|
                0 <= j < i ==> {
                    let ceiling = inputs.ceilings@[j];
                    &&& (#[trigger] services@[j]).service@ == ceiling.service@
                    &&& services@[j].limit == ceiling.limit as i64
                    &&& services@[j].inflight == taken(ceiling.limit, ceiling.available)
                },
    {
        let ceiling = &inputs.ceilings[i];
        let inflight = match ceiling.available {
            Some(left) => {
                let used: usize = ceiling.limit.saturating_sub(left);
                Some(#[verifier::truncate] (used as i64))
            },
            None => None,
        };
        services.push(
            ServiceLevels {
                service: ceiling.service.clone(),
                limit: #[verifier::truncate] (ceiling.limit as i64),
                inflight,
            },
        );
    }
    Levels {
        requests_in_flight: #[verifier::truncate] (drain.inflight() as i64),
        draining: show_flag(drain.is_draining()),
        index_objects: match inputs.objects {
            Some(n) => #[verifier::truncate] (n as i64),
            None => 0,
        },
        index_bytes: #[verifier::truncate] (indexed as i64),
        disk,
        services,
    }
}

/// What is taken of a limit is what is not left of it, and nothing where more is left than the limit
/// says; where nothing is known to be left, nothing is said.
pub proof fn what_is_not_left_is_taken(limit: usize, left: usize)
    requires
        limit <= i64::MAX,
    ensures
        left <= limit ==> (taken(limit, Some(left)) matches Some(n) && n + left == limit),
        left > limit ==> taken(limit, Some(left)) == Some(0i64),
        taken(limit, None) is None,
        flag(true) == 1 && flag(false) == 0,
        bytes_or_zero(None) == 0,
        bytes_or_zero(Some(left as u64)) == left,
{
}

} // verus!
