//! The admin surface.
//!
//! Health probes on a port separate from the data plane. Purge and drain live here too, and must
//! not be reachable by every client.
use crate::proxy::server;
use crate::proxy::server::Reply;
use vstd::prelude::*;

pub mod api;

verus! {

/// Whether the process is ready to serve.
///
/// Separate from liveness: a process that is up but whose store has not finished opening must
/// fail readiness so a rolling replacement does not send it traffic.
#[derive(Debug)]
pub struct Readiness {
    store_open: bool,
    listeners_bound: bool,
    draining: bool,
}

impl Default for Readiness {
    fn default() -> (out: Self)
        ensures
            !out.has_store(),
            !out.has_listeners(),
            !out.drains(),
    {
        Readiness { store_open: false, listeners_bound: false, draining: false }
    }
}

impl Readiness {
    pub closed spec fn has_store(self) -> bool {
        self.store_open
    }

    pub closed spec fn has_listeners(self) -> bool {
        self.listeners_bound
    }

    pub closed spec fn drains(self) -> bool {
        self.draining
    }

    /// Traffic may come.
    pub open spec fn ready(self) -> bool {
        !self.drains() && self.has_store() && self.has_listeners()
    }

    pub fn new() -> (out: Self)
        ensures
            !out.has_store(),
            !out.has_listeners(),
            !out.drains(),
    {
        Readiness { store_open: false, listeners_bound: false, draining: false }
    }

    pub fn set_store_open(&mut self, value: bool)
        ensures
            final(self).has_store() == value,
            final(self).has_listeners() == old(self).has_listeners(),
            final(self).drains() == old(self).drains(),
    {
        self.store_open = value;
    }

    pub fn set_listeners_bound(&mut self, value: bool)
        ensures
            final(self).has_store() == old(self).has_store(),
            final(self).has_listeners() == value,
            final(self).drains() == old(self).drains(),
    {
        self.listeners_bound = value;
    }

    /// Begin draining. Readiness fails immediately so traffic moves away before shutdown starts,
    /// and nothing undoes it.
    pub fn begin_drain(&mut self)
        ensures
            final(self).has_store() == old(self).has_store(),
            final(self).has_listeners() == old(self).has_listeners(),
            final(self).drains(),
            !final(self).ready(),
    {
        self.draining = true;
    }

    pub fn is_ready(&self) -> (out: bool)
        ensures
            out == self.ready(),
    {
        !self.draining && self.store_open && self.listeners_bound
    }

    pub fn is_draining(&self) -> (out: bool)
        ensures
            out == self.drains(),
    {
        self.draining
    }
}

/// Liveness: the process is running. It does not consult the store: a cache with a broken disk
/// should be restarted by an operator, not killed in a loop by a probe.
pub fn healthz() -> (out: Reply)
    ensures
        out.says(200, "ok\n"@),
{
    server::text(200, "ok\n")
}

/// Whether traffic may come, and if not, why.
pub fn readyz(readiness: &Readiness) -> (out: Reply)
    ensures
        if readiness.ready() {
            out.says(200, "ready\n"@)
        } else if readiness.drains() {
            out.says(503, "draining\n"@)
        } else {
            out.says(503, "starting\n"@)
        },
{
    if readiness.is_ready() {
        server::text(200, "ready\n")
    } else if readiness.is_draining() {
        server::text(503, "draining\n")
    } else {
        server::text(503, "starting\n")
    }
}

/// Traffic may come once the store is open and the listeners are bound, until draining begins.
pub proof fn readiness_takes_store_and_listeners(r: Readiness)
    ensures
        r.ready() <==> r.has_store() && r.has_listeners() && !r.drains(),
{
}

} // verus!
