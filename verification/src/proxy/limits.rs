//! Connection limit.
//!
//! Client connections are rejected at the limit rather than queued. A queued connection looks
//! alive to the client while making no progress, and a client that times out silently is worse
//! than one that fails fast and retries.
use vstd::prelude::*;

verus! {

/// Bounds the number of simultaneously open client connections.
#[derive(Debug)]
pub struct ConnectionLimit {
    open: u64,
    max: u64,
    rejected: u64,
}

/// A slot that was taken. It is given back with [`ConnectionLimit::release`], and only
/// [`ConnectionLimit::try_acquire`] hands one out.
#[derive(Debug)]
pub struct ConnectionPermit {
    _slot: (),
}

impl ConnectionLimit {
    pub closed spec fn open_count(self) -> u64 {
        self.open
    }

    pub closed spec fn limit(self) -> u64 {
        self.max
    }

    pub closed spec fn rejected_count(self) -> u64 {
        self.rejected
    }

    /// No more connections are ever open than the limit says.
    #[verifier::type_invariant]
    spec fn well_formed(self) -> bool {
        self.open <= self.max
    }

    pub fn new(max: u64) -> (out: Self)
        ensures
            out.open_count() == 0,
            out.limit() == max,
            out.rejected_count() == 0,
    {
        ConnectionLimit { open: 0, max, rejected: 0 }
    }

    /// Take a slot, or refuse. A refusal is counted.
    pub fn try_acquire(&mut self) -> (out: Option<ConnectionPermit>)
        ensures
            out is Some <==> old(self).open_count() < old(self).limit(),
            final(self).limit() == old(self).limit(),
            final(self).open_count() <= final(self).limit(),
            out is Some ==> final(self).open_count() == old(self).open_count() + 1
                && final(self).rejected_count() == old(self).rejected_count(),
            out is None ==> final(self).open_count() == old(self).open_count()
                && final(self).rejected_count() == crate::services::refresh::bumped(
                old(self).rejected_count(),
            ),
    {
        proof {
            use_type_invariant(&*self);
        }
        if self.open >= self.max {
            self.rejected = self.rejected.wrapping_add(1);
            return None;
        }
        self.open = self.open + 1;
        Some(ConnectionPermit { _slot: () })
    }

    /// Give a slot back.
    pub fn release(&mut self, permit: ConnectionPermit)
        requires
            old(self).open_count() > 0,
        ensures
            final(self).open_count() == old(self).open_count() - 1,
            final(self).limit() == old(self).limit(),
            final(self).rejected_count() == old(self).rejected_count(),
    {
        proof {
            use_type_invariant(&*self);
        }
        self.open = self.open - 1;
    }

    pub fn open(&self) -> (out: u64)
        ensures
            out == self.open_count(),
            out <= self.limit(),
    {
        proof {
            use_type_invariant(self);
        }
        self.open
    }

    pub fn rejected(&self) -> (out: u64)
        ensures
            out == self.rejected_count(),
    {
        self.rejected
    }

    pub fn max(&self) -> (out: u64)
        ensures
            out == self.limit(),
    {
        self.max
    }
}

} // verus!
