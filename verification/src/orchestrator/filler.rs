//! Object-level fill for origins that ignore `Range`.
//!
//! Some origins answer a range request with the whole object. Then one task streams the body, cuts
//! it into slices as it arrives, and publishes how far it is; everyone else subscribes. A
//! subscriber waiting for a slice wakes when that slice lands, not when the whole object finishes.
use crate::store::slice::ObjectId;
use crate::text;
use vstd::prelude::*;
use vstd::string::*;

verus! {

/// How far a fill has progressed, or how it failed.
#[derive(Debug, PartialEq, Eq)]
pub enum Progress {
    /// Slices `0..count` are stored and readable.
    Ready { count: u32 },
    /// The fill finished; `count` slices were stored.
    Complete { count: u32 },
    /// The fill failed. Subscribers must be woken with an error rather than left waiting.
    Failed { reason: String },
}

impl Clone for Progress {
    fn clone(&self) -> (out: Self)
        ensures
            out.readable() == self.readable(),
            out is Ready <==> self is Ready,
            out is Complete <==> self is Complete,
            out matches Progress::Failed { reason: a } ==> (self matches Progress::Failed {
                reason: b,
            } && a@ == b@),
    {
        match self {
            Progress::Ready { count } => Progress::Ready { count: *count },
            Progress::Complete { count } => Progress::Complete { count: *count },
            Progress::Failed { reason } => Progress::Failed { reason: reason.clone() },
        }
    }
}

impl Progress {
    /// How many slices can be read.
    pub open spec fn readable(self) -> int {
        match self {
            Progress::Ready { count } => count as int,
            Progress::Complete { count } => count as int,
            Progress::Failed { .. } => 0,
        }
    }

    /// Whether slice `index` is readable.
    pub fn covers(&self, index: u32) -> (out: bool)
        ensures
            out == (index < self.readable()),
    {
        match self {
            Progress::Ready { count } => index < *count,
            Progress::Complete { count } => index < *count,
            Progress::Failed { .. } => false,
        }
    }

    pub fn is_terminal(&self) -> (out: bool)
        ensures
            out == !(self is Ready),
    {
        match self {
            Progress::Ready { .. } => false,
            _ => true,
        }
    }
}

/// A fill in progress. What it has come to is kept, whether or not anyone is watching.
#[derive(Debug)]
pub struct Fill {
    pub progress: Progress,
}

impl Fill {
    pub fn new() -> (out: Self)
        ensures
            out.progress == (Progress::Ready { count: 0 }),
    {
        Fill { progress: Progress::Ready { count: 0 } }
    }

    /// Publish that slices `0..count` are now readable.
    pub fn publish(&mut self, count: u32)
        ensures
            final(self).progress == (Progress::Ready { count }),
    {
        self.progress = Progress::Ready { count };
    }

    pub fn complete(&mut self, count: u32)
        ensures
            final(self).progress == (Progress::Complete { count }),
    {
        self.progress = Progress::Complete { count };
    }

    pub fn fail(&mut self, reason: String)
        ensures
            final(self).progress == (Progress::Failed { reason }),
    {
        self.progress = Progress::Failed { reason };
    }
}

/// Whether a caller owns a fill or subscribes to someone else's.
#[derive(Debug, Clone, Copy, PartialEq, Eq, Structural)]
pub enum Role {
    /// This caller must perform the fill and publish progress.
    Filler,
    /// Someone else is filling; wait for that.
    Subscriber,
}

/// Object-level single-flight registry.
#[derive(Debug)]
pub struct FillRegistry {
    fills: Vec<ObjectId>,
}

pub open spec fn ids(fills: Seq<ObjectId>) -> Seq<Seq<u8>> {
    fills.map_values(|id: ObjectId| id@)
}

impl FillRegistry {
    /// The objects that are being filled.
    pub closed spec fn filling(self) -> Seq<Seq<u8>> {
        ids(self.fills@)
    }

    /// No object is filled twice at a time.
    #[verifier::type_invariant]
    spec fn well_formed(self) -> bool {
        ids(self.fills@).no_duplicates()
    }

    pub fn new() -> (out: Self)
        ensures
            out.filling() == Seq::<Seq<u8>>::empty(),
    {
        let fills: Vec<ObjectId> = Vec::new();
        assert(ids(fills@) =~= Seq::empty());
        FillRegistry { fills }
    }

    fn position(&self, object: &ObjectId) -> (out: Option<usize>)
        ensures
            match out {
                Some(i) => i < self.filling().len() && self.filling()[i as int] == object@,
                None => !self.filling().contains(object@),
            },
    {
        let n: usize = self.fills.len();
        for i in 0..n
            invariant
                n == self.fills@.len(),
                forall|j: int| 0 <= j < i ==> self.filling()[j] != object@,
        {
            if text::same_bytes(self.fills[i].as_slice(), object.as_slice()) {
                return Some(i);
            }
        }
        None
    }

    /// Claim the fill for an object, or subscribe to the one already running.
    pub fn claim(&mut self, object: ObjectId) -> (out: Role)
        ensures
            out == (if old(self).filling().contains(object@) {
                Role::Subscriber
            } else {
                Role::Filler
            }),
            final(self).filling() == (if out == Role::Filler {
                old(self).filling().push(object@)
            } else {
                old(self).filling()
            }),
            final(self).filling().no_duplicates(),
    {
        proof {
            use_type_invariant(&*self);
        }
        match self.position(&object) {
            Some(i) => {
                assert(self.filling()[i as int] == object@);
                Role::Subscriber
            },
            None => {
                let ghost before = self.filling();
                let mut fills: Vec<ObjectId> = Vec::new();
                std::mem::swap(&mut fills, &mut self.fills);
                fills.push(object);
                assert(ids(fills@) =~= before.push(object@));
                assert(ids(fills@).no_duplicates());
                *self = FillRegistry { fills };
                Role::Filler
            },
        }
    }

    /// Remove a finished fill, if it is there.
    ///
    /// Called by the filler once it has published a terminal state.
    pub fn release(&mut self, object: &ObjectId)
        ensures
            !final(self).filling().contains(object@),
            forall|other: Seq<u8>|
                other != object@ ==> (#[trigger] final(self).filling().contains(other) <==> old(
                    self,
                ).filling().contains(other)),
            final(self).filling().no_duplicates(),
    {
        proof {
            use_type_invariant(&*self);
        }
        match self.position(object) {
            None => {},
            Some(i) => {
                let ghost before = self.filling();
                let mut fills: Vec<ObjectId> = Vec::new();
                std::mem::swap(&mut fills, &mut self.fills);
                let _ = fills.remove(i);
                proof {
                    let after = ids(fills@);
                    assert(after =~= before.remove(i as int));
                    assert forall|a: int, b: int|
                        0 <= a < after.len() && 0 <= b < after.len() && a != b implies after[a]
                        != after[b] by {
                        let x = if a < i {
                            a
                        } else {
                            a + 1
                        };
                        let y = if b < i {
                            b
                        } else {
                            b + 1
                        };
                        assert(after[a] == before[x] && after[b] == before[y]);
                    }
                    assert forall|other: Seq<u8>|
                        other != object@ implies (#[trigger] after.contains(other)
                        <==> before.contains(other)) by {
                        if after.contains(other) {
                            let k = choose|k: int| 0 <= k < after.len() && after[k] == other;
                            if k < i {
                                assert(before[k] == other);
                            } else {
                                assert(before[k + 1] == other);
                            }
                        }
                        if before.contains(other) {
                            let k = choose|k: int| 0 <= k < before.len() && before[k] == other;
                            if k < i {
                                assert(after[k] == other);
                            } else {
                                assert(k != i);
                                assert(after[k - 1] == other);
                            }
                        }
                    }
                    if after.contains(object@) {
                        let k = choose|k: int| 0 <= k < after.len() && after[k] == object@;
                        if k < i {
                            assert(before[k] == object@ && before[i as int] == object@);
                        } else {
                            assert(before[k + 1] == object@ && before[i as int] == object@);
                        }
                    }
                }
                *self = FillRegistry { fills };
            },
        }
    }

    pub fn active(&self) -> (out: usize)
        ensures
            out == self.filling().len(),
    {
        self.fills.len()
    }
}

/// What someone who waits for a slice does.
#[derive(Debug, PartialEq, Eq)]
pub enum Wait {
    /// The slice can be read.
    Ready,
    /// It will not come, for this reason.
    Failed(String),
    /// Wait until the progress changes.
    Pending,
}

/// What a wait for slice `index` comes to, given how far the fill is.
///
/// A fill that finished without reaching the slice means that the object is shorter than the
/// request assumed: an error, not a reason to wait for ever.
pub fn wait_for(progress: &Progress, index: u32) -> (out: Wait)
    ensures
        match progress {
            Progress::Ready { count } => out == (if index < *count {
                Wait::Ready
            } else {
                Wait::Pending
            }),
            Progress::Complete { count } => if index < *count {
                out == Wait::Ready
            } else {
                out matches Wait::Failed(s) && s@ == "fill completed with "@ + text::decimal(
                    *count as nat,
                ) + " slices; slice "@ + text::decimal(index as nat) + " was never produced"@
            },
            Progress::Failed { reason } => out matches Wait::Failed(s) && s@ == reason@,
        },
        // Once a fill has come to an end, nobody waits any more.
        !(progress is Ready) ==> !(out is Pending),
{
    if progress.covers(index) {
        return Wait::Ready;
    }
    match progress {
        Progress::Ready { .. } => Wait::Pending,
        Progress::Complete { count } => {
            let mut reason = "fill completed with ".to_owned();
            reason.append(text::decimal_string(*count as u64).as_str());
            reason.append(" slices; slice ");
            reason.append(text::decimal_string(index as u64).as_str());
            reason.append(" was never produced");
            Wait::Failed(reason)
        },
        Progress::Failed { reason } => Wait::Failed(reason.clone()),
    }
}

/// What is reported when a filler vanished without finishing.
pub fn abandoned() -> (out: String)
    ensures
        out@ == "the fill was abandoned without completing"@,
{
    "the fill was abandoned without completing".to_owned()
}

/// As many slices can be read as were announced, whether or not the fill is over; of a fill that
/// failed, none can.
pub proof fn announced_slices_can_be_read(count: u32, reason: String)
    ensures
        (Progress::Ready { count }).readable() == count,
        (Progress::Complete { count }).readable() == count,
        (Progress::Failed { reason }).readable() == 0,
{
}

} // verus!
