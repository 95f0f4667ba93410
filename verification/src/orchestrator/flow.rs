//! The order in which things are done for a request.
//!
//! Reading the index, asking the store and talking to the origin all take their time and can all
//! fail. What comes next after each of them is decided here, from what has happened: whoever runs
//! the request performs an action and hands back what came of it.
use crate::orchestrator;
use crate::orchestrator::filler;
use crate::orchestrator::filler::{FillRegistry, Progress, Role, Wait};
use crate::orchestrator::validators;
use crate::orchestrator::{
    fill_outcome, header_for, known, missing_after_fill, payload_window, Cutter, Orchestrator,
    OrchestratorError, Plan, Source,
};
use crate::proxy::range;
use crate::proxy::range::RangeSpec;
use crate::store::hybrid::StoreError;
use crate::store::index;
use crate::store::index::ObjectMeta;
use crate::store::slice;
use crate::store::slice::{ObjectId, SliceKey, SliceValue};
use crate::text;
use crate::upstream::client::UpstreamResponse;
use crate::wire;
use vstd::prelude::*;
use vstd::string::*;

verus! {

/// How an object comes to be known.
#[derive(Debug)]
pub enum Learn {
    /// The index says what it is. Its use is to be recorded.
    Known(ObjectMeta),
    /// Ask the origin for these bytes, which are those of slice `index`, once for everyone who
    /// wants to know.
    Probe { index: u32, start: u64, end: u64 },
}

/// What has happened on the way to a slice.
#[derive(Debug)]
pub enum SliceEvent {
    /// Someone wants it.
    Wanted,
    /// The origin answered the request for its bytes.
    Answered(UpstreamResponse),
    /// Sharing the slice failed. What crosses the store is rewrapped there, so a change of the
    /// object, where that was the reason, is told beside it.
    Unshared { source: StoreError, changed: Option<OrchestratorError> },
    /// The fill of the whole object has come as far as this slice, or failed.
    Filled(Result<(), OrchestratorError>),
    /// What the store held once the object was filled.
    Found(Option<SliceValue>),
}

/// What to do next to get a slice.
#[derive(Debug)]
pub enum SliceAction {
    /// Take the slice from the store, or join whoever is fetching it; failing both, fetch these
    /// bytes.
    Share { key: SliceKey, start: u64, end: u64 },
    /// Have the whole object filled, as far as this slice.
    Fill,
    /// Look the slice up in the store.
    Read(SliceKey),
    /// Put the slice into the store, and answer with it.
    Keep(SliceKey, SliceValue),
    /// Answer with the slice.
    Answer(SliceValue),
    /// The object is no longer the one that the plan was made for: invalidate it, forget what was
    /// known of it, and fail.
    Invalidate(ObjectId, OrchestratorError),
    Fail(OrchestratorError),
}

/// What has happened on the way to a filled object.
#[derive(Debug)]
pub enum FillEvent {
    /// Someone wants a slice, which the store has or has not.
    Wanted { stored: bool },
    /// How far someone else's fill is, or nothing where it vanished.
    Progressed(Option<Progress>),
    /// This caller's own fill is over, after so many slices.
    Over(Result<u32, OrchestratorError>),
}

/// What to do next to have an object filled.
#[derive(Debug)]
pub enum FillAction {
    /// Stream the object and cut it into slices.
    Run,
    /// Wait until the fill that is running has progressed.
    Wait,
    /// Tell those who wait, and be done.
    Tell(Progress, Result<(), OrchestratorError>),
    Done(Result<(), OrchestratorError>),
}

/// A slice that a fill has produced.
#[derive(Debug)]
pub struct Piece {
    pub key: SliceKey,
    pub value: SliceValue,
    /// How many slices can be read once this one is in the store.
    pub ready: u32,
}

impl Piece {
    /// Whether this is slice `index` of a planned object, holding these bytes.
    pub open spec fn is_slice(
        self,
        plan: Plan,
        slice_size: u32,
        index: int,
        bytes: Seq<u8>,
    ) -> bool {
        &&& self.key.object == plan.object
        &&& self.key.generation == plan.meta.generation
        &&& self.key.index == index
        &&& self.value.header@ == orchestrator::header_of(plan.meta@, slice_size)
        &&& self.value.payload@ == bytes
        &&& self.ready == index + 1
    }
}

impl Orchestrator {
    /// How to learn what an object is, given what the index holds of it.
    ///
    /// A stale entry means that the validators changed: the object is probed rather than served in
    /// the shape of its old version. The slice that the request starts in is probed with, since the
    /// request needs it anyway.
    pub fn metadata(&self, spec: Option<RangeSpec>, found: Option<ObjectMeta>) -> (out: Learn)
        ensures
            match found {
                Some(m) if !m.stale => out == Learn::Known(m),
                _ => {
                    let index = match spec {
                        Some(RangeSpec::FromTo(start, _)) => (start as int / self.size() as int)
                            as u32,
                        Some(RangeSpec::From(start)) => (start as int / self.size() as int) as u32,
                        _ => 0,
                    };
                    &&& out matches Learn::Probe { index: i, start, end }
                    &&& i == index
                    &&& start == range::slice_start(index as int, self.size() as int)
                    &&& end == start + self.size() - 1
                },
            },
    {
        match known(found) {
            Some(meta) => Learn::Known(meta),
            None => {
                let index = self.probe_index(spec);
                let (start, end) = self.probe_range(index);
                Learn::Probe { index, start, end }
            },
        }
    }

    /// What to do next to get slice `index` of a planned object.
    ///
    /// An origin that ignores ranges cannot serve one slice, so its object is filled as a whole and
    /// the slice is read back. Otherwise the slice is fetched by whoever asks first, and kept only
    /// if it has the right length and belongs to the version that the plan was made for.
    pub fn slice(&self, plan: &Plan, url: &str, index: u32, event: SliceEvent) -> (out: SliceAction)
        requires
            (event is Wanted && !plan.meta.no_ranges) || event is Answered ==> range::slice_start(
                index as int,
                self.size() as int,
            ) < plan.total_len,
        ensures
            ({
                let key = SliceKey {
                    object: plan.object,
                    generation: plan.meta.generation,
                    index,
                };
                let at = range::slice_start(index as int, self.size() as int);
                match event {
                    SliceEvent::Wanted => if plan.meta.no_ranges {
                        out is Fill
                    } else {
                        out matches SliceAction::Share { key: k, start, end } && k == key && start
                            == at && end == range::min_of(at + self.size(), plan.total_len as int)
                            - 1
                    },
                    SliceEvent::Answered(response) => {
                        let found = orchestrator::marks_in(response);
                        let expected = orchestrator::marks_of(*plan);
                        let len = orchestrator::slice_len(index, self.size(), plan.total_len);
                        if !validators::same_entity(expected, found) {
                            out matches SliceAction::Invalidate(
                                id,
                                OrchestratorError::ValidatorChanged { url: u, had, now },
                            ) && id == plan.object && u@ == url@ && wire::chars_in(had)
                                == expected.etag && wire::chars_in(now) == found.etag
                        } else if response.body@.len() != len {
                            out matches SliceAction::Fail(
                                OrchestratorError::ShortSlice { url: u, index: i, expected: e, actual },
                            ) && u@ == url@ && i == index && e == len && actual
                                == response.body@.len()
                        } else {
                            out matches SliceAction::Keep(k, v) && k == key && v.header@
                                == orchestrator::header_of(plan.meta@, self.size()) && v.payload@
                                == response.body@
                        }
                    },
                    SliceEvent::Unshared { source, changed } => out == (match changed {
                        Some(e) => SliceAction::Invalidate(plan.object, e),
                        None => SliceAction::Fail(OrchestratorError::Store(source)),
                    }),
                    SliceEvent::Filled(Ok(())) => out == SliceAction::Read(key),
                    SliceEvent::Filled(Err(e)) => out == SliceAction::Fail(e),
                    SliceEvent::Found(Some(v)) => out == SliceAction::Answer(v),
                    SliceEvent::Found(None) => out matches SliceAction::Fail(
                        OrchestratorError::Fill { url: u, reason },
                    ) && u@ == url@ && reason@ == "slice "@ + text::decimal(index as nat)
                        + " was reported ready but is not in the store"@,
                }
            }),
    {
        let key = SliceKey::new(plan.object, plan.meta.generation, index);
        match event {
            SliceEvent::Wanted => {
                if plan.meta.no_ranges {
                    return SliceAction::Fill;
                }
                proof {
                    use_type_invariant(self);
                    assert(0 <= index as int * self.size() as int) by (nonlinear_arith)
                        requires
                            0 <= index,
                            0 <= self.size(),
                    ;
                }
                match self.source(plan, index) {
                    Source::WholeObject => SliceAction::Fill,
                    Source::Range { start, end } => SliceAction::Share { key, start, end },
                }
            },
            SliceEvent::Answered(response) => {
                match self.accept_slice(plan, url, index, response) {
                    Ok(value) => SliceAction::Keep(key, value),
                    Err(OrchestratorError::ValidatorChanged { url, had, now }) => {
                        SliceAction::Invalidate(
                            plan.object,
                            OrchestratorError::ValidatorChanged { url, had, now },
                        )
                    },
                    Err(e) => SliceAction::Fail(e),
                }
            },
            SliceEvent::Unshared { source, changed } => match changed {
                Some(e) => SliceAction::Invalidate(plan.object, e),
                None => SliceAction::Fail(OrchestratorError::Store(source)),
            },
            SliceEvent::Filled(Ok(())) => SliceAction::Read(key),
            SliceEvent::Filled(Err(e)) => SliceAction::Fail(e),
            SliceEvent::Found(Some(value)) => SliceAction::Answer(value),
            SliceEvent::Found(None) => SliceAction::Fail(missing_after_fill(url, index)),
        }
    }

    /// What to do next to have an object filled as far as slice `index`.
    ///
    /// Exactly one caller streams the object; everyone else waits for the slice they need. The
    /// registry entry is given up whatever a fill comes to: leaving it would make the object
    /// unfillable for ever after one failure.
    pub fn ensure_filled(
        &self,
        registry: &mut FillRegistry,
        object: ObjectId,
        url: &str,
        index: u32,
        event: FillEvent,
    ) -> (out: FillAction)
        ensures
            match event {
                FillEvent::Wanted { stored } => {
                    &&& out == (if stored {
                        FillAction::Done(Ok(()))
                    } else if old(registry).filling().contains(object@) {
                        FillAction::Wait
                    } else {
                        FillAction::Run
                    })
                    &&& final(registry).filling() == (if out is Run {
                        old(registry).filling().push(object@)
                    } else {
                        old(registry).filling()
                    })
                },
                FillEvent::Progressed(progress) => {
                    &&& final(registry).filling() == old(registry).filling()
                    &&& match progress {
                        Some(Progress::Ready { count }) => out == (if index < count {
                            FillAction::Done(Ok(()))
                        } else {
                            FillAction::Wait
                        }),
                        Some(Progress::Complete { count }) => if index < count {
                            out == FillAction::Done(Ok(()))
                        } else {
                            gave_up(
                                out,
                                url@,
                                "fill completed with "@ + text::decimal(count as nat)
                                    + " slices; slice "@ + text::decimal(index as nat)
                                    + " was never produced"@,
                            )
                        },
                        Some(Progress::Failed { reason }) => gave_up(out, url@, reason@),
                        None => gave_up(
                            out,
                            url@,
                            "the fill was abandoned without completing"@,
                        ),
                    }
                },
                FillEvent::Over(result) => {
                    &&& !final(registry).filling().contains(object@)
                    &&& forall|other: Seq<u8>|
                        other != object@ ==> (#[trigger] final(registry).filling().contains(other)
                            <==> old(registry).filling().contains(other))
                    &&& out matches FillAction::Tell(told, mine)
                    &&& match result {
                        Ok(count) => {
                            &&& told == (Progress::Complete { count })
                            &&& if index < count {
                                mine is Ok
                            } else {
                                gave_up(
                                    FillAction::Done(mine),
                                    url@,
                                    "fill produced "@ + text::decimal(count as nat)
                                        + " slices; slice "@ + text::decimal(index as nat)
                                        + " was never reached"@,
                                )
                            }
                        },
                        Err(e) => {
                            &&& told matches Progress::Failed { reason }
                            &&& reason@ == e.message_spec()
                            &&& mine == Err::<(), OrchestratorError>(e)
                        },
                    }
                },
            },
    {
        match event {
            FillEvent::Wanted { stored } => {
                if stored {
                    return FillAction::Done(Ok(()));
                }
                match registry.claim(object) {
                    Role::Filler => FillAction::Run,
                    Role::Subscriber => FillAction::Wait,
                }
            },
            FillEvent::Progressed(progress) => {
                let outcome = match &progress {
                    Some(p) => filler::wait_for(p, index),
                    None => Wait::Failed(filler::abandoned()),
                };
                match outcome {
                    Wait::Ready => FillAction::Done(Ok(())),
                    Wait::Pending => FillAction::Wait,
                    Wait::Failed(reason) => FillAction::Done(
                        Err(OrchestratorError::Fill { url: url.to_owned(), reason }),
                    ),
                }
            },
            FillEvent::Over(result) => {
                registry.release(&object);
                let (told, mine) = fill_outcome(url, index, result);
                FillAction::Tell(told, mine)
            },
        }
    }

    fn piece(&self, plan: &Plan, index: u32, payload: Vec<u8>) -> (out: Piece)
        requires
            index < u32::MAX,
        ensures
            out.is_slice(*plan, self.size(), index as int, payload@),
    {
        Piece {
            key: SliceKey::new(plan.object, plan.meta.generation, index),
            value: SliceValue::new(header_for(&plan.meta, self.slice_size()), payload),
            ready: index + 1,
        }
    }

    /// The slices that some more of the body completes, in the order in which they are to be stored
    /// and announced.
    pub fn run_fill(&self, plan: &Plan, cutter: &mut Cutter, chunk: &[u8]) -> (out: Vec<Piece>)
        requires
            old(cutter).arrived().len() + chunk@.len() < u32::MAX * old(cutter).size(),
        ensures
            final(cutter).arrived() == old(cutter).arrived() + chunk@,
            final(cutter).size() == old(cutter).size(),
            final(cutter).cut() == old(cutter).cut() + out@.len(),
            final(cutter).arrived().len() - final(cutter).cut() * final(cutter).size()
                < final(cutter).size(),
            forall|i: int|
                0 <= i < out@.len() ==> (#[trigger] out@[i]).is_slice(
                    *plan,
                    self.size(),
                    old(cutter).cut() + i,
                    range::slice_of(
                        final(cutter).arrived(),
                        old(cutter).cut() + i,
                        final(cutter).size() as int,
                    ),
                ),
    {
        let before: u32 = cutter.count();
        let mut payloads = cutter.push(chunk);
        let after: u32 = cutter.count();
        let ghost all = payloads@;
        let mut out: Vec<Piece> = Vec::new();
        let n: usize = payloads.len();
        let mut i: usize = 0;
        while i < n
            invariant
                n == all.len(),
                i <= n,
                payloads@ == all.skip(i as int),
                out@.len() == i,
                before + n == after,
                before == old(cutter).cut(),
                forall|j: int|
                    0 <= j < n ==> (#[trigger] all[j])@ == range::slice_of(
                        cutter.arrived(),
                        before + j,
                        cutter.size() as int,
                    ),
                forall|j: int|
                    0 <= j < i ==> (#[trigger] out@[j]).is_slice(
                        *plan,
                        self.size(),
                        before + j,
                        all[j]@,
                    ),
            decreases n - i,
        {
            let payload = payloads.remove(0);
            assert(payload@ == all[i as int]@);
            assert(payloads@ =~= all.skip(i + 1));
            out.push(self.piece(plan, before + i as u32, payload));
            i = i + 1;
        }
        out
    }

    /// The body is over: the slice that is left of it, if any is, and how many there were.
    pub fn end_fill(&self, plan: &Plan, cutter: Cutter) -> (out: (Option<Piece>, u32))
        requires
            cutter.arrived().len() < u32::MAX * cutter.size(),
        ensures
            match out.0 {
                Some(last) => {
                    &&& last.is_slice(
                        *plan,
                        self.size(),
                        cutter.cut() as int,
                        range::slice_of(
                            cutter.arrived(),
                            cutter.cut() as int,
                            cutter.size() as int,
                        ),
                    )
                    &&& last.value.payload@.len() > 0
                    &&& out.1 == cutter.cut() + 1
                },
                None => out.1 == cutter.cut() && cutter.cut() * cutter.size()
                    == cutter.arrived().len(),
            },
    {
        let index: u32 = cutter.count();
        let (left, count) = cutter.finish();
        match left {
            Some(payload) => (Some(self.piece(plan, index, payload)), count),
            None => (None, count),
        }
    }
}

impl Orchestrator {
    /// The bytes of slice `index` that go into the answer. A slice too short for them fails the
    /// answer: a short body that looks successful is worse than an error.
    pub fn body_piece(
        &self,
        plan: &Plan,
        url: &str,
        index: u32,
        value: &SliceValue,
    ) -> (out: Result<Vec<u8>, OrchestratorError>)
        requires
            0 <= plan.wanted.end - range::slice_start(index as int, self.size() as int) < u64::MAX,
            plan.wanted.start - range::slice_start(index as int, self.size() as int) <= usize::MAX,
        ensures
            ({
                let (from, to) = range::window(index as int, self.size() as int, plan.wanted);
                if from <= to <= value.payload@.len() {
                    out matches Ok(bytes) && bytes@ == value.payload@.subrange(from, to)
                } else {
                    out matches Err(
                        OrchestratorError::ShortSlice { url: u, index: i, expected, actual },
                    ) && u@ == url@ && i == index && expected == (if from <= to {
                        to - from
                    } else {
                        0
                    }) && actual == value.payload@.len()
                }
            }),
    {
        let window = self.window(plan, index);
        match payload_window(value, window) {
            Ok(bytes) => Ok(bytes),
            Err(_) => Err(
                OrchestratorError::ShortSlice {
                    url: url.to_owned(),
                    index,
                    expected: window.1.saturating_sub(window.0) as u64,
                    actual: value.payload.len(),
                },
            ),
        }
    }
}

/// Whether a wait for a slice ends with this reason.
pub open spec fn gave_up(action: FillAction, url: Seq<char>, why: Seq<char>) -> bool {
    action matches FillAction::Done(Err(OrchestratorError::Fill { url: u, reason })) && u@ == url
        && reason@ == why
}

/// Invalidating an object leaves its slices behind, all at once: under the generation that is valid
/// from then on no slice has the key, or the bytes of the key, of any slice of the old version.
pub proof fn invalidation_leaves_old_slices_behind(
    meta: index::Meta,
    object: ObjectId,
    old_index: u32,
    new_index: u32,
)
    ensures
        ({
            let before = SliceKey { object, generation: meta.generation, index: old_index };
            let after = SliceKey {
                object,
                generation: index::generation_after(meta.generation),
                index: new_index,
            };
            before != after && slice::key_bytes(before) != slice::key_bytes(after)
        }),
{
    let before = SliceKey { object, generation: meta.generation, index: old_index };
    let after = SliceKey {
        object,
        generation: index::generation_after(meta.generation),
        index: new_index,
    };
    if slice::key_bytes(before) == slice::key_bytes(after) {
        slice::slice_keys_read_back(before, after);
    }
}

/// A piece of a fill is kept under the object, the generation and the index that it is read by, holds
/// the bytes of its slice, and is announced as soon as it is there.
pub proof fn pieces_are_kept_where_they_are_read(
    piece: Piece,
    plan: Plan,
    slice_size: u32,
    index: int,
    bytes: Seq<u8>,
)
    requires
        piece.is_slice(plan, slice_size, index, bytes),
    ensures
        piece.key.object == plan.object,
        piece.key.generation == plan.meta.generation,
        piece.key.index == index,
        piece.value.payload@ == bytes,
        piece.value.header@.total_len == plan.meta.total_len,
        piece.value.header@.slice_size == slice_size,
        piece.ready == index + 1,
{
}

} // verus!
