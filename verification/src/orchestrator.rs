//! How a request is answered: what is asked of the origin, what is kept, and when it is thrown
//! away.
//!
//! A request becomes a set of slices. Object metadata comes from the index where that can be
//! trusted and from a probe otherwise; slices come from the store or from the origin; and every
//! byte that came from the origin is held against what is already known of the object before it is
//! kept.
use crate::config::units;
use crate::config::units::quoted;
use crate::orchestrator::filler::Progress;
use crate::orchestrator::readahead::ReadaheadPolicy;
use crate::orchestrator::validators::Validators;
use crate::proxy::headers;
use crate::proxy::headers::CacheStatus;
use crate::proxy::range;
use crate::proxy::range::{ByteRange, RangeSpec, SlicePlan};
use crate::store::hybrid::StoreError;
use crate::store::index;
use crate::store::index::ObjectMeta;
use crate::store::slice;
use crate::store::slice::{clone_text, ObjectId, SliceHeader, SliceKey, SliceValue};
use crate::text;
use crate::upstream::client;
use crate::upstream::client::{UpstreamError, UpstreamResponse};
use crate::wire;
use vstd::prelude::*;
use vstd::slice::{slice_subrange, slice_to_vec};
use vstd::string::*;

pub mod filler;
pub mod flow;
pub mod readahead;
pub mod validators;

verus! {

/// What was decided about a request, before any body is produced.
#[derive(Debug)]
pub struct Plan {
    pub status: u16,
    pub wanted: ByteRange,
    pub total_len: u64,
    pub cache_status: CacheStatus,
    pub meta: ObjectMeta,
    pub object: ObjectId,
    pub partial: bool,
}

#[derive(Debug, PartialEq, Eq)]
pub enum OrchestratorError {
    /// None of the bytes that were asked for are there. The validators are those of the object that
    /// is.
    Unsatisfiable { total_len: u64, current: Validators },
    Upstream(UpstreamError),
    Store(StoreError),
    NoLength { url: String },
    ShortSlice { url: String, index: u32, expected: u64, actual: usize },
    ValidatorChanged { url: String, had: Option<String>, now: Option<String> },
    Fill { url: String, reason: String },
}

/// How an optional string is shown in an error.
pub open spec fn optional_text(s: Option<Seq<char>>) -> Seq<char> {
    match s {
        Some(v) => "Some("@ + units::quoted_text(v) + ")"@,
        None => "None"@,
    }
}

pub(crate) fn show_optional(s: &Option<String>) -> (out: String)
    ensures
        out@ == optional_text(wire::chars_in(*s)),
{
    match s {
        Some(v) => {
            let mut out = "Some(".to_owned();
            out.append(quoted(v.as_str()).as_str());
            out.append(")");
            out
        },
        None => "None".to_owned(),
    }
}

impl OrchestratorError {
    pub open spec fn message_spec(self) -> Seq<char> {
        match self {
            OrchestratorError::Unsatisfiable { total_len, .. } => "range is not satisfiable for a "@
                + text::decimal(total_len as nat) + "-byte object"@,
            OrchestratorError::Upstream(e) => e.message_spec(),
            OrchestratorError::Store(e) => e.message_spec(),
            OrchestratorError::NoLength { url } => "upstream did not report a length for "@ + url@
                + ", so the object cannot be sliced"@,
            OrchestratorError::ShortSlice { url, index, expected, actual } => "slice "@
                + text::decimal(index as nat) + " of "@ + url@ + ": expected "@ + text::decimal(
                expected as nat,
            ) + " bytes, upstream sent "@ + text::decimal(actual as nat),
            OrchestratorError::ValidatorChanged { url, had, now } => "validators for "@ + url@
                + " changed mid-object ("@ + optional_text(wire::chars_in(had)) + " -> "@
                + optional_text(wire::chars_in(now)) + "); aborting so the client retries"@,
            OrchestratorError::Fill { url, reason } => "filling "@ + url@ + ": "@ + reason@,
        }
    }

    /// The error in words.
    pub fn message(&self) -> (out: String)
        ensures
            out@ == self.message_spec(),
    {
        match self {
            OrchestratorError::Unsatisfiable { total_len, .. } => {
                let mut out = "range is not satisfiable for a ".to_owned();
                out.append(text::decimal_string(*total_len).as_str());
                out.append("-byte object");
                out
            },
            OrchestratorError::Upstream(e) => e.message(),
            OrchestratorError::Store(e) => e.message(),
            OrchestratorError::NoLength { url } => {
                let mut out = "upstream did not report a length for ".to_owned();
                out.append(url.as_str());
                out.append(", so the object cannot be sliced");
                out
            },
            OrchestratorError::ShortSlice { url, index, expected, actual } => {
                let mut out = "slice ".to_owned();
                out.append(text::decimal_string(*index as u64).as_str());
                out.append(" of ");
                out.append(url.as_str());
                out.append(": expected ");
                out.append(text::decimal_string(*expected).as_str());
                out.append(" bytes, upstream sent ");
                out.append(text::decimal_string(*actual as u64).as_str());
                out
            },
            OrchestratorError::ValidatorChanged { url, had, now } => {
                let mut out = "validators for ".to_owned();
                out.append(url.as_str());
                out.append(" changed mid-object (");
                out.append(show_optional(had).as_str());
                out.append(" -> ");
                out.append(show_optional(now).as_str());
                out.append("); aborting so the client retries");
                out
            },
            OrchestratorError::Fill { url, reason } => {
                let mut out = "filling ".to_owned();
                out.append(url.as_str());
                out.append(": ");
                out.append(reason.as_str());
                out
            },
        }
    }
}

/// The header that the slices of an object carry.
pub open spec fn header_of(meta: index::Meta, slice_size: u32) -> slice::Header {
    slice::Header {
        slice_size,
        total_len: meta.total_len,
        generation: meta.generation,
        etag: meta.etag,
        last_modified: meta.last_modified,
        content_type: meta.content_type,
    }
}

/// The header that the slices of an object carry.
pub fn header_for(meta: &ObjectMeta, slice_size: u32) -> (out: SliceHeader)
    ensures
        out@ == header_of(meta@, slice_size),
{
    SliceHeader {
        slice_size,
        total_len: meta.total_len,
        generation: meta.generation,
        etag: clone_text(&meta.etag),
        last_modified: clone_text(&meta.last_modified),
        content_type: clone_text(&meta.content_type),
    }
}

/// What a `Range` header asks for; nothing where there is none, or none that can be honoured.
pub open spec fn request_of(raw: Option<Seq<char>>) -> Option<RangeSpec> {
    match raw {
        Some(v) => match range::range_spec(v) {
            Ok(spec) => Some(spec),
            Err(_) => None,
        },
        None => None,
    }
}

/// What a `Range` header asks for. A header that cannot be parsed, or that asks for several ranges,
/// is answered with the whole object.
pub fn requested(raw_range: Option<&str>) -> (out: Option<RangeSpec>)
    ensures
        out == request_of(
            match raw_range {
                Some(s) => Some(s@),
                None => None,
            },
        ),
        out matches Some(RangeSpec::FromTo(a, b)) ==> a <= b,
{
    match raw_range {
        None => None,
        Some(value) => match range::parse_range(value) {
            Ok(spec) => Some(spec),
            Err(_) => None,
        },
    }
}

/// The entry that a request can go by without probing. A stale one cannot be gone by: everything it
/// records except the generation is unreliable.
pub fn known(found: Option<ObjectMeta>) -> (out: Option<ObjectMeta>)
    ensures
        out is Some <==> (found matches Some(m) && !m.stale),
        out is Some ==> out == found,
{
    match found {
        Some(meta) => if meta.stale {
            None
        } else {
            Some(meta)
        },
        None => None,
    }
}

/// The bytes that are sent for a request, of an object of known length.
pub open spec fn wanted_bytes(spec: Option<RangeSpec>, total_len: u64) -> Option<ByteRange> {
    match spec {
        None => Some(
            ByteRange {
                start: 0,
                end: if total_len == 0 {
                    0
                } else {
                    (total_len - 1) as u64
                },
            },
        ),
        Some(s) => match range::resolved(s, total_len) {
            Ok(r) => Some(r),
            Err(_) => None,
        },
    }
}

/// How many of some flags are set.
pub open spec fn count_set(flags: Seq<bool>) -> nat
    decreases flags.len(),
{
    if flags.len() == 0 {
        0
    } else {
        count_set(flags.drop_last()) + (if flags.last() {
            1nat
        } else {
            0nat
        })
    }
}

/// How a request is classified: the slice that was probed for it moments ago is no evidence of an
/// earlier request, so a cold request is a miss.
pub open spec fn status_of(
    resident: nat,
    span: SlicePlan,
    probed: Option<u32>,
) -> CacheStatus {
    let total = span.last - span.first + 1;
    let counted = match probed {
        Some(i) => if span.first <= i <= span.last && resident > 0 {
            resident - 1
        } else {
            resident as int
        },
        None => resident as int,
    };
    if counted == total {
        CacheStatus::Hit
    } else if counted == 0 {
        CacheStatus::Miss
    } else {
        CacheStatus::Partial
    }
}

/// What a probe found out.
#[derive(Debug)]
pub struct Probed {
    /// What the index is to hold from now on.
    pub meta: ObjectMeta,
    /// The slice that came with it, to be kept rather than fetched again.
    pub slice: Option<(SliceKey, SliceValue)>,
}

/// What an object is taken to be after a probe.
pub open spec fn meta_of(
    key: Seq<char>,
    lines: Seq<headers::Line>,
    total_len: u64,
    no_ranges: bool,
    generation: u32,
    now: u64,
) -> index::Meta {
    index::Meta {
        key,
        total_len,
        generation,
        etag: headers::text_value(lines, "etag"@),
        last_modified: headers::text_value(lines, "last-modified"@),
        content_type: headers::text_value(lines, "content-type"@),
        no_ranges,
        created: now,
        last_seen: now,
        stale: false,
    }
}

/// The total length that a `206` answer declares.
pub open spec fn declared_total(lines: Seq<headers::Line>) -> Option<u64> {
    match headers::text_value(lines, "content-range"@) {
        Some(v) => client::total_in(v),
        None => None,
    }
}

/// How a slice comes in.
#[derive(Debug, Clone, Copy, PartialEq, Eq, Structural)]
pub enum Source {
    /// The origin ignores ranges: the whole object is filled, and this request waits for its slice.
    WholeObject,
    /// Fetch these bytes.
    Range { start: u64, end: u64 },
}

/// The rules by which requests are planned, for one slice size.
#[derive(Debug)]
pub struct Orchestrator {
    slice_size: u32,
    readahead: usize,
}

impl Orchestrator {
    pub closed spec fn size(self) -> u32 {
        self.slice_size
    }

    pub closed spec fn ahead(self) -> usize {
        self.readahead
    }

    #[verifier::type_invariant]
    spec fn well_formed(self) -> bool {
        self.slice_size > 0 && self.readahead > 0
    }

    /// A window of zero is taken for one: a request must be able to fetch the slice it needs.
    pub fn new(slice_size: u32, readahead: usize) -> (out: Self)
        requires
            slice_size > 0,
        ensures
            out.size() == slice_size,
            out.ahead() == (if readahead == 0 {
                1
            } else {
                readahead
            }),
    {
        Orchestrator {
            slice_size,
            readahead: if readahead == 0 {
                1
            } else {
                readahead
            },
        }
    }

    /// The slice worth probing with: the one that the request starts in. A suffix cannot be
    /// resolved without the length, so it probes the first. An index is kept in 32 bits.
    pub fn probe_index(&self, spec: Option<RangeSpec>) -> (out: u32)
        ensures
            out == (match spec {
                Some(RangeSpec::FromTo(start, _)) => (start as int / self.size() as int) as u32,
                Some(RangeSpec::From(start)) => (start as int / self.size() as int) as u32,
                _ => 0,
            }),
    {
        proof {
            use_type_invariant(self);
        }
        match spec {
            Some(RangeSpec::FromTo(start, _)) => {
                #[verifier::truncate] ((start / self.slice_size as u64) as u32)
            },
            Some(RangeSpec::From(start)) => {
                #[verifier::truncate] ((start / self.slice_size as u64) as u32)
            },
            _ => 0,
        }
    }

    /// The bytes to ask for when probing with a slice.
    pub fn probe_range(&self, index: u32) -> (out: (u64, u64))
        ensures
            out.0 == range::slice_start(index as int, self.size() as int),
            out.1 == out.0 + self.size() - 1,
    {
        proof {
            use_type_invariant(self);
        }
        assert(index as int * self.slice_size as int <= 0xffff_ffff * 0xffff_ffff)
            by (nonlinear_arith)
            requires
                0 <= index <= 0xffff_ffff,
                0 <= self.slice_size <= 0xffff_ffff,
        ;
        let start: u64 = index as u64 * self.slice_size as u64;
        (start, start + self.slice_size as u64 - 1)
    }

    /// What the answer to a probe with slice `index` says about an object.
    ///
    /// The generation of the previous entry is kept, or slices of the old version would become
    /// addressable again. An origin that answered with the whole object ignores ranges; its length
    /// is still known.
    pub fn probed(
        &self,
        key: &str,
        object: ObjectId,
        url: &str,
        index: u32,
        response: UpstreamResponse,
        previous: Option<ObjectMeta>,
        now: u64,
    ) -> (out: Result<Probed, OrchestratorError>)
        ensures
            ({
                let ranged = response.status == 206;
                let total = declared_total(response.headers@);
                let generation = match previous {
                    Some(m) => m.generation,
                    None => 0,
                };
                if ranged && total is None {
                    out matches Err(OrchestratorError::NoLength { url: u }) && u@ == url@
                } else {
                    let len = if ranged {
                        total->0
                    } else {
                        response.body@.len() as u64
                    };
                    let meta = meta_of(
                        key@,
                        response.headers@,
                        len,
                        !ranged,
                        generation,
                        now,
                    );
                    &&& out matches Ok(p)
                    &&& p.meta@ == meta
                    &&& p.slice is Some <==> ranged
                    &&& p.slice matches Some((k, v)) ==> {
                        &&& k == (SliceKey { object, generation, index })
                        &&& v.header@ == header_of(meta, self.size())
                        &&& v.payload@ == response.body@
                    }
                }
            }),
    {
        let generation: u32 = match previous {
            Some(m) => m.generation,
            None => 0,
        };
        let etag = response.header("etag");
        let last_modified = response.header("last-modified");
        let content_type = response.header("content-type");
        let ranged = response.status == 206;
        let total_len: u64 = if ranged {
            match response.content_range_total() {
                Some(n) => n,
                None => return Err(OrchestratorError::NoLength { url: url.to_owned() }),
            }
        } else {
            response.body.len() as u64
        };
        let meta = ObjectMeta {
            key: key.to_owned(),
            total_len,
            generation,
            etag,
            last_modified,
            content_type,
            no_ranges: !ranged,
            created: now,
            last_seen: now,
            stale: false,
        };
        let slice = if ranged {
            let header = header_for(&meta, self.slice_size);
            Some(
                (
                    SliceKey::new(object, generation, index),
                    SliceValue::new(header, response.body),
                ),
            )
        } else {
            None
        };
        Ok(Probed { meta, slice })
    }

    /// The slices that a request needs, where it can be satisfied at all. Nothing is needed of an
    /// empty object.
    pub fn span(&self, spec: Option<RangeSpec>, meta: &ObjectMeta) -> (out: Result<
        Option<SlicePlan>,
        OrchestratorError,
    >)
        ensures
            match wanted_bytes(spec, meta.total_len) {
                None => out matches Err(e) && is_unsatisfiable(e, *meta),
                Some(wanted) => out == Ok::<Option<SlicePlan>, OrchestratorError>(
                    if meta.total_len == 0 {
                        None
                    } else {
                        Some(range::planned(wanted, self.size()))
                    },
                ),
            },
    {
        proof {
            use_type_invariant(self);
        }
        match wanted_range(spec, meta.total_len) {
            None => Err(unsatisfiable(meta)),
            Some(wanted) => Ok(
                if meta.total_len == 0 {
                    None
                } else {
                    Some(range::plan(wanted, self.slice_size))
                },
            ),
        }
    }

    /// Decide what to send, without producing any body.
    ///
    /// `resident` says of each planned slice whether the store held it, and `probed` which slice
    /// was fetched for this very request to learn what the object is.
    pub fn plan(
        &self,
        spec: Option<RangeSpec>,
        object: ObjectId,
        meta: ObjectMeta,
        resident: &Vec<bool>,
        probed: Option<u32>,
    ) -> (out: Result<Plan, OrchestratorError>)
        requires
            (meta.total_len > 0 && wanted_bytes(spec, meta.total_len) is Some) ==> ({
                let span = range::planned(wanted_bytes(spec, meta.total_len)->0, self.size());
                resident@.len() == span.last - span.first + 1 && 0 < resident@.len() <= u32::MAX
            }),
        ensures
            match wanted_bytes(spec, meta.total_len) {
                None => out matches Err(e) && is_unsatisfiable(e, meta),
                Some(wanted) => {
                    &&& out matches Ok(p)
                    &&& p.status == (if spec is Some {
                        206int
                    } else {
                        200int
                    })
                    &&& p.partial == spec is Some
                    &&& p.wanted == wanted
                    &&& p.total_len == meta.total_len
                    &&& p.meta == meta
                    &&& p.object == object
                    &&& p.cache_status == (if meta.total_len == 0 {
                        CacheStatus::Hit
                    } else {
                        status_of(
                            count_set(resident@),
                            range::planned(wanted, self.size()),
                            probed,
                        )
                    })
                },
            },
    {
        proof {
            use_type_invariant(self);
        }
        let wanted = match wanted_range(spec, meta.total_len) {
            Some(r) => r,
            None => return Err(unsatisfiable(&meta)),
        };
        let partial = spec.is_some();
        let cache_status = if meta.total_len == 0 {
            CacheStatus::Hit
        } else {
            let span = range::plan(wanted, self.slice_size);
            proof {
                lemma_count_bound(resident@);
            }
            let mut count: u32 = count_flags(resident) as u32;
            if let Some(index) = probed {
                if span.first <= index && index <= span.last {
                    count = count.saturating_sub(1);
                }
            }
            CacheStatus::classify(count, span.count())
        };
        Ok(
            Plan {
                status: if partial {
                    206
                } else {
                    200
                },
                wanted,
                total_len: meta.total_len,
                cache_status,
                meta,
                object,
                partial,
            },
        )
    }

    /// Where slice `index` of a planned object comes from.
    pub fn source(&self, plan: &Plan, index: u32) -> (out: Source)
        requires
            range::slice_start(index as int, self.size() as int) < plan.total_len,
        ensures
            out == (if plan.meta.no_ranges {
                Source::WholeObject
            } else {
                Source::Range {
                    start: range::slice_start(index as int, self.size() as int) as u64,
                    end: range::min_of(
                        range::slice_start(index as int, self.size() as int) + self.size() - 1,
                        plan.total_len - 1,
                    ) as u64,
                }
            }),
    {
        proof {
            use_type_invariant(self);
        }
        if plan.meta.no_ranges {
            return Source::WholeObject;
        }
        let extent = range::slice_extent(index, self.slice_size, plan.total_len);
        Source::Range { start: extent.start, end: extent.end }
    }

    /// What to do with the bytes that came for slice `index`.
    ///
    /// If the validators are not the ones that the plan was made for, the object changed, and there
    /// is no correct way to finish a response whose first half came from a version that no longer
    /// exists: it fails, and the object is to be invalidated. A slice of the wrong length is never
    /// kept either.
    pub fn accept_slice(
        &self,
        plan: &Plan,
        url: &str,
        index: u32,
        response: UpstreamResponse,
    ) -> (out: Result<SliceValue, OrchestratorError>)
        requires
            range::slice_start(index as int, self.size() as int) < plan.total_len,
        ensures
            ({
                let found = marks_in(response);
                let expected = marks_of(*plan);
                let len = slice_len(index, self.size(), plan.total_len);
                if !validators::same_entity(expected, found) {
                    out matches Err(OrchestratorError::ValidatorChanged { url: u, had, now }) && u@
                        == url@ && wire::chars_in(had) == expected.etag && wire::chars_in(now)
                        == found.etag
                } else if response.body@.len() != len {
                    out matches Err(
                        OrchestratorError::ShortSlice { url: u, index: i, expected: e, actual },
                    ) && u@ == url@ && i == index && e == len && actual == response.body@.len()
                } else {
                    out matches Ok(v) && v.header@ == header_of(plan.meta@, self.size())
                        && v.payload@ == response.body@
                }
            }),
    {
        proof {
            use_type_invariant(self);
        }
        let extent = range::slice_extent(index, self.slice_size, plan.total_len);
        let expected = Validators::new(
            clone_text(&plan.meta.etag),
            clone_text(&plan.meta.last_modified),
        );
        let found = Validators::new(response.header("etag"), response.header("last-modified"));
        if !expected.matches(&found) {
            return Err(
                OrchestratorError::ValidatorChanged {
                    url: url.to_owned(),
                    had: expected.etag,
                    now: found.etag,
                },
            );
        }
        let expected_len: u64 = extent.len();
        let actual: usize = response.body.len();
        if actual as u64 != expected_len {
            return Err(
                OrchestratorError::ShortSlice {
                    url: url.to_owned(),
                    index,
                    expected: expected_len,
                    actual,
                },
            );
        }
        Ok(SliceValue::new(header_for(&plan.meta, self.slice_size), response.body))
    }

    /// The slices to prefetch on behalf of a request, if the client is streaming. Those already
    /// resident need no fetch.
    ///
    /// This is the only place where bytes are fetched that nobody asked for, so it goes by a
    /// demonstrated pattern.
    pub fn maybe_prefetch(&self, policy: &mut ReadaheadPolicy, plan: &Plan, now: u64) -> (out:
        std::ops::Range<u32>)
        ensures
            ({
                let span = range::planned(plan.wanted, self.size());
                if plan.total_len == 0 || plan.meta.no_ranges {
                    &&& (out.start, out.end) == (0u32, 0u32)
                    &&& final(policy).tracked_patterns() == old(policy).tracked_patterns()
                    &&& final(policy).window_size() == old(policy).window_size()
                } else {
                    &&& (out.start, out.end) == readahead::prefetch_span(
                        old(policy).window_size(),
                        readahead::access_of(
                            old(policy).tracked_patterns(),
                            plan.object,
                            span.first,
                            now,
                        ),
                        span.last,
                        last_slice_of(plan.total_len, self.size()),
                    )
                    &&& final(policy).tracked_patterns() == readahead::observed(
                        old(policy).tracked_patterns(),
                        plan.object,
                        span.first,
                        span.last,
                        now,
                    )
                    &&& final(policy).window_size() == old(policy).window_size()
                }
            }),
    {
        proof {
            use_type_invariant(self);
        }
        if plan.total_len == 0 || plan.meta.no_ranges {
            return 0..0;
        }
        let span = range::plan(plan.wanted, self.slice_size);
        let access = policy.observe(plan.object, span.first, span.last, now);
        let exact: u64 = (plan.total_len - 1) / self.slice_size as u64;
        let last_slice: u32 = if exact < u32::MAX as u64 {
            exact as u32
        } else {
            u32::MAX
        };
        policy.prefetch(access, span.last, last_slice)
    }

    /// The slice indices a plan needs, in order.
    pub fn indices(&self, plan: &Plan) -> (out: Vec<u32>)
        ensures
            ({
                let span = range::planned(plan.wanted, self.size());
                if plan.total_len == 0 || span.first > span.last {
                    out@.len() == 0
                } else {
                    &&& out@.len() == span.last - span.first + 1
                    &&& forall|i: int| 0 <= i < out@.len() ==> out@[i] == span.first + i
                }
            }),
    {
        proof {
            use_type_invariant(self);
        }
        if plan.total_len == 0 {
            return Vec::new();
        }
        range::plan(plan.wanted, self.slice_size).indices()
    }

    /// The window of a slice's payload that satisfies the request.
    pub fn window(&self, plan: &Plan, index: u32) -> (out: (usize, usize))
        requires
            0 <= plan.wanted.end - range::slice_start(index as int, self.size() as int) < u64::MAX,
            plan.wanted.start - range::slice_start(index as int, self.size() as int) <= usize::MAX,
        ensures
            (out.0 as int, out.1 as int) == range::window(
                index as int,
                self.size() as int,
                plan.wanted,
            ),
    {
        range::payload_window(index, self.slice_size, plan.wanted)
    }

    pub fn readahead(&self) -> (out: usize)
        ensures
            out == self.ahead(),
            out > 0,
    {
        proof {
            use_type_invariant(self);
        }
        self.readahead
    }

    pub fn slice_size(&self) -> (out: u32)
        ensures
            out == self.size(),
            out > 0,
    {
        proof {
            use_type_invariant(self);
        }
        self.slice_size
    }
}

/// The validators of an object.
pub open spec fn marks_of_object(meta: ObjectMeta) -> validators::Marks {
    validators::Marks {
        etag: wire::chars_in(meta.etag),
        last_modified: wire::chars_in(meta.last_modified),
    }
}

/// The validators that a plan was made for.
pub open spec fn marks_of(plan: Plan) -> validators::Marks {
    marks_of_object(plan.meta)
}

/// Whether an error says that an object has none of the bytes that were asked for, and what object
/// that is.
pub open spec fn is_unsatisfiable(e: OrchestratorError, meta: ObjectMeta) -> bool {
    e matches OrchestratorError::Unsatisfiable { total_len, current } && total_len
        == meta.total_len && current@ == marks_of_object(meta)
}

fn unsatisfiable(meta: &ObjectMeta) -> (out: OrchestratorError)
    ensures
        is_unsatisfiable(out, *meta),
{
    OrchestratorError::Unsatisfiable {
        total_len: meta.total_len,
        current: Validators::new(clone_text(&meta.etag), clone_text(&meta.last_modified)),
    }
}

/// The validators that came with an answer.
pub open spec fn marks_in(response: UpstreamResponse) -> validators::Marks {
    validators::Marks {
        etag: headers::text_value(response.headers@, "etag"@),
        last_modified: headers::text_value(response.headers@, "last-modified"@),
    }
}

/// How many bytes slice `index` of an object holds.
pub open spec fn slice_len(index: u32, slice_size: u32, total_len: u64) -> int {
    let start = range::slice_start(index as int, slice_size as int);
    range::min_of(start + slice_size, total_len as int) - start
}

/// The index of the last slice of an object, kept in 32 bits.
pub open spec fn last_slice_of(total_len: u64, slice_size: u32) -> u32 {
    let exact = (total_len - 1) / slice_size as int;
    if exact < u32::MAX {
        exact as u32
    } else {
        u32::MAX
    }
}

fn wanted_range(spec: Option<RangeSpec>, total_len: u64) -> (out: Option<ByteRange>)
    ensures
        out == wanted_bytes(spec, total_len),
{
    match spec {
        None => match range::whole(total_len) {
            Some(r) => Some(r),
            None => Some(ByteRange { start: 0, end: 0 }),
        },
        Some(s) => match range::resolve(s, total_len) {
            Ok(r) => Some(r),
            Err(_) => None,
        },
    }
}

fn count_flags(flags: &Vec<bool>) -> (out: usize)
    ensures
        out == count_set(flags@),
{
    let mut count: usize = 0;
    let n: usize = flags.len();
    assert(flags@.take(0) =~= Seq::empty());
    for i in 0..n
        invariant
            n == flags@.len(),
            count <= i,
            count == count_set(flags@.take(i as int)),
    {
        assert(flags@.take(i + 1).drop_last() =~= flags@.take(i as int));
        if flags[i] {
            count = count + 1;
        }
    }
    assert(flags@.take(n as int) =~= flags@);
    count
}

proof fn lemma_count_bound(flags: Seq<bool>)
    ensures
        count_set(flags) <= flags.len(),
    decreases flags.len(),
{
    if flags.len() > 0 {
        lemma_count_bound(flags.drop_last());
    }
}

/// The span of a range that lies in an object runs forward.
proof fn lemma_span_ordered(wanted: ByteRange, slice_size: u32, total_len: u64)
    requires
        slice_size > 0,
        wanted.start <= wanted.end < total_len,
        (total_len - 1) as int / slice_size as int <= u32::MAX,
    ensures
        range::planned(wanted, slice_size).first <= range::planned(wanted, slice_size).last,
        range::planned(wanted, slice_size).first == wanted.start as int / slice_size as int,
        range::planned(wanted, slice_size).last == wanted.end as int / slice_size as int,
{
    let s = slice_size as int;
    let a = wanted.start as int;
    let b = wanted.end as int;
    let t = total_len - 1;
    assert(0 <= a / s <= b / s <= t / s) by (nonlinear_arith)
        requires
            0 <= a <= b <= t,
            s > 0,
    ;
}

/// What has to be told to those who wait, and to the one who filled, when a fill is over.
///
/// A failure is told to everyone rather than leaving them waiting.
pub fn fill_outcome(url: &str, index: u32, result: Result<u32, OrchestratorError>) -> (out: (
    Progress,
    Result<(), OrchestratorError>,
))
    ensures
        match result {
            Ok(count) => {
                &&& out.0 == (Progress::Complete { count })
                &&& if index < count {
                    out.1 is Ok
                } else {
                    out.1 matches Err(OrchestratorError::Fill { url: u, reason }) && u@ == url@
                        && reason@ == "fill produced "@ + text::decimal(count as nat)
                        + " slices; slice "@ + text::decimal(index as nat) + " was never reached"@
                }
            },
            Err(e) => {
                &&& out.0 matches Progress::Failed { reason } && reason@ == e.message_spec()
                &&& out.1 == Err::<(), OrchestratorError>(e)
            },
        },
{
    match result {
        Ok(count) => {
            let told = if index < count {
                Ok(())
            } else {
                let mut reason = "fill produced ".to_owned();
                reason.append(text::decimal_string(count as u64).as_str());
                reason.append(" slices; slice ");
                reason.append(text::decimal_string(index as u64).as_str());
                reason.append(" was never reached");
                Err(OrchestratorError::Fill { url: url.to_owned(), reason })
            };
            (Progress::Complete { count }, told)
        },
        Err(e) => (Progress::Failed { reason: e.message() }, Err(e)),
    }
}

/// What is reported when a slice was said to be there and is not.
pub fn missing_after_fill(url: &str, index: u32) -> (out: OrchestratorError)
    ensures
        out matches OrchestratorError::Fill { url: u, reason } && u@ == url@ && reason@ == "slice "@
            + text::decimal(index as nat) + " was reported ready but is not in the store"@,
{
    let mut reason = "slice ".to_owned();
    reason.append(text::decimal_string(index as u64).as_str());
    reason.append(" was reported ready but is not in the store");
    OrchestratorError::Fill { url: url.to_owned(), reason }
}

/// Cuts a body into slices as it arrives.
///
/// Never more than one slice is held back.
pub struct Cutter {
    slice_size: usize,
    buffer: Vec<u8>,
    index: u32,
    body: Ghost<Seq<u8>>,
}

impl Cutter {
    /// Everything that has arrived.
    pub closed spec fn arrived(self) -> Seq<u8> {
        self.body@
    }

    /// How many slices have been handed out.
    pub closed spec fn cut(self) -> u32 {
        self.index
    }

    pub closed spec fn size(self) -> usize {
        self.slice_size
    }

    /// What is held back is what follows the slices that were handed out.
    #[verifier::type_invariant]
    spec fn well_formed(self) -> bool {
        &&& self.slice_size > 0
        &&& self.index * self.slice_size <= self.body@.len()
        &&& self.buffer@ == self.body@.skip(self.index * self.slice_size)
        &&& self.buffer@.len() < self.slice_size
    }

    pub fn new(slice_size: u32) -> (out: Self)
        requires
            slice_size > 0,
        ensures
            out.arrived() == Seq::<u8>::empty(),
            out.cut() == 0,
            out.size() == slice_size,
    {
        let buffer: Vec<u8> = Vec::new();
        assert(buffer@ =~= Seq::<u8>::empty().skip(0));
        assert(0 * slice_size == 0);
        Cutter { slice_size: slice_size as usize, buffer, index: 0, body: Ghost(Seq::empty()) }
    }

    /// How many slices have been handed out.
    pub fn count(&self) -> (out: u32)
        ensures
            out == self.cut(),
    {
        self.index
    }

    /// Takes some more of the body and hands out the slices that it completes, in order.
    pub fn push(&mut self, chunk: &[u8]) -> (out: Vec<Vec<u8>>)
        requires
            old(self).arrived().len() + chunk@.len() < u32::MAX * old(self).size(),
        ensures
            final(self).arrived() == old(self).arrived() + chunk@,
            final(self).size() == old(self).size(),
            final(self).cut() == old(self).cut() + out@.len(),
            forall|i: int|
                0 <= i < out@.len() ==> (#[trigger] out@[i])@ == range::slice_of(
                    final(self).arrived(),
                    old(self).cut() + i,
                    final(self).size() as int,
                ) && out@[i]@.len() == final(self).size(),
            final(self).arrived().len() - final(self).cut() * final(self).size()
                < final(self).size(),
    {
        proof {
            use_type_invariant(&*self);
        }
        let size: usize = self.slice_size;
        let start: u32 = self.index;
        let ghost body = self.body@ + chunk@;
        let ghost before = self.body@;
        let mut buffer: Vec<u8> = slice_to_vec(self.buffer.as_slice());
        wire::put_bytes(&mut buffer, chunk);
        let mut index: u32 = start;
        let mut out: Vec<Vec<u8>> = Vec::new();
        assert(buffer@ =~= body.skip(start * size));
        while buffer.len() >= size
            invariant
                size > 0,
                size == old(self).size(),
                start == old(self).cut(),
                body.len() < u32::MAX * size,
                index == start + out@.len(),
                index * size <= body.len(),
                buffer@ == body.skip(index * size),
                forall|i: int|
                    0 <= i < out@.len() ==> (#[trigger] out@[i])@ == range::slice_of(
                        body,
                        start + i,
                        size as int,
                    ) && out@[i]@.len() == size,
            decreases buffer@.len(),
        {
            let n: usize = buffer.len();
            assert((index + 1) * size == index * size + size) by (nonlinear_arith);
            assert(index < u32::MAX) by (nonlinear_arith)
                requires
                    (index + 1) * size <= body.len(),
                    body.len() < u32::MAX * size,
                    size > 0,
                    index <= u32::MAX,
            ;
            let piece = slice_to_vec(slice_subrange(buffer.as_slice(), 0, size));
            let rest = slice_to_vec(slice_subrange(buffer.as_slice(), size, n));
            assert(piece@ =~= range::slice_of(body, index as int, size as int));
            assert(rest@ =~= body.skip((index + 1) * size));
            out.push(piece);
            buffer = rest;
            index = index + 1;
        }
        *self = Cutter { slice_size: size, buffer, index, body: Ghost(body) };
        out
    }

    /// The body is over: hands out what is left of it, if anything is, and says how many slices
    /// there were.
    pub fn finish(self) -> (out: (Option<Vec<u8>>, u32))
        requires
            self.arrived().len() < u32::MAX * self.size(),
        ensures
            match out.0 {
                Some(last) => {
                    &&& last@.len() > 0
                    &&& last@ == range::slice_of(
                        self.arrived(),
                        self.cut() as int,
                        self.size() as int,
                    )
                    &&& out.1 == self.cut() + 1
                },
                None => out.1 == self.cut() && self.cut() * self.size() == self.arrived().len(),
            },
    {
        proof {
            use_type_invariant(&self);
        }
        let ghost body = self.body@;
        if self.buffer.len() > 0 {
            let size: usize = self.slice_size;
            let index: u32 = self.index;
            assert(index < u32::MAX) by (nonlinear_arith)
                requires
                    index * size < body.len(),
                    body.len() < u32::MAX * size,
                    size > 0,
                    index <= u32::MAX,
            ;
            let last = slice_to_vec(self.buffer.as_slice());
            assert(last@ =~= range::slice_of(body, index as int, size as int));
            (Some(last), index + 1)
        } else {
            (None, self.index)
        }
    }
}

/// Extract the bytes of a slice that satisfy a window, or explain why it cannot.
pub fn payload_window(value: &SliceValue, window: (usize, usize)) -> (out: Result<Vec<u8>, String>)
    ensures
        if window.0 <= window.1 <= value.payload@.len() {
            out matches Ok(bytes) && bytes@ == value.payload@.subrange(
                window.0 as int,
                window.1 as int,
            )
        } else {
            out matches Err(e) && e@ == "slice is "@ + text::decimal(value.payload@.len())
                + " bytes; wanted window "@ + text::decimal(window.0 as nat) + ".."@
                + text::decimal(window.1 as nat)
        },
{
    let (from, to) = window;
    if from > to || to > value.payload.len() {
        let mut out = "slice is ".to_owned();
        out.append(text::decimal_string(value.payload.len() as u64).as_str());
        out.append(" bytes; wanted window ");
        out.append(text::decimal_string(from as u64).as_str());
        out.append("..");
        out.append(text::decimal_string(to as u64).as_str());
        return Err(out);
    }
    Ok(slice_to_vec(slice_subrange(value.payload.as_slice(), from, to)))
}

/// A request that was planned is answered from inside the object: the bytes it wants are there,
/// and every slice that they are cut from starts in the object.
pub proof fn planned_requests_lie_inside_the_object(
    spec: Option<RangeSpec>,
    total_len: u64,
    slice_size: u32,
    index: u32,
)
    requires
        slice_size > 0,
        total_len > 0,
        (total_len - 1) as int / slice_size as int <= u32::MAX,
        spec matches Some(RangeSpec::FromTo(a, b)) ==> a <= b,
        wanted_bytes(spec, total_len) is Some,
        range::planned(wanted_bytes(spec, total_len)->0, slice_size).first <= index
            <= range::planned(wanted_bytes(spec, total_len)->0, slice_size).last,
    ensures
        wanted_bytes(spec, total_len)->0.start <= wanted_bytes(spec, total_len)->0.end < total_len,
        range::slice_start(index as int, slice_size as int) < total_len,
        range::slice_start(index as int, slice_size as int) <= wanted_bytes(
            spec,
            total_len,
        )->0.end,
{
    let wanted = wanted_bytes(spec, total_len)->0;
    lemma_span_ordered(wanted, slice_size, total_len);
    let s = slice_size as int;
    let b = wanted.end as int;
    let i = index as int;
    assert(i * s <= b) by (nonlinear_arith)
        requires
            0 <= b,
            s > 0,
            i <= b / s,
    ;
}

/// The bytes that a client is sent: the windows of the planned slices, one behind the other.
pub open spec fn sent_for(object: Seq<u8>, slice_size: u32, wanted: ByteRange) -> Seq<u8> {
    let span = range::planned(wanted, slice_size);
    range::joined_windows(
        object,
        slice_size as int,
        wanted,
        span.first as int,
        span.last + 1,
    )
}

/// A client that asks for `bytes=a-b` is sent the bytes of the object from `a` to `b`, or to its
/// end where that comes first; with `bytes=a-` those from `a` on; with `bytes=-n` the last `n`; and
/// without a range all of them. Where the object has no byte at `a`, or none are asked for, there is
/// nothing to send.
pub proof fn clients_are_sent_the_bytes_they_ask_for(
    object: Seq<u8>,
    slice_size: u32,
    a: u64,
    b: u64,
)
    requires
        slice_size > 0,
        0 < object.len() <= u64::MAX,
        (object.len() - 1) as int / slice_size as int <= u32::MAX,
        a <= b,
    ensures
        ({
            let total = object.len() as u64;
            let first = text::decimal(a as nat);
            let second = text::decimal(b as nat);
            let none = Seq::<char>::empty();
            let dash = seq!['-'];
            let whole = wanted_bytes(request_of(None), total);
            let from_to = wanted_bytes(
                request_of(Some("bytes="@ + (first + dash + second))),
                total,
            );
            let from = wanted_bytes(request_of(Some("bytes="@ + (first + dash + none))), total);
            let suffix = wanted_bytes(request_of(Some("bytes="@ + (none + dash + second))), total);
            &&& whole matches Some(w) && sent_for(object, slice_size, w) == object
            &&& from_to is Some <==> a < object.len()
            &&& from_to matches Some(w) ==> sent_for(object, slice_size, w) == object.subrange(
                a as int,
                if b < object.len() {
                    b + 1
                } else {
                    object.len() as int
                },
            )
            &&& from is Some <==> a < object.len()
            &&& from matches Some(w) ==> sent_for(object, slice_size, w) == object.skip(a as int)
            &&& suffix is Some <==> b > 0
            &&& suffix matches Some(w) ==> sent_for(object, slice_size, w) == object.skip(
                if b < object.len() {
                    object.len() - b
                } else {
                    0
                },
            )
        }),
{
    let total = object.len() as u64;
    let first = text::decimal(a as nat);
    let second = text::decimal(b as nat);
    let none = Seq::<char>::empty();
    let dash = seq!['-'];
    range::written_ranges_are_read(a, b);
    let whole = wanted_bytes(request_of(None), total)->0;
    lemma_sent(object, slice_size, whole);
    assert(object.subrange(0, object.len() as int) =~= object);
    if a < object.len() {
        let x = wanted_bytes(request_of(Some("bytes="@ + (first + dash + second))), total)->0;
        lemma_sent(object, slice_size, x);
        let y = wanted_bytes(request_of(Some("bytes="@ + (first + dash + none))), total)->0;
        lemma_sent(object, slice_size, y);
        assert(object.subrange(a as int, object.len() as int) =~= object.skip(a as int));
    }
    if b > 0 {
        let z = wanted_bytes(request_of(Some("bytes="@ + (none + dash + second))), total)->0;
        lemma_sent(object, slice_size, z);
        assert(object.subrange(z.start as int, object.len() as int) =~= object.skip(
            z.start as int,
        ));
    }
}

proof fn lemma_sent(object: Seq<u8>, slice_size: u32, wanted: ByteRange)
    requires
        slice_size > 0,
        wanted.start <= wanted.end < object.len(),
        (object.len() - 1) as int / slice_size as int <= u32::MAX,
    ensures
        sent_for(object, slice_size, wanted) == object.subrange(
            wanted.start as int,
            wanted.end + 1,
        ),
{
    let s = slice_size as int;
    let e = wanted.end as int;
    let n = object.len() - 1;
    assert(e / s <= n / s) by (nonlinear_arith)
        requires
            0 <= e <= n,
            s > 0,
    ;
    range::windows_tile_the_range(object, slice_size, wanted);
}

/// A range that cannot be read, and more than one range, are answered like no range at all.
pub proof fn unreadable_ranges_are_ignored(value: Seq<char>)
    requires
        range::range_spec(value) is Err,
    ensures
        request_of(Some(value)) is None,
        request_of(None) is None,
{
}

/// A request is a hit where every slice that it needs was there, a miss where none was, and
/// partial otherwise. A slice that was fetched for this very request to learn what the object is
/// does not count as having been there.
pub proof fn hits_need_every_slice(
    flags: Seq<bool>,
    span: SlicePlan,
    probed: u32,
)
    requires
        span.first <= span.last,
        flags.len() == span.last - span.first + 1,
    ensures
        ({
            let status = status_of(count_set(flags), span, None);
            let all = forall|i: int| 0 <= i < flags.len() ==> #[trigger] flags[i];
            let none = forall|i: int| 0 <= i < flags.len() ==> !#[trigger] flags[i];
            &&& status == CacheStatus::Hit <==> all
            &&& status == CacheStatus::Miss <==> none
            &&& status == CacheStatus::Partial <==> !all && !none
        }),
        ({
            let at = probed - span.first;
            let others = forall|i: int|
                0 <= i < flags.len() && i != at ==> !#[trigger] flags[i];
            let status = status_of(count_set(flags), span, Some(probed));
            &&& span.first <= probed <= span.last && flags[at] ==> {
                &&& status == CacheStatus::Miss <==> others
                &&& status == CacheStatus::Partial <==> !others
            }
            &&& !(span.first <= probed <= span.last) ==> status == status_of(
                count_set(flags),
                span,
                None,
            )
        }),
{
    lemma_count_bound(flags);
    lemma_count_extremes(flags);
    if span.first <= probed <= span.last {
        let at = probed - span.first;
        if flags[at] {
            lemma_count_without(flags, at);
            lemma_count_extremes(flags.remove(at));
            let rest = flags.remove(at);
            assert((forall|i: int| 0 <= i < rest.len() ==> !#[trigger] rest[i]) <==> (forall|i: int|
                0 <= i < flags.len() && i != at ==> !#[trigger] flags[i])) by {
                if forall|i: int| 0 <= i < rest.len() ==> !#[trigger] rest[i] {
                    assert forall|i: int|
                        0 <= i < flags.len() && i != at implies !#[trigger] flags[i] by {
                        if i < at {
                            assert(rest[i] == flags[i]);
                        } else {
                            assert(rest[i - 1] == flags[i]);
                        }
                    }
                }
                if forall|i: int| 0 <= i < flags.len() && i != at ==> !#[trigger] flags[i] {
                    assert forall|i: int| 0 <= i < rest.len() implies !#[trigger] rest[i] by {
                        if i < at {
                            assert(rest[i] == flags[i]);
                        } else {
                            assert(rest[i] == flags[i + 1]);
                        }
                    }
                }
            }
        }
    }
}

proof fn lemma_count_extremes(flags: Seq<bool>)
    ensures
        count_set(flags) == flags.len() <==> forall|i: int| 0 <= i < flags.len() ==> #[trigger] flags[i],
        count_set(flags) == 0 <==> forall|i: int| 0 <= i < flags.len() ==> !#[trigger] flags[i],
    decreases flags.len(),
{
    if flags.len() > 0 {
        let front = flags.drop_last();
        lemma_count_extremes(front);
        lemma_count_bound(front);
        let last = flags[flags.len() - 1];
        assert((forall|i: int| 0 <= i < flags.len() ==> #[trigger] flags[i]) <==> last && (forall|
            i: int,
        | 0 <= i < front.len() ==> #[trigger] front[i])) by {
            if last && (forall|i: int| 0 <= i < front.len() ==> #[trigger] front[i]) {
                assert forall|i: int| 0 <= i < flags.len() implies #[trigger] flags[i] by {
                    if i < front.len() {
                        assert(front[i]);
                    }
                }
            }
            if forall|i: int| 0 <= i < flags.len() ==> #[trigger] flags[i] {
                assert forall|i: int| 0 <= i < front.len() implies #[trigger] front[i] by {
                    assert(flags[i]);
                }
            }
        }
        assert((forall|i: int| 0 <= i < flags.len() ==> !#[trigger] flags[i]) <==> !last && (forall|
            i: int,
        | 0 <= i < front.len() ==> !#[trigger] front[i])) by {
            if !last && (forall|i: int| 0 <= i < front.len() ==> !#[trigger] front[i]) {
                assert forall|i: int| 0 <= i < flags.len() implies !#[trigger] flags[i] by {
                    if i < front.len() {
                        assert(!front[i]);
                    }
                }
            }
            if forall|i: int| 0 <= i < flags.len() ==> !#[trigger] flags[i] {
                assert forall|i: int| 0 <= i < front.len() implies !#[trigger] front[i] by {
                    assert(!flags[i]);
                }
            }
        }
    }
}

proof fn lemma_count_without(flags: Seq<bool>, at: int)
    requires
        0 <= at < flags.len(),
        flags[at],
    ensures
        count_set(flags) == count_set(flags.remove(at)) + 1,
    decreases flags.len(),
{
    let rest = flags.remove(at);
    if at == flags.len() - 1 {
        assert(rest =~= flags.drop_last());
    } else {
        lemma_count_without(flags.drop_last(), at);
        assert(rest.drop_last() =~= flags.drop_last().remove(at));
        assert(rest.last() == flags.last());
    }
}

/// Every slice is as long as the slice size, but for the last, which holds what is left. Together
/// with where it starts that is exactly the part of the object that it stands for.
pub proof fn slices_are_full_but_for_the_last(object: Seq<u8>, slice_size: u32, index: u32)
    requires
        slice_size > 0,
        object.len() <= u64::MAX,
        index * slice_size < object.len(),
    ensures
        ({
            let len = slice_len(index, slice_size, object.len() as u64);
            let start = index * slice_size;
            &&& start + slice_size <= object.len() ==> len == slice_size
            &&& start + slice_size > object.len() ==> len == object.len() - start
            &&& range::slice_of(object, index as int, slice_size as int) == object.subrange(
                start,
                start + len,
            )
        }),
        last_slice_of(object.len() as u64, slice_size) < u32::MAX ==> ({
            let last = last_slice_of(object.len() as u64, slice_size) * slice_size;
            last < object.len() <= last + slice_size
        }),
{
    let s = slice_size as int;
    let n = object.len() - 1;
    assert(n / s * s <= n < n / s * s + s) by (nonlinear_arith)
        requires
            0 <= n,
            s > 0,
    ;
}

/// A slice says of its object what the index says of it, and a probe has that from the answer.
pub proof fn slices_describe_their_object(
    meta: index::Meta,
    slice_size: u32,
    key: Seq<char>,
    lines: Seq<headers::Line>,
    total_len: u64,
    no_ranges: bool,
    generation: u32,
    now: u64,
)
    ensures
        ({
            let h = header_of(meta, slice_size);
            &&& h.slice_size == slice_size
            &&& h.total_len == meta.total_len
            &&& h.generation == meta.generation
            &&& h.etag == meta.etag
            &&& h.last_modified == meta.last_modified
            &&& h.content_type == meta.content_type
        }),
        ({
            let m = meta_of(key, lines, total_len, no_ranges, generation, now);
            &&& m.key == key
            &&& m.total_len == total_len
            &&& m.generation == generation
            &&& m.etag == headers::text_value(lines, "etag"@)
            &&& m.last_modified == headers::text_value(lines, "last-modified"@)
            &&& m.content_type == headers::text_value(lines, "content-type"@)
            &&& m.no_ranges == no_ranges
            &&& m.created == now && m.last_seen == now
            &&& !m.stale
        }),
{
}

/// The last slice of an object is the one that holds its last byte.
pub proof fn the_last_slice_holds_the_last_byte(total_len: u64, slice_size: u32)
    requires
        slice_size > 0,
        total_len > 0,
        last_slice_of(total_len, slice_size) < u32::MAX,
    ensures
        ({
            let last = last_slice_of(total_len, slice_size);
            last * slice_size < total_len <= (last + 1) * slice_size
        }),
{
    let t = total_len - 1;
    let s = slice_size as int;
    vstd::arithmetic::div_mod::lemma_fundamental_div_mod(t, s);
    vstd::arithmetic::div_mod::lemma_mod_bound(t, s);
    let q = t / s;
    assert(q >= 0) by (nonlinear_arith)
        requires
            q == t / s,
            t >= 0,
            s > 0,
    ;
    assert((q + 1) * s == s * q + s) by (nonlinear_arith);
    assert(q * s == s * q) by (nonlinear_arith);
}

/// The length that an answer declares is the one behind the slash of its `Content-Range`; without
/// that header it declares none.
pub proof fn answers_declare_their_length_in_content_range(
    before: Seq<headers::Line>,
    value: Seq<u8>,
    after: Seq<headers::Line>,
)
    requires
        forall|i: int| 0 <= i < before.len() ==> (#[trigger] before[i]).0 != "content-range"@,
        forall|i: int| 0 <= i < value.len() ==> 0x20 <= #[trigger] value[i] <= 0x7e,
    ensures
        declared_total(before) is None,
        exists|s: Seq<char>|
            s.len() == value.len() && (forall|i: int|
                0 <= i < value.len() ==> #[trigger] s[i] as int == value[i]) && declared_total(
                before + seq![("content-range"@, value)] + after,
            ) == #[trigger] client::total_in(s),
{
    reveal_strlit("content-range");
    assert(text::lowered("content-range"@) =~= "content-range"@);
    headers::values_are_those_of_the_first_line(before, value, after, "content-range"@);
    let lines = before + seq![("content-range"@, value)] + after;
    let found = headers::text_value(lines, "content-range"@);
    assert(found is Some);
    assert(declared_total(lines) == client::total_in(found->0));
}

/// What an answer and a plan are compared by: the tags and dates that came with the answer, and
/// those that are recorded of the object.
pub proof fn answers_are_compared_by_their_validators(response: UpstreamResponse, plan: Plan)
    ensures
        marks_in(response).etag == headers::text_value(response.headers@, "etag"@),
        marks_in(response).last_modified == headers::text_value(
            response.headers@,
            "last-modified"@,
        ),
        marks_of(plan).etag == plan.meta@.etag,
        marks_of(plan).last_modified == plan.meta@.last_modified,
{
}

/// An object that has none of the bytes that were asked for is reported with its length and its
/// validators.
pub proof fn unsatisfiable_requests_are_told_the_length(e: OrchestratorError, meta: ObjectMeta)
    requires
        is_unsatisfiable(e, meta),
    ensures
        e matches OrchestratorError::Unsatisfiable { total_len, current } && total_len
            == meta.total_len && current@.etag == meta@.etag && current@.last_modified
            == meta@.last_modified,
{
}

} // verus!
