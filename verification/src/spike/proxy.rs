//! What the prototype asks of its origin, and what it answers.
use crate::orchestrator;
use crate::orchestrator::{requested, show_optional};
use crate::proxy::headers;
use crate::proxy::headers::{CacheStatus, HeaderMap};
use crate::proxy::heartbeat;
use crate::proxy::range;
use crate::proxy::range::{ByteRange, RangeSpec};
use crate::proxy::server;
use crate::proxy::server::{Head, Reply, Request};
use crate::store::slice;
use crate::store::slice::{clone_text, object_id, ObjectId, SliceHeader, SliceValue};
use crate::text;
use crate::upstream::client;
use crate::upstream::client::{show_status, UpstreamResponse};
use crate::wire;
use vstd::prelude::*;
use vstd::slice::{slice_subrange, slice_to_vec};
use vstd::string::*;
use vstd::utf8::*;

verus! {

/// What was counted.
#[derive(Debug, Clone, Copy, PartialEq, Eq, Structural)]
pub struct ProxyStats {
    pub requests: u64,
    pub probes: u64,
    pub upstream_slice_fetches: u64,
    pub full_object_fills: u64,
}

impl Default for ProxyStats {
    fn default() -> (out: Self)
        ensures
            out == (ProxyStats {
                requests: 0,
                probes: 0,
                upstream_slice_fetches: 0,
                full_object_fills: 0,
            }),
    {
        ProxyStats { requests: 0, probes: 0, upstream_slice_fetches: 0, full_object_fills: 0 }
    }
}

/// What is known about an object, learned by probing.
#[derive(Debug, PartialEq, Eq)]
pub struct ObjectMeta {
    pub total_len: u64,
    pub generation: u32,
    pub etag: Option<String>,
    pub last_modified: Option<String>,
    pub content_type: Option<String>,
    /// The origin ignored `Range` and sent the whole object.
    pub no_ranges: bool,
}

impl ObjectMeta {
    /// Whether this is what an answer says about an object.
    pub open spec fn describes(
        self,
        lines: Seq<headers::Line>,
        total_len: u64,
        no_ranges: bool,
    ) -> bool {
        &&& self.total_len == total_len
        &&& self.generation == 0
        &&& wire::chars_in(self.etag) == headers::text_value(lines, "etag"@)
        &&& wire::chars_in(self.last_modified) == headers::text_value(lines, "last-modified"@)
        &&& wire::chars_in(self.content_type) == headers::text_value(lines, "content-type"@)
        &&& self.no_ranges == no_ranges
    }

    /// The header that the slices of the object carry.
    pub open spec fn header(self, slice_size: u32) -> slice::Header {
        slice::Header {
            slice_size,
            total_len: self.total_len,
            generation: self.generation,
            etag: wire::chars_in(self.etag),
            last_modified: wire::chars_in(self.last_modified),
            content_type: wire::chars_in(self.content_type),
        }
    }
}

fn header_for(meta: &ObjectMeta, slice_size: u32) -> (out: SliceHeader)
    ensures
        out@ == meta.header(slice_size),
{
    SliceHeader {
        slice_size,
        total_len: meta.total_len,
        generation: meta.generation,
        etag: clone_text(&meta.etag),
        last_modified: clone_text(&meta.last_modified),
        content_type: clone_text(&meta.content_type),
    }
}

/// What a probe found out: the object, and the slice that came with it.
#[derive(Debug)]
pub struct Probed {
    pub meta: ObjectMeta,
    pub slice: Option<SliceValue>,
}

/// The length that an answer to a probe declares, or what is wrong with the answer.
pub open spec fn probed_len(
    status: u16,
    lines: Seq<headers::Line>,
    content_length: Option<u64>,
) -> Result<u64, Seq<char>> {
    let total = orchestrator::declared_total(lines);
    if status == 206 {
        match total {
            Some(n) => Ok(n),
            None => Err("206 without a usable Content-Range"@),
        }
    } else if status == 416 {
        match total {
            Some(n) => Ok(n),
            None => Err("416 without a usable Content-Range"@),
        }
    } else if 200 <= status < 300 {
        match content_length {
            Some(n) => Ok(n),
            None => Err("200 without Content-Length; cannot slice"@),
        }
    } else {
        Err("probe failed: upstream returned "@ + client::status_text(status))
    }
}

/// Count a probe. That is done before it is sent, so that one which is never answered counts too.
pub fn begin_probe(stats: &mut ProxyStats)
    ensures
        *final(stats) == (ProxyStats { probes: old(stats).probes.wrapping_add(1), ..*old(stats) }),
{
    stats.probes = stats.probes.wrapping_add(1);
}

/// Count the fetch of a slice, before it is sent.
pub fn begin_fetch(stats: &mut ProxyStats)
    ensures
        *final(stats) == (ProxyStats {
            upstream_slice_fetches: old(stats).upstream_slice_fetches.wrapping_add(1),
            ..*old(stats)
        }),
{
    stats.upstream_slice_fetches = stats.upstream_slice_fetches.wrapping_add(1);
}

/// Learn an object's length and validators from the answer to a request for one slice.
///
/// The bytes of a partial answer are kept: they were paid for. A probe past the end of the object
/// still tells its length. An answer with the whole object means that the origin ignores ranges.
pub fn probe(
    slice_size: u32,
    response: UpstreamResponse,
    content_length: Option<u64>,
    stats: &mut ProxyStats,
) -> (out: Result<Probed, String>)
    ensures
        match probed_len(response.status, response.headers@, content_length) {
            Err(why) => {
                &&& out matches Err(e)
                &&& e@ == why
                &&& *final(stats) == *old(stats)
            },
            Ok(len) => {
                let ranged = response.status == 206;
                &&& out matches Ok(p)
                &&& p.meta.describes(
                    response.headers@,
                    len,
                    response.status != 206 && response.status != 416,
                )
                &&& p.slice is Some <==> ranged
                &&& p.slice matches Some(v) ==> v.header@ == p.meta.header(slice_size)
                    && v.payload@ == response.body@
                &&& *final(stats) == (ProxyStats {
                    upstream_slice_fetches: if ranged {
                        old(stats).upstream_slice_fetches.wrapping_add(1)
                    } else {
                        old(stats).upstream_slice_fetches
                    },
                    ..*old(stats)
                })
            },
        },
{
    let etag = response.header("etag");
    let last_modified = response.header("last-modified");
    let content_type = response.header("content-type");
    let total = response.content_range_total();
    let total_len: u64 = if response.status == 206 {
        match total {
            Some(n) => n,
            None => return Err("206 without a usable Content-Range".to_owned()),
        }
    } else if response.status == 416 {
        match total {
            Some(n) => n,
            None => return Err("416 without a usable Content-Range".to_owned()),
        }
    } else if 200 <= response.status && response.status < 300 {
        match content_length {
            Some(n) => n,
            None => return Err("200 without Content-Length; cannot slice".to_owned()),
        }
    } else {
        let mut out = "probe failed: upstream returned ".to_owned();
        out.append(show_status(response.status).as_str());
        return Err(out);
    };
    let meta = ObjectMeta {
        total_len,
        generation: 0,
        etag,
        last_modified,
        content_type,
        no_ranges: response.status != 206 && response.status != 416,
    };
    let slice = if response.status == 206 {
        stats.upstream_slice_fetches = stats.upstream_slice_fetches.wrapping_add(1);
        Some(SliceValue::new(header_for(&meta, slice_size), response.body))
    } else {
        None
    };
    Ok(Probed { meta, slice })
}

/// Whether two optional texts are the same.
fn same_optional(a: &Option<String>, b: &Option<String>) -> (out: bool)
    ensures
        out == (wire::chars_in(*a) == wire::chars_in(*b)),
{
    match (a, b) {
        (Some(x), Some(y)) => text::same(x.as_str(), y.as_str()),
        (None, None) => true,
        _ => false,
    }
}

/// What is wrong with an answer for a slice, if anything is.
pub open spec fn slice_fault(
    meta: ObjectMeta,
    index: u32,
    slice_size: u32,
    status: u16,
    lines: Seq<headers::Line>,
    len: int,
) -> Option<Seq<char>> {
    let start = "slice "@ + text::decimal(index as nat) + ": "@;
    let etag = headers::text_value(lines, "etag"@);
    let wanted = orchestrator::slice_len(index, slice_size, meta.total_len);
    if status != 206 {
        Some(start + "expected 206, upstream returned "@ + client::status_text(status))
    } else if etag != wire::chars_in(meta.etag) {
        Some(
            start + "validator changed mid-object ("@ + orchestrator::optional_text(
                wire::chars_in(meta.etag),
            ) + " -> "@ + orchestrator::optional_text(etag) + ")"@,
        )
    } else if len != wanted {
        Some(
            start + "expected "@ + text::decimal(wanted as nat) + " bytes, upstream sent "@
                + text::decimal(len as nat),
        )
    } else {
        None
    }
}

/// What to do with the answer for a slice. A change of the object mid-way fails the request: what
/// is already held describes a version that no longer exists.
pub fn accept_slice(
    meta: &ObjectMeta,
    index: u32,
    slice_size: u32,
    response: UpstreamResponse,
) -> (out: Result<SliceValue, String>)
    requires
        slice_size > 0,
        range::slice_start(index as int, slice_size as int) < meta.total_len,
    ensures
        match slice_fault(
            *meta,
            index,
            slice_size,
            response.status,
            response.headers@,
            response.body@.len() as int,
        ) {
            Some(why) => out matches Err(e) && e@ == why,
            None => out matches Ok(v) && v.header@ == meta.header(slice_size) && v.payload@
                == response.body@,
        },
{
    let extent = range::slice_extent(index, slice_size, meta.total_len);
    let mut start = "slice ".to_owned();
    start.append(text::decimal_string(index as u64).as_str());
    start.append(": ");
    if response.status != 206 {
        start.append("expected 206, upstream returned ");
        start.append(show_status(response.status).as_str());
        return Err(start);
    }
    let etag = response.header("etag");
    if !same_optional(&etag, &meta.etag) {
        start.append("validator changed mid-object (");
        start.append(show_optional(&meta.etag).as_str());
        start.append(" -> ");
        start.append(show_optional(&etag).as_str());
        start.append(")");
        return Err(start);
    }
    let wanted: u64 = extent.len();
    let len: usize = response.body.len();
    if len as u64 != wanted {
        start.append("expected ");
        start.append(text::decimal_string(wanted).as_str());
        start.append(" bytes, upstream sent ");
        start.append(text::decimal_string(len as u64).as_str());
        return Err(start);
    }
    Ok(SliceValue::new(header_for(meta, slice_size), response.body))
}

/// What is served from the cache.
#[derive(Debug)]
pub struct Lookup {
    pub path: String,
    pub object: ObjectId,
    pub spec: Option<RangeSpec>,
    pub is_head: bool,
}

/// Where a request goes.
#[derive(Debug)]
pub enum Route {
    Answer(Reply),
    Lookup(Lookup),
}

proof fn lemma_names()
    ensures
        text::lowered("x-lancache-processed-by"@) == "x-lancache-processed-by"@,
        text::lowered("access-control-allow-origin"@) == "access-control-allow-origin"@,
        text::lowered("content-length"@) == "content-length"@,
        text::lowered("x-cache"@) == "x-cache"@,
        text::lowered("content-range"@) == "content-range"@,
        text::lowered("accept-ranges"@) == "accept-ranges"@,
        text::lowered("content-type"@) == "content-type"@,
        text::lowered("etag"@) == "etag"@,
        text::lowered("last-modified"@) == "last-modified"@,
{
    reveal_strlit("x-lancache-processed-by");
    reveal_strlit("access-control-allow-origin");
    reveal_strlit("content-length");
    reveal_strlit("x-cache");
    reveal_strlit("content-range");
    reveal_strlit("accept-ranges");
    reveal_strlit("content-type");
    reveal_strlit("etag");
    reveal_strlit("last-modified");
    assert(text::lowered("x-lancache-processed-by"@) =~= "x-lancache-processed-by"@);
    assert(text::lowered("access-control-allow-origin"@) =~= "access-control-allow-origin"@);
    assert(text::lowered("content-length"@) =~= "content-length"@);
    assert(text::lowered("x-cache"@) =~= "x-cache"@);
    assert(text::lowered("content-range"@) =~= "content-range"@);
    assert(text::lowered("accept-ranges"@) =~= "accept-ranges"@);
    assert(text::lowered("content-type"@) =~= "content-type"@);
    assert(text::lowered("etag"@) =~= "etag"@);
    assert(text::lowered("last-modified"@) =~= "last-modified"@);
}

/// Decide where a request goes.
pub fn route(hostname: &str, request: &Request, stats: &mut ProxyStats) -> (out: Route)
    requires
        headers::is_valid_value(encode_utf8(hostname@)),
    ensures
        *final(stats) == (ProxyStats {
            requests: old(stats).requests.wrapping_add(1),
            ..*old(stats)
        }),
        if request.path@ == heartbeat::PATH@ {
            &&& out matches Route::Answer(r)
            &&& r.head.status == 204
            &&& r.head.headers@ == seq![
                ("x-lancache-processed-by"@, encode_utf8(hostname@)),
                ("access-control-allow-origin"@, encode_utf8("*"@)),
            ]
            &&& r.body@.len() == 0
        } else if !server::is_read(request.method@) {
            out matches Route::Answer(r) && r.says(405, "spike proxy serves GET and HEAD only\n"@)
        } else {
            &&& out matches Route::Lookup(l)
            &&& l.path@ == request.target_spec()
            &&& l.object@ == slice::blake3_digest(encode_utf8(request.target_spec())).take(16)
            &&& l.spec == orchestrator::request_of(
                headers::text_value(request.headers@, "range"@),
            )
            &&& l.is_head == (request.method@ == "HEAD"@)
        },
{
    stats.requests = stats.requests.wrapping_add(1);
    if heartbeat::is_heartbeat(request.path.as_str()) {
        proof {
            lemma_names();
        }
        let mut headers = HeaderMap::new();
        headers.append("x-lancache-processed-by", hostname.as_bytes());
        headers.append("access-control-allow-origin", "*".as_bytes());
        assert(headers@ =~= seq![
            ("x-lancache-processed-by"@, encode_utf8(hostname@)),
            ("access-control-allow-origin"@, encode_utf8("*"@)),
        ]);
        return Route::Answer(Reply { head: Head { status: 204, headers }, body: Vec::new() });
    }
    let is_head = text::same(request.method.as_str(), "HEAD");
    if !is_head && !text::same(request.method.as_str(), "GET") {
        return Route::Answer(server::text(405, "spike proxy serves GET and HEAD only\n"));
    }
    let path = request.target();
    let raw = request.headers.get_text("range");
    let spec = match &raw {
        Some(raw) => requested(Some(raw.as_str())),
        None => None,
    };
    let object = object_id(path.as_str());
    Route::Lookup(Lookup { path, object, spec, is_head })
}

/// What is sent of an object.
#[derive(Debug)]
pub enum Extent {
    Answer(Reply),
    Bytes(ByteRange),
}

/// The bytes that a request is answered with. An empty object and a range that cannot be satisfied
/// are answered at once.
pub fn extent(hostname: &str, spec: Option<RangeSpec>, meta: &ObjectMeta) -> (out: Extent)
    requires
        headers::is_valid_value(encode_utf8(hostname@)),
    ensures
        if spec is None && meta.total_len == 0 {
            &&& out matches Extent::Answer(r)
            &&& r.head.status == 200
            &&& r.head.headers@ == seq![
                ("content-length"@, encode_utf8("0"@)),
                ("x-cache"@, encode_utf8("HIT"@)),
                ("x-lancache-processed-by"@, encode_utf8(hostname@)),
            ]
            &&& r.body@.len() == 0
        } else {
            match orchestrator::wanted_bytes(spec, meta.total_len) {
                None => {
                    &&& out matches Extent::Answer(r)
                    &&& r.head.status == 416
                    &&& r.head.headers@ == seq![
                        (
                            "content-range"@,
                            encode_utf8("bytes */"@ + text::decimal(meta.total_len as nat)),
                        ),
                        ("x-lancache-processed-by"@, encode_utf8(hostname@)),
                    ]
                    &&& r.body@.len() == 0
                },
                Some(wanted) => out matches Extent::Bytes(b) && b == wanted,
            }
        },
{
    proof {
        lemma_names();
    }
    let mut headers = HeaderMap::new();
    let found = match spec {
        None => match range::whole(meta.total_len) {
            Some(wanted) => Some(wanted),
            None => {
                headers.append("content-length", "0".as_bytes());
                headers.append("x-cache", "HIT".as_bytes());
                headers.append("x-lancache-processed-by", hostname.as_bytes());
                assert(headers@ =~= seq![
                    ("content-length"@, encode_utf8("0"@)),
                    ("x-cache"@, encode_utf8("HIT"@)),
                    ("x-lancache-processed-by"@, encode_utf8(hostname@)),
                ]);
                return Extent::Answer(
                    Reply { head: Head { status: 200, headers }, body: Vec::new() },
                );
            },
        },
        Some(spec) => match range::resolve(spec, meta.total_len) {
            Ok(wanted) => Some(wanted),
            Err(_) => None,
        },
    };
    match found {
        Some(wanted) => Extent::Bytes(wanted),
        None => {
            let mut value = "bytes */".to_owned();
            value.append(text::decimal_string(meta.total_len).as_str());
            headers.append("content-range", value.as_str().as_bytes());
            headers.append("x-lancache-processed-by", hostname.as_bytes());
            assert(headers@ =~= seq![
                (
                    "content-range"@,
                    encode_utf8("bytes */"@ + text::decimal(meta.total_len as nat)),
                ),
                ("x-lancache-processed-by"@, encode_utf8(hostname@)),
            ]);
            Extent::Answer(Reply { head: Head { status: 416, headers }, body: Vec::new() })
        },
    }
}

/// A line for a value that is there.
pub open spec fn line_for(name: Seq<char>, value: Option<Seq<char>>) -> Seq<headers::Line> {
    match value {
        Some(v) => seq![(name, encode_utf8(v))],
        None => Seq::empty(),
    }
}

/// The lines of an answer with content.
pub open spec fn head_lines(
    hostname: Seq<char>,
    meta: ObjectMeta,
    wanted: ByteRange,
    partial: bool,
    status: CacheStatus,
) -> Seq<headers::Line> {
    seq![
        ("content-length"@, encode_utf8(text::decimal(wanted.spec_len() as nat))),
        ("accept-ranges"@, encode_utf8("bytes"@)),
        ("x-cache"@, encode_utf8(status.name())),
        ("x-lancache-processed-by"@, encode_utf8(hostname)),
    ] + line_for(
        "content-range"@,
        if partial {
            Some(server::content_range(wanted, meta.total_len))
        } else {
            None
        },
    ) + line_for("content-type"@, wire::chars_in(meta.content_type)) + line_for(
        "etag"@,
        wire::chars_in(meta.etag),
    ) + line_for("last-modified"@, wire::chars_in(meta.last_modified))
}

/// Whether a value that is there can stand in a header.
pub open spec fn valid_or_none(value: Option<String>) -> bool {
    value matches Some(v) ==> headers::is_valid_value(encode_utf8(v@))
}

fn append_some(lines: &mut HeaderMap, name: &str, value: &Option<String>)
    requires
        text::lowered(name@) == name@,
    ensures
        final(lines)@ == old(lines)@ + line_for(name@, wire::chars_in(*value)),
{
    let ghost before = lines@;
    if let Some(v) = value {
        lines.append(name, v.as_str().as_bytes());
    }
    assert(lines@ =~= before + line_for(name@, wire::chars_in(*value)));
}

/// The head of an answer with content.
pub fn head(
    hostname: &str,
    meta: &ObjectMeta,
    wanted: ByteRange,
    partial: bool,
    status: CacheStatus,
) -> (out: Head)
    requires
        wanted.start <= wanted.end,
        wanted.spec_len() <= u64::MAX,
        headers::is_valid_value(encode_utf8(hostname@)),
        valid_or_none(meta.content_type),
        valid_or_none(meta.etag),
        valid_or_none(meta.last_modified),
    ensures
        out.status == (if partial {
            206int
        } else {
            200int
        }),
        out.headers@ == head_lines(hostname@, *meta, wanted, partial, status),
{
    proof {
        lemma_names();
    }
    let mut lines = HeaderMap::new();
    lines.append("content-length", text::decimal_string(wanted.len()).as_str().as_bytes());
    lines.append("accept-ranges", "bytes".as_bytes());
    lines.append("x-cache", status.as_str().as_bytes());
    lines.append("x-lancache-processed-by", hostname.as_bytes());
    assert(lines@ =~= seq![
        ("content-length"@, encode_utf8(text::decimal(wanted.spec_len() as nat))),
        ("accept-ranges"@, encode_utf8("bytes"@)),
        ("x-cache"@, encode_utf8(status.name())),
        ("x-lancache-processed-by"@, encode_utf8(hostname@)),
    ]);
    let range = if partial {
        let mut value = "bytes ".to_owned();
        value.append(text::decimal_string(wanted.start).as_str());
        value.append("-");
        value.append(text::decimal_string(wanted.end).as_str());
        value.append("/");
        value.append(text::decimal_string(meta.total_len).as_str());
        Some(value)
    } else {
        None
    };
    append_some(&mut lines, "content-range", &range);
    append_some(&mut lines, "content-type", &meta.content_type);
    append_some(&mut lines, "etag", &meta.etag);
    append_some(&mut lines, "last-modified", &meta.last_modified);
    Head {
        status: if partial {
            206
        } else {
            200
        },
        headers: lines,
    }
}

/// The last slice of an object, in 32 bits. An empty object is taken to have one.
pub fn last_index(meta: &ObjectMeta, slice_size: u32) -> (out: u32)
    requires
        slice_size > 0,
    ensures
        out == (if meta.total_len == 0 {
            0
        } else {
            ((meta.total_len - 1) / slice_size as int) as u32
        }),
{
    if meta.total_len == 0 {
        0
    } else {
        #[verifier::truncate] (((meta.total_len - 1) / slice_size as u64) as u32)
    }
}

/// Whether an object whose origin ignores ranges has to be fetched: one of its slices is missing.
pub fn begin_fill(resident: &Vec<bool>, stats: &mut ProxyStats) -> (out: bool)
    ensures
        out == (exists|i: int| 0 <= i < resident@.len() && !#[trigger] resident@[i]),
        *final(stats) == (if out {
            ProxyStats {
                full_object_fills: old(stats).full_object_fills.wrapping_add(1),
                ..*old(stats)
            }
        } else {
            *old(stats)
        }),
{
    let n: usize = resident.len();
    for i in 0..n
        invariant
            n == resident@.len(),
            *stats == *old(stats),
            forall|j: int| 0 <= j < i ==> #[trigger] resident@[j],
    {
        if !resident[i] {
            stats.full_object_fills = stats.full_object_fills.wrapping_add(1);
            return true;
        }
    }
    false
}

/// What is wrong with the answer to a request for a whole object, if anything is.
pub fn fill_refused(status: u16) -> (out: Option<String>)
    ensures
        match out {
            Some(e) => !(200 <= status < 300) && e@ == "full fetch failed: upstream returned "@
                + client::status_text(status),
            None => 200 <= status < 300,
        },
{
    if 200 <= status && status < 300 {
        return None;
    }
    let mut out = "full fetch failed: upstream returned ".to_owned();
    out.append(show_status(status).as_str());
    Some(out)
}

/// The wanted window of a slice. One that the slice does not reach is an error: a short body that
/// looks successful is worse.
pub fn cut(index: u32, payload: &[u8], window: (usize, usize)) -> (out: Result<Vec<u8>, String>)
    ensures
        if window.0 <= window.1 <= payload@.len() {
            out matches Ok(o) && o@ == payload@.subrange(window.0 as int, window.1 as int)
        } else {
            out matches Err(e) && e@ == "slice "@ + text::decimal(index as nat) + " is "@
                + text::decimal(payload@.len()) + " bytes, wanted window "@ + text::decimal(
                window.0 as nat,
            ) + ".."@ + text::decimal(window.1 as nat)
        },
{
    if window.1 > payload.len() || window.0 > window.1 {
        let mut out = "slice ".to_owned();
        out.append(text::decimal_string(index as u64).as_str());
        out.append(" is ");
        out.append(text::decimal_string(payload.len() as u64).as_str());
        out.append(" bytes, wanted window ");
        out.append(text::decimal_string(window.0 as u64).as_str());
        out.append("..");
        out.append(text::decimal_string(window.1 as u64).as_str());
        return Err(out);
    }
    Ok(slice_to_vec(slice_subrange(payload, window.0, window.1)))
}

/// An answer for a slice is taken exactly where it is a partial one, of the version that is known,
/// with as many bytes as the slice has: the slice size, or what is left of the object.
pub proof fn slices_are_taken_whole_and_unchanged(
    meta: ObjectMeta,
    index: u32,
    slice_size: u32,
    status: u16,
    lines: Seq<headers::Line>,
    len: int,
)
    ensures
        slice_fault(meta, index, slice_size, status, lines, len) is None <==> {
            &&& status == 206
            &&& headers::text_value(lines, "etag"@) == wire::chars_in(meta.etag)
            &&& len == if (index + 1) * slice_size <= meta.total_len {
                slice_size as int
            } else {
                meta.total_len - index * slice_size
            }
        },
{
    assert((index + 1) * slice_size == index * slice_size + slice_size) by (nonlinear_arith);
}

/// A probe tells the length of an object where the answer declares it: in `Content-Range` where it
/// is partial or past the end, and as the length of the answer where it is the whole.
pub proof fn probes_tell_the_declared_length(
    status: u16,
    lines: Seq<headers::Line>,
    content_length: Option<u64>,
    n: u64,
)
    ensures
        probed_len(status, lines, content_length) == Ok::<u64, Seq<char>>(n) <==> {
            ||| (status == 206 || status == 416) && orchestrator::declared_total(lines) == Some(n)
            ||| 200 <= status < 300 && status != 206 && content_length == Some(n)
        },
{
}

/// The head of an answer holds these lines and no others.
pub proof fn heads_say_what_follows(
    hostname: Seq<char>,
    meta: ObjectMeta,
    wanted: ByteRange,
    partial: bool,
    status: CacheStatus,
    line: headers::Line,
)
    requires
        wanted.valid(),
    ensures
        head_lines(hostname, meta, wanted, partial, status).contains(line) <==> {
            ||| line == (
                "content-length"@,
                encode_utf8(text::decimal((wanted.end - wanted.start + 1) as nat)),
            )
            ||| line == ("accept-ranges"@, encode_utf8("bytes"@))
            ||| line == ("x-cache"@, encode_utf8(status.name()))
            ||| line == ("x-lancache-processed-by"@, encode_utf8(hostname))
            ||| partial && line == (
                "content-range"@,
                encode_utf8(server::content_range(wanted, meta.total_len)),
            )
            ||| line.0 == "content-type"@ && (meta.content_type matches Some(v) && line.1
                == encode_utf8(v@))
            ||| line.0 == "etag"@ && (meta.etag matches Some(v) && line.1 == encode_utf8(v@))
            ||| line.0 == "last-modified"@ && (meta.last_modified matches Some(v) && line.1
                == encode_utf8(v@))
        },
{
    let first = seq![
        ("content-length"@, encode_utf8(text::decimal(wanted.spec_len() as nat))),
        ("accept-ranges"@, encode_utf8("bytes"@)),
        ("x-cache"@, encode_utf8(status.name())),
        ("x-lancache-processed-by"@, encode_utf8(hostname)),
    ];
    let range_value = if partial {
        Some(server::content_range(wanted, meta.total_len))
    } else {
        None
    };
    let ranged = line_for("content-range"@, range_value);
    let kind = line_for("content-type"@, wire::chars_in(meta.content_type));
    let tag = line_for("etag"@, wire::chars_in(meta.etag));
    let date = line_for("last-modified"@, wire::chars_in(meta.last_modified));
    lemma_either(first + ranged + kind + tag, date, line);
    lemma_either(first + ranged + kind, tag, line);
    lemma_either(first + ranged, kind, line);
    lemma_either(first, ranged, line);
    lemma_line("content-range"@, range_value, line);
    lemma_line("content-type"@, wire::chars_in(meta.content_type), line);
    lemma_line("etag"@, wire::chars_in(meta.etag), line);
    lemma_line("last-modified"@, wire::chars_in(meta.last_modified), line);
    assert(first[0] == first[0] && first[1] == first[1] && first[2] == first[2] && first[3]
        == first[3]);
}

proof fn lemma_line(name: Seq<char>, value: Option<Seq<char>>, line: headers::Line)
    ensures
        line_for(name, value).contains(line) <==> (value matches Some(v) && line == (
            name,
            encode_utf8(v),
        )),
{
    if value is Some {
        assert(line_for(name, value)[0] == (name, encode_utf8(value->0)));
    }
}

proof fn lemma_either(a: Seq<headers::Line>, b: Seq<headers::Line>, line: headers::Line)
    ensures
        (a + b).contains(line) <==> a.contains(line) || b.contains(line),
{
    let all = a + b;
    if all.contains(line) {
        let k = choose|k: int| 0 <= k < all.len() && all[k] == line;
        if k < a.len() {
            assert(a[k] == line);
        } else {
            assert(b[k - a.len()] == line);
        }
    }
    if a.contains(line) {
        let k = choose|k: int| 0 <= k < a.len() && a[k] == line;
        assert(all[k] == line);
    }
    if b.contains(line) {
        let k = choose|k: int| 0 <= k < b.len() && b[k] == line;
        assert(all[a.len() + k] == line);
    }
}

} // verus!
