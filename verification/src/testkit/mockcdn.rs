//! What a mock origin answers.
//!
//! It serves deterministic content with configurable behaviour, so that the proxy can be tested
//! against the awkward origins it will meet: ones that ignore `Range`, ones that are slow. The
//! counters are how coalescing is checked: many clients of a cold object must not make many fetches
//! of a slice.
use crate::proxy::headers;
use crate::proxy::headers::HeaderMap;
use crate::proxy::server::{Head, Reply, Request};
use crate::testkit::content;
use crate::text;
use vstd::prelude::*;
use vstd::string::*;
use vstd::utf8::*;

verus! {

/// Chunk size the origin streams bodies in.
pub const STREAM_CHUNK: u64 = 262_144;

/// How the origin responds to `Range` requests.
#[derive(Debug, Clone, Copy, PartialEq, Eq, Structural)]
pub enum RangeBehaviour {
    /// Honour single byte ranges with `206` and a `Content-Range`.
    Honour,
    /// Ignore `Range` entirely and always return `200` with the full body. Real origins do this.
    Ignore,
}

/// Observable counters.
#[derive(Debug, Clone, Copy, PartialEq, Eq, Structural)]
pub struct Stats {
    pub requests: u64,
    pub range_requests: u64,
    pub bytes_served: u64,
}

impl Default for Stats {
    fn default() -> (out: Self)
        ensures
            out == (Stats { requests: 0, range_requests: 0, bytes_served: 0 }),
    {
        Stats { requests: 0, range_requests: 0, bytes_served: 0 }
    }
}

impl Stats {
    pub fn requests(&self) -> (out: u64)
        ensures
            out == self.requests,
    {
        self.requests
    }

    pub fn range_requests(&self) -> (out: u64)
        ensures
            out == self.range_requests,
    {
        self.range_requests
    }

    pub fn bytes_served(&self) -> (out: u64)
        ensures
            out == self.bytes_served,
    {
        self.bytes_served
    }

    pub fn reset(&mut self)
        ensures
            *final(self) == (Stats { requests: 0, range_requests: 0, bytes_served: 0 }),
    {
        *self = Stats { requests: 0, range_requests: 0, bytes_served: 0 };
    }
}

#[derive(Debug, Clone, Copy, PartialEq, Eq, Structural)]
pub struct Config {
    pub range_behaviour: RangeBehaviour,
    /// Appended to every ETag. Changing it simulates the object being replaced upstream.
    pub etag_suffix: u64,
    /// Artificial delay before the first byte, in milliseconds.
    pub first_byte_delay: Option<u64>,
    /// Delay between streamed chunks, in milliseconds.
    pub chunk_delay: Option<u64>,
}

impl Default for Config {
    fn default() -> (out: Self)
        ensures
            out == (Config {
                range_behaviour: RangeBehaviour::Honour,
                etag_suffix: 0,
                first_byte_delay: None,
                chunk_delay: None,
            }),
    {
        Config {
            range_behaviour: RangeBehaviour::Honour,
            etag_suffix: 0,
            first_byte_delay: None,
            chunk_delay: None,
        }
    }
}

impl Config {
    /// Replace every object's ETag, simulating the content being changed upstream.
    pub fn change_validators(&mut self)
        ensures
            *final(self) == (Config {
                etag_suffix: old(self).etag_suffix.wrapping_add(1),
                ..*old(self)
            }),
    {
        self.etag_suffix = self.etag_suffix.wrapping_add(1);
    }
}

/// Where an object is found.
pub open spec fn path_of(name: Seq<char>, size: u64) -> Seq<char> {
    "/o/"@ + name + "/"@ + text::decimal(size as nat)
}

/// Path of an object of `size` bytes whose content is derived from `name`.
pub fn object_path(name: &str, size: u64) -> (out: String)
    ensures
        out@ == path_of(name@, size),
{
    let mut out = "/o/".to_owned();
    out.append(name);
    out.append("/");
    out.append(text::decimal_string(size).as_str());
    out
}

/// The name and the size that a path asks for.
pub open spec fn named_object(path: Seq<char>) -> Option<(Seq<char>, u64)> {
    if !"/o/"@.is_prefix_of(path) {
        None
    } else {
        let rest = path.skip("/o/"@.len() as int);
        let at = text::last_of(rest, '/');
        if at < 0 {
            None
        } else {
            match text::parsed_u64(rest.skip(at + 1)) {
                Some(size) => Some((rest.take(at), size)),
                None => None,
            }
        }
    }
}

/// Parse `/o/<name>/<size>` into the object's seed and length.
pub fn parse_path(path: &str) -> (out: Option<(u64, u64)>)
    ensures
        out == (match named_object(path@) {
            Some((name, size)) => Some((content::hashed(encode_utf8(name)), size)),
            None => None,
        }),
{
    let chars = text::chars_of(path);
    let rest = match text::strip_prefix(chars.as_slice(), "/o/") {
        Some(rest) => rest,
        None => return None,
    };
    let at: usize = match text::find_last(rest, '/') {
        Some(at) => at,
        None => return None,
    };
    let n: usize = rest.len();
    let name = vstd::slice::slice_subrange(rest, 0, at);
    let digits = vstd::slice::slice_subrange(rest, at + 1, n);
    assert(name@ =~= rest@.take(at as int));
    assert(digits@ =~= rest@.skip(at + 1));
    match text::parse_u64(digits) {
        Some(size) => Some((content::seed_for(text::string_of(name).as_str()), size)),
        None => None,
    }
}

/// The bytes between two bounds of a range, of an object of known length.
pub open spec fn bounded(start: Seq<char>, end: Seq<char>, total: u64) -> Option<(u64, u64)> {
    if start.len() == 0 {
        match text::parsed_u64(end) {
            Some(n) => if n == 0 || total == 0 {
                None
            } else if n >= total {
                Some((0, (total - 1) as u64))
            } else {
                Some(((total - n) as u64, (total - 1) as u64))
            },
            None => None,
        }
    } else {
        match text::parsed_u64(start) {
            None => None,
            Some(a) => if end.len() == 0 {
                if a >= total {
                    None
                } else {
                    Some((a, (total - 1) as u64))
                }
            } else {
                match text::parsed_u64(end) {
                    None => None,
                    Some(b) => if a > b || a >= total {
                        None
                    } else if b < total - 1 {
                        Some((a, b))
                    } else {
                        Some((a, (total - 1) as u64))
                    },
                }
            },
        }
    }
}

/// The bytes that a single range asks for.
pub open spec fn single_range(value: Seq<char>, total: u64) -> Option<(u64, u64)> {
    let v = text::trimmed(value);
    if !"bytes="@.is_prefix_of(v) {
        None
    } else {
        let spec = v.skip("bytes="@.len() as int);
        if spec.contains(',') {
            None
        } else {
            match text::split_at_first(spec, '-') {
                None => None,
                Some((start, end)) => bounded(text::trimmed(start), text::trimmed(end), total),
            }
        }
    }
}

fn holds(s: &[char], c: char) -> (out: bool)
    ensures
        out == s@.contains(c),
{
    let n: usize = s.len();
    let at: usize = text::find(s, c, 0);
    proof {
        text::lemma_find_from(s@, c, 0);
        if at == n && s@.contains(c) {
            let i = choose|i: int| 0 <= i < s@.len() && s@[i] == c;
            assert(s@[i] != c);
        }
    }
    at < n
}

/// Parse a single `bytes=a-b` range against a known object length.
/// Returns `None` for syntactically invalid or unsatisfiable ranges.
pub fn parse_single_range(value: &str, total: u64) -> (out: Option<(u64, u64)>)
    ensures
        out == single_range(value@, total),
        out matches Some((a, b)) ==> a <= b < total,
{
    let chars = text::chars_of(value);
    let spec = match text::strip_prefix(text::trim(chars.as_slice()), "bytes=") {
        Some(spec) => spec,
        None => return None,
    };
    if holds(spec, ',') {
        return None;
    }
    let (start, end) = match text::split_once(spec, '-') {
        Some(bounds) => bounds,
        None => return None,
    };
    let start = text::trim(start);
    let end = text::trim(end);
    if start.len() == 0 {
        let n: u64 = match text::parse_u64(end) {
            Some(n) => n,
            None => return None,
        };
        if n == 0 || total == 0 {
            return None;
        }
        return if n >= total {
            Some((0, total - 1))
        } else {
            Some((total - n, total - 1))
        };
    }
    let a: u64 = match text::parse_u64(start) {
        Some(a) => a,
        None => return None,
    };
    if end.len() == 0 {
        if a >= total {
            return None;
        }
        return Some((a, total - 1));
    }
    let b: u64 = match text::parse_u64(end) {
        Some(b) => b,
        None => return None,
    };
    if a > b || a >= total {
        return None;
    }
    Some(
        (
            a,
            if b < total - 1 {
                b
            } else {
                total - 1
            },
        ),
    )
}

pub open spec fn etag_text(seed: u64, size: u64, suffix: u64) -> Seq<char> {
    "\""@ + text::zero_filled(text::hexadecimal(seed as nat), 16) + "-"@ + text::hexadecimal(
        size as nat,
    ) + "-"@ + text::hexadecimal(suffix as nat) + "\""@
}

fn etag_for(seed: u64, size: u64, suffix: u64) -> (out: String)
    ensures
        out@ == etag_text(seed, size, suffix),
{
    let mut out = "\"".to_owned();
    out.append(text::zero_fill(text::hex_string(seed).as_str(), 16).as_str());
    out.append("-");
    out.append(text::hex_string(size).as_str());
    out.append("-");
    out.append(text::hex_string(suffix).as_str());
    out.append("\"");
    out
}

/// What the origin answers.
#[derive(Debug, PartialEq, Eq)]
pub enum Answer {
    /// At once, without any content.
    Refused(Reply),
    /// After the delay that is configured: this head, and so many bytes of an object.
    Served { head: Head, seed: u64, start: u64, len: u64 },
}

/// What is asked of an object, in so far as ranges are honoured.
pub enum Asked {
    Whole,
    Part(u64, u64),
    Unsatisfiable,
}

/// A range that is valid and cannot be satisfied is refused; one that cannot be parsed is ignored.
pub open spec fn asked(range: Option<Seq<char>>, honour: bool, size: u64) -> Asked {
    match range {
        None => Asked::Whole,
        Some(raw) => if !honour {
            Asked::Whole
        } else {
            match single_range(raw, size) {
                Some((a, b)) => Asked::Part(a, b),
                None => if "bytes="@.is_prefix_of(raw) && !raw.contains(',') {
                    Asked::Unsatisfiable
                } else {
                    Asked::Whole
                },
            }
        },
    }
}

/// The lines of an answer with content.
pub open spec fn content_lines(
    seed: u64,
    size: u64,
    config: Config,
    start: u64,
    len: u64,
    partial: bool,
) -> Seq<headers::Line> {
    let base = seq![
        ("content-type"@, encode_utf8("application/octet-stream"@)),
        ("content-length"@, encode_utf8(text::decimal(len as nat))),
        ("etag"@, encode_utf8(etag_text(seed, size, config.etag_suffix))),
        (
            "accept-ranges"@,
            encode_utf8(
                if config.range_behaviour == RangeBehaviour::Honour {
                    "bytes"@
                } else {
                    "none"@
                },
            ),
        ),
    ];
    if partial {
        base.push(
            (
                "content-range"@,
                encode_utf8(
                    "bytes "@ + text::decimal(start as nat) + "-"@ + text::decimal(
                        (start + len - 1) as nat,
                    ) + "/"@ + text::decimal(size as nat),
                ),
            ),
        )
    } else {
        base
    }
}

proof fn lemma_names()
    ensures
        text::lowered("content-type"@) == "content-type"@,
        text::lowered("content-length"@) == "content-length"@,
        text::lowered("etag"@) == "etag"@,
        text::lowered("accept-ranges"@) == "accept-ranges"@,
        text::lowered("content-range"@) == "content-range"@,
{
    reveal_strlit("content-type");
    reveal_strlit("content-length");
    reveal_strlit("etag");
    reveal_strlit("accept-ranges");
    reveal_strlit("content-range");
    assert(text::lowered("content-type"@) =~= "content-type"@);
    assert(text::lowered("content-length"@) =~= "content-length"@);
    assert(text::lowered("etag"@) =~= "etag"@);
    assert(text::lowered("accept-ranges"@) =~= "accept-ranges"@);
    assert(text::lowered("content-range"@) =~= "content-range"@);
}

fn refused(status: u16) -> (out: Answer)
    ensures
        out matches Answer::Refused(r) && r.head.status == status && r.head.headers@ == Seq::<
            headers::Line,
        >::empty() && r.body@.len() == 0,
{
    Answer::Refused(Reply { head: Head { status, headers: HeaderMap::new() }, body: Vec::new() })
}

fn head_for(seed: u64, size: u64, config: &Config, start: u64, len: u64, partial: bool) -> (out:
    Head)
    requires
        partial ==> len > 0 && start + len <= size,
    ensures
        out.status == (if partial {
            206int
        } else {
            200int
        }),
        out.headers@ == content_lines(seed, size, *config, start, len, partial),
{
    proof {
        lemma_names();
    }
    let mut lines = HeaderMap::new();
    lines.append("content-type", "application/octet-stream".as_bytes());
    lines.append("content-length", text::decimal_string(len).as_str().as_bytes());
    lines.append("etag", etag_for(seed, size, config.etag_suffix).as_str().as_bytes());
    let ranges = match config.range_behaviour {
        RangeBehaviour::Honour => "bytes",
        RangeBehaviour::Ignore => "none",
    };
    lines.append("accept-ranges", ranges.as_bytes());
    if partial {
        let mut value = "bytes ".to_owned();
        value.append(text::decimal_string(start).as_str());
        value.append("-");
        value.append(text::decimal_string(start + len - 1).as_str());
        value.append("/");
        value.append(text::decimal_string(size).as_str());
        lines.append("content-range", value.as_str().as_bytes());
    }
    assert(lines@ =~= content_lines(seed, size, *config, start, len, partial));
    Head {
        status: if partial {
            206
        } else {
            200
        },
        headers: lines,
    }
}

/// Whether an answer is the refusal with a status, without any content.
pub open spec fn refuses(answer: Answer, status: u16, lines: Seq<headers::Line>) -> bool {
    answer matches Answer::Refused(r) && r.head.status == status && r.head.headers@ == lines
        && r.body@.len() == 0
}

/// What the counters hold after a request.
pub open spec fn counted(stats: Stats, ranged: bool, bytes: u64) -> Stats {
    Stats {
        requests: stats.requests.wrapping_add(1),
        range_requests: if ranged {
            stats.range_requests.wrapping_add(1)
        } else {
            stats.range_requests
        },
        bytes_served: stats.bytes_served.wrapping_add(bytes),
    }
}

/// Answer a request.
pub fn handle(request: &Request, config: &Config, stats: &mut Stats) -> (out: Answer)
    ensures
        ({
            let range = headers::text_value(request.headers@, "range"@);
            let honour = config.range_behaviour == RangeBehaviour::Honour;
            let is_head = request.method@ == "HEAD"@;
            match named_object(request.path@) {
                None => refuses(out, 404, Seq::empty()) && *final(stats) == counted(
                    *old(stats),
                    false,
                    0,
                ),
                Some((name, size)) => if !is_head && request.method@ != "GET"@ {
                    refuses(out, 405, Seq::empty()) && *final(stats) == counted(
                        *old(stats),
                        false,
                        0,
                    )
                } else {
                    let seed = content::hashed(encode_utf8(name));
                    match asked(range, honour, size) {
                        Asked::Unsatisfiable => refuses(
                            out,
                            416,
                            seq![
                                (
                                    "content-range"@,
                                    encode_utf8("bytes */"@ + text::decimal(size as nat)),
                                ),
                            ],
                        ) && *final(stats) == counted(*old(stats), true, 0),
                        Asked::Part(a, b) => {
                            let len = (b - a + 1) as u64;
                            &&& out matches Answer::Served { head, seed: s, start, len: sent }
                            &&& head.status == 206
                            &&& head.headers@ == content_lines(seed, size, *config, a, len, true)
                            &&& s == seed
                            &&& start == a
                            &&& sent == (if is_head {
                                0
                            } else {
                                len
                            })
                            &&& *final(stats) == counted(*old(stats), true, sent)
                        },
                        Asked::Whole => {
                            &&& out matches Answer::Served { head, seed: s, start, len: sent }
                            &&& head.status == 200
                            &&& head.headers@ == content_lines(seed, size, *config, 0, size, false)
                            &&& s == seed
                            &&& start == 0
                            &&& sent == (if is_head {
                                0
                            } else {
                                size
                            })
                            &&& *final(stats) == counted(*old(stats), range is Some, sent)
                        },
                    }
                },
            }
        }),
        out matches Answer::Served { start, len, .. } ==> start + len <= u64::MAX,
{
    stats.requests = stats.requests.wrapping_add(1);
    let (seed, size) = match parse_path(request.path.as_str()) {
        Some(object) => object,
        None => return refused(404),
    };
    let is_head = text::same(request.method.as_str(), "HEAD");
    if !is_head && !text::same(request.method.as_str(), "GET") {
        return refused(405);
    }
    let raw = request.headers.get_text("range");
    if raw.is_some() {
        stats.range_requests = stats.range_requests.wrapping_add(1);
    }
    let honour = match config.range_behaviour {
        RangeBehaviour::Honour => true,
        RangeBehaviour::Ignore => false,
    };
    let mut start: u64 = 0;
    let mut len: u64 = size;
    let mut partial = false;
    if honour {
        if let Some(raw) = &raw {
            match parse_single_range(raw.as_str(), size) {
                Some((a, b)) => {
                    start = a;
                    len = b - a + 1;
                    partial = true;
                },
                None => {
                    let chars = text::chars_of(raw.as_str());
                    if text::strip_prefix(chars.as_slice(), "bytes=").is_some() && !holds(
                        chars.as_slice(),
                        ',',
                    ) {
                        proof {
                            lemma_names();
                        }
                        let mut lines = HeaderMap::new();
                        let mut value = "bytes */".to_owned();
                        value.append(text::decimal_string(size).as_str());
                        lines.append("content-range", value.as_str().as_bytes());
                        assert(lines@ =~= seq![
                            (
                                "content-range"@,
                                encode_utf8("bytes */"@ + text::decimal(size as nat)),
                            ),
                        ]);
                        return Answer::Refused(
                            Reply { head: Head { status: 416, headers: lines }, body: Vec::new() },
                        );
                    }
                },
            }
        }
    }
    let head = head_for(seed, size, config, start, len, partial);
    if is_head {
        len = 0;
    }
    stats.bytes_served = stats.bytes_served.wrapping_add(len);
    Answer::Served { head, seed, start, len }
}

/// The next piece of a body of which some bytes were sent.
pub fn next_chunk(seed: u64, start: u64, len: u64, sent: u64) -> (out: Vec<u8>)
    requires
        start + len <= u64::MAX,
        sent < len,
    ensures
        0 < out@.len() <= STREAM_CHUNK,
        out@.len() == len - sent || out@.len() == STREAM_CHUNK,
        out@ == content::content(seed, start + sent, out@.len()),
        sent + out@.len() <= len,
{
    let left: u64 = len - sent;
    let n: usize = if left < STREAM_CHUNK {
        left as usize
    } else {
        STREAM_CHUNK as usize
    };
    content::range(seed, start + sent, n)
}

proof fn lemma_last_of(a: Seq<char>, c: char, b: Seq<char>)
    requires
        forall|i: int| 0 <= i < b.len() ==> b[i] != c,
    ensures
        text::last_of(a.push(c) + b, c) == a.len(),
    decreases b.len(),
{
    let s = a.push(c) + b;
    if b.len() == 0 {
        assert(s =~= a.push(c));
    } else {
        assert(s.last() == b.last());
        assert(s.drop_last() =~= a.push(c) + b.drop_last());
        lemma_last_of(a, c, b.drop_last());
    }
}

/// The path of an object leads to that object, whatever its name is.
pub proof fn object_paths_read_back(name: Seq<char>, size: u64)
    ensures
        named_object(path_of(name, size)) == Some((name, size)),
{
    let digits = text::decimal(size as nat);
    let path = path_of(name, size);
    reveal_strlit("/o/");
    reveal_strlit("/");
    assert("/"@ =~= seq!['/']);
    let rest = path.skip("/o/"@.len() as int);
    assert(rest =~= name.push('/') + digits);
    assert("/o/"@.is_prefix_of(path)) by {
        assert(path.take("/o/"@.len() as int) =~= "/o/"@);
    }
    text::lemma_decimal_reads_back(size as nat);
    assert forall|i: int| 0 <= i < digits.len() implies digits[i] != '/' by {
        assert(text::is_digit(digits[i]));
    }
    lemma_last_of(name, '/', digits);
    assert(rest.skip(name.len() as int + 1) =~= digits);
    assert(rest.take(name.len() as int) =~= name);
    assert(digits[0] != '+') by {
        assert(text::is_digit(digits[0]));
    }
}

/// The mock origin reads a range as the proxy does: what the one takes it to select, the other does
/// too.
pub proof fn origin_and_proxy_read_ranges_alike(value: Seq<char>, total: u64)
    ensures
        single_range(value, total) == (match crate::proxy::range::range_spec(value) {
            Ok(spec) => match crate::proxy::range::resolved(spec, total) {
                Ok(r) => Some((r.start, r.end)),
                Err(_) => None,
            },
            Err(_) => None,
        }),
{
    reveal_strlit("bytes=");
    let v = text::trimmed(value);
    if "bytes="@.is_prefix_of(v) && !v.skip("bytes="@.len() as int).contains(',') {
        if let Some((a, b)) = text::split_at_first(v.skip("bytes="@.len() as int), '-') {
            let (start, end) = (text::trimmed(a), text::trimmed(b));
            if start.len() == 0 && end.len() == 0 {
                assert(text::parsed_u64(end) is None);
            }
        }
    }
}

/// A range that is written as `bytes=a-b` is answered with these bytes as far as the object has
/// them, and refused where it has not even the first; an origin that ignores ranges, and a request
/// without one, get the whole.
pub proof fn ranges_are_answered_or_refused(a: u64, b: u64, size: u64, raw: Seq<char>)
    requires
        a <= b,
    ensures
        asked(None, true, size) is Whole,
        asked(Some(raw), false, size) is Whole,
        ({
            let written = "bytes="@ + (text::decimal(a as nat) + seq!['-'] + text::decimal(b as nat));
            let answer = asked(Some(written), true, size);
            &&& a >= size ==> answer is Unsatisfiable
            &&& a < size && b < size ==> answer == Asked::Part(a, b)
            &&& a < size && b >= size ==> answer == Asked::Part(a, (size - 1) as u64)
        }),
        !"bytes="@.is_prefix_of(raw) && text::trimmed(raw) == raw ==> asked(
            Some(raw),
            true,
            size,
        ) is Whole,
{
    reveal_strlit("bytes=");
    let first = text::decimal(a as nat);
    let second = text::decimal(b as nat);
    let written = "bytes="@ + (first + seq!['-'] + second);
    crate::proxy::range::written_ranges_are_read(a, b);
    origin_and_proxy_read_ranges_alike(written, size);
    text::lemma_decimal_reads_back(a as nat);
    text::lemma_decimal_reads_back(b as nat);
    assert("bytes="@.is_prefix_of(written)) by {
        assert(written.subrange(0, 6) =~= "bytes="@);
    }
    if written.contains(',') {
        let k = choose|k: int| 0 <= k < written.len() && written[k] == ',';
        if k < 6 {
            assert("bytes="@[k] == ',');
        } else if k < 6 + first.len() {
            assert(text::is_digit(first[k - 6]));
        } else if k > 6 + first.len() {
            assert(text::is_digit(second[k - 7 - first.len()]));
        }
    }
}

/// The lines of an answer with content, and no others: its kind, how many bytes follow, which
/// version it is, whether ranges may be asked for, and which bytes these are where they are a part.
pub proof fn answers_say_what_they_carry(
    seed: u64,
    size: u64,
    config: Config,
    start: u64,
    len: u64,
    partial: bool,
    line: headers::Line,
)
    requires
        partial ==> len > 0 && start + len <= size,
    ensures
        content_lines(seed, size, config, start, len, partial).contains(line) <==> {
            ||| line == ("content-type"@, encode_utf8("application/octet-stream"@))
            ||| line == ("content-length"@, encode_utf8(text::decimal(len as nat)))
            ||| line == ("etag"@, encode_utf8(etag_text(seed, size, config.etag_suffix)))
            ||| line.0 == "accept-ranges"@ && line.1 == encode_utf8(
                match config.range_behaviour {
                    RangeBehaviour::Honour => "bytes"@,
                    RangeBehaviour::Ignore => "none"@,
                },
            )
            ||| partial && line == (
                "content-range"@,
                encode_utf8(
                    crate::proxy::server::content_range(
                        crate::proxy::range::ByteRange { start, end: (start + len - 1) as u64 },
                        size,
                    ),
                ),
            )
        },
{
    let lines = content_lines(seed, size, config, start, len, partial);
    assert(lines[0] == ("content-type"@, encode_utf8("application/octet-stream"@)));
    assert(lines[1] == ("content-length"@, encode_utf8(text::decimal(len as nat))));
    assert(lines[2] == ("etag"@, encode_utf8(etag_text(seed, size, config.etag_suffix))));
    assert(lines[3].0 == "accept-ranges"@);
    assert(lines[3] == (lines[3].0, lines[3].1));
    if partial {
        assert(lines[4].0 == "content-range"@);
        assert(lines[4] == (lines[4].0, lines[4].1));
    }
}

proof fn lemma_hexadecimal_digits(n: nat)
    ensures
        forall|i: int| 0 <= i < text::hexadecimal(n).len() ==> #[trigger] text::hexadecimal(n)[i]
            != '-',
    decreases n,
{
    let d = text::hexadecimal(n);
    if n >= 16 {
        lemma_hexadecimal_digits(n / 16);
        let front = text::hexadecimal(n / 16);
        assert forall|i: int| 0 <= i < d.len() implies #[trigger] d[i] != '-' by {
            if i < front.len() {
                assert(front[i] != '-');
            }
        }
    }
}

/// An entity tag is made of the object, its length and how often it was replaced, each in base
/// sixteen with a dash between them.
pub proof fn tags_name_object_length_and_version(seed: u64, size: u64, suffix: u64)
    ensures
        text::parts(etag_text(seed, size, suffix), '-') == seq![
            seq!['"'] + text::zero_filled(text::hexadecimal(seed as nat), 16),
            text::hexadecimal(size as nat),
            text::hexadecimal(suffix as nat) + seq!['"'],
        ],
{
    reveal_strlit("\"");
    reveal_strlit("-");
    let q = seq!['"'];
    let dash = seq!['-'];
    let a = q + text::zero_filled(text::hexadecimal(seed as nat), 16);
    let b = text::hexadecimal(size as nat);
    let c = text::hexadecimal(suffix as nat) + q;
    lemma_hexadecimal_digits(seed as nat);
    lemma_hexadecimal_digits(size as nat);
    lemma_hexadecimal_digits(suffix as nat);
    let h = text::hexadecimal(seed as nat);
    let z = text::zero_filled(h, 16);
    assert forall|i: int| 0 <= i < a.len() implies #[trigger] a[i] != '-' by {
        if i > 0 {
            assert(a[i] == z[i - 1]);
            if i - 1 >= z.len() - h.len() {
                assert(z[i - 1] == h[i - 1 - (z.len() - h.len())]);
            } else {
                assert(z[i - 1] == '0');
            }
        }
    }
    assert forall|i: int| 0 <= i < c.len() implies #[trigger] c[i] != '-' by {
        if i < text::hexadecimal(suffix as nat).len() {
            assert(c[i] == text::hexadecimal(suffix as nat)[i]);
        }
    }
    let tail = b + dash + c;
    assert(etag_text(seed, size, suffix) =~= a + dash + tail);
    text::texts_part_at_every_separator(a, '-', tail);
    text::texts_part_at_every_separator(b, '-', c);
    text::texts_part_at_every_separator(c, '-', Seq::empty());
    assert(text::parts(etag_text(seed, size, suffix), '-') =~= seq![a, b, c]);
}

/// Each request counts once, a ranged one also as such, and with the bytes that were sent for it.
pub proof fn requests_are_counted_once(stats: Stats, ranged: bool, bytes: u64)
    requires
        stats.requests < u64::MAX,
        stats.range_requests < u64::MAX,
        stats.bytes_served + bytes <= u64::MAX,
    ensures
        counted(stats, ranged, bytes).requests == stats.requests + 1,
        counted(stats, ranged, bytes).range_requests == stats.range_requests + if ranged {
            1int
        } else {
            0int
        },
        counted(stats, ranged, bytes).bytes_served == stats.bytes_served + bytes,
{
}

} // verus!
