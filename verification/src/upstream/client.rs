//! Fetching from origins.
//!
//! Redirects are deliberately not followed. Following one silently would store the redirect
//! target's bytes under the original request's cache key, so a later request for that key would
//! serve content from a URL nobody asked for.
use crate::config::units;
use crate::config::units::{quoted, Duration};
use crate::proxy::headers;
use crate::proxy::headers::HeaderMap;
use crate::text;
use crate::upstream::resolver::{ResolveError, SocketAddr};
use crate::wire;
use vstd::prelude::*;
use vstd::slice::slice_subrange;
use vstd::string::*;

verus! {

/// The cap on concurrent fetches of one service.
#[derive(Debug, PartialEq, Eq)]
pub struct ServiceLimit {
    pub service: String,
    pub limit: usize,
}

#[derive(Debug, PartialEq, Eq)]
pub struct ClientConfig {
    pub connect_timeout: Duration,
    pub request_timeout: Duration,
    /// Retries after a transient failure. One is enough to paper over a reset connection without
    /// turning an origin outage into an amplification attack against it.
    pub retries: usize,
    /// Global ceiling on concurrent upstream fetches.
    pub max_inflight: usize,
    /// Per-service ceilings. A service with no entry is bounded only by the global limit.
    pub per_service_inflight: Vec<ServiceLimit>,
}

impl Default for ClientConfig {
    fn default() -> (out: Self)
        ensures
            out.connect_timeout.secs == 10,
            out.request_timeout.secs == 120,
            out.retries == 1,
            out.max_inflight == 256,
            out.per_service_inflight@.len() == 0,
    {
        ClientConfig {
            connect_timeout: Duration { secs: 10 },
            request_timeout: Duration { secs: 120 },
            retries: 1,
            max_inflight: 256,
            per_service_inflight: Vec::new(),
        }
    }
}

/// The limit that is configured for a service, where there is one.
pub open spec fn limit_of(limits: Seq<ServiceLimit>, service: Seq<char>) -> Option<usize>
    decreases limits.len(),
{
    if limits.len() == 0 {
        None
    } else if limits[0].service@ == service {
        Some(limits[0].limit)
    } else {
        limit_of(limits.skip(1), service)
    }
}

impl ClientConfig {
    /// How many fetches of a service may run at a time, where that is limited at all. A limit of
    /// zero is taken for one: a service that is listed is meant to be fetched from.
    pub fn service_permits(&self, service: &str) -> (out: Option<usize>)
        ensures
            out == (match limit_of(self.per_service_inflight@, service@) {
                Some(n) => Some(
                    if n == 0 {
                        1usize
                    } else {
                        n
                    },
                ),
                None => None,
            }),
    {
        let n: usize = self.per_service_inflight.len();
        let ghost all = self.per_service_inflight@;
        assert(all.skip(0) =~= all);
        for i in 0..n
            invariant
                n == self.per_service_inflight@.len(),
                all == self.per_service_inflight@,
                limit_of(all, service@) == limit_of(all.skip(i as int), service@),
        {
            assert(all.skip(i as int)[0] == all[i as int]);
            assert(all.skip(i as int).skip(1) =~= all.skip(i as int + 1));
            if text::same(self.per_service_inflight[i].service.as_str(), service) {
                let limit: usize = self.per_service_inflight[i].limit;
                return Some(
                    if limit == 0 {
                        1
                    } else {
                        limit
                    },
                );
            }
        }
        None
    }
}

/// A status code and its reason, as they are shown.
pub uninterp spec fn status_text(status: u16) -> Seq<char>;

/// Calls the `Display` of `hyper::StatusCode`, or of the error that a number outside of 100 to 999
/// gives. The result depends on the number alone.
#[verifier::external_body]
pub(crate) fn show_status(status: u16) -> (out: String)
    ensures
        out@ == status_text(status),
{
    match hyper::StatusCode::from_u16(status) {
        Ok(code) => code.to_string(),
        Err(e) => e.to_string(),
    }
}

/// The host and the port of a URL, each where there is one: the port is the one that is written or
/// the one of the scheme. Nothing for what is no URL.
pub uninterp spec fn url_parts(url: Seq<char>) -> Option<(Option<Seq<char>>, Option<u16>)>;

/// Calls `reqwest::Url::parse` and takes `host_str` and `port_or_known_default` of the result,
/// which depend on the text alone.
#[verifier::external_body]
fn parse_url(url: &str) -> (out: Option<(Option<String>, Option<u16>)>)
    ensures
        out is Some <==> url_parts(url@) is Some,
        out matches Some((host, port)) ==> url_parts(url@) == Some((wire::chars_in(host), port)),
{
    match reqwest::Url::parse(url) {
        Ok(parsed) => Some((parsed.host_str().map(str::to_owned), parsed.port_or_known_default())),
        Err(_) => None,
    }
}

#[derive(Debug, PartialEq, Eq)]
pub enum UpstreamError {
    /// The client could not be built.
    Build { source: String },
    Resolve(ResolveError),
    /// The request itself failed.
    Request { url: String, source: String },
    Status { url: String, status: u16 },
    Redirect { url: String, location: String },
}

impl UpstreamError {
    pub open spec fn message_spec(self) -> Seq<char> {
        match self {
            UpstreamError::Build { source } => "building the upstream client failed: "@ + source@,
            UpstreamError::Resolve(e) => e.message_spec(),
            UpstreamError::Request { url, source } => "upstream request to "@ + url@ + " failed: "@
                + source@,
            UpstreamError::Status { url, status } => "upstream "@ + url@ + " answered "@
                + status_text(status) + ", which is not cacheable"@,
            UpstreamError::Redirect { url, location } => "upstream "@ + url@ + " redirected to "@
                + units::quoted_text(location@) + "; cachic does not follow redirects"@,
        }
    }

    /// The error in words.
    pub fn message(&self) -> (out: String)
        ensures
            out@ == self.message_spec(),
    {
        match self {
            UpstreamError::Build { source } => {
                "building the upstream client failed: ".to_owned().concat(source.as_str())
            },
            UpstreamError::Resolve(e) => e.message(),
            UpstreamError::Request { url, source } => {
                let mut out = "upstream request to ".to_owned();
                out.append(url.as_str());
                out.append(" failed: ");
                out.append(source.as_str());
                out
            },
            UpstreamError::Status { url, status } => {
                let mut out = "upstream ".to_owned();
                out.append(url.as_str());
                out.append(" answered ");
                out.append(show_status(*status).as_str());
                out.append(", which is not cacheable");
                out
            },
            UpstreamError::Redirect { url, location } => {
                let mut out = "upstream ".to_owned();
                out.append(url.as_str());
                out.append(" redirected to ");
                out.append(quoted(location.as_str()).as_str());
                out.append("; cachic does not follow redirects");
                out
            },
        }
    }
}

/// What a URL comes to as something to resolve: an empty host where it names none, port 80 where
/// neither it nor its scheme says, and a bad request where it is no URL.
pub fn target_of(url: &str, parts: Option<(Option<String>, Option<u16>)>) -> (out: Result<
    (String, u16),
    UpstreamError,
>)
    ensures
        match parts {
            None => out matches Err(UpstreamError::Status { url: u, status }) && u@ == url@
                && status == 400,
            Some((host, port)) => {
                &&& out matches Ok((h, p))
                &&& h@ == (match host {
                    Some(s) => s@,
                    None => Seq::empty(),
                })
                &&& p == (match port {
                    Some(n) => n,
                    None => 80,
                })
            },
        },
{
    match parts {
        None => Err(UpstreamError::Status { url: url.to_owned(), status: 400 }),
        Some((host, port)) => Ok(
            (
                match host {
                    Some(h) => h,
                    None => String::new(),
                },
                match port {
                    Some(p) => p,
                    None => 80,
                },
            ),
        ),
    }
}

/// The host and port to check before a URL is fetched.
///
/// They are taken from the URL rather than passed alongside it: a `Host` header with a port in it
/// is neither a host name nor an address.
pub fn check_url(url: &str) -> (out: Result<(String, u16), UpstreamError>)
    ensures
        match url_parts(url@) {
            None => out matches Err(UpstreamError::Status { url: u, status }) && u@ == url@
                && status == 400,
            Some((host, port)) => {
                &&& out matches Ok((h, p))
                &&& h@ == (match host {
                    Some(s) => s,
                    None => Seq::empty(),
                })
                &&& p == (match port {
                    Some(n) => n,
                    None => 80,
                })
            },
        },
{
    let parts = parse_url(url);
    target_of(url, parts)
}

/// Whether a host may be fetched from, given what it resolved to. Asked before each request, so a
/// host that is refused fails at once, and in the same way whether or not it can be reached.
pub fn check_host(resolved: Result<Vec<SocketAddr>, ResolveError>) -> (out: Result<
    (),
    UpstreamError,
>)
    ensures
        match resolved {
            Ok(_) => out is Ok,
            Err(e) => out == Err::<(), UpstreamError>(UpstreamError::Resolve(e)),
        },
{
    match resolved {
        Ok(_) => Ok(()),
        Err(e) => Err(UpstreamError::Resolve(e)),
    }
}

/// The `Range` header for the bytes `start..=end`.
pub fn range_header(start: u64, end: u64) -> (out: String)
    ensures
        out@ == "bytes="@ + text::decimal(start as nat) + "-"@ + text::decimal(end as nat),
{
    let mut out = "bytes=".to_owned();
    out.append(text::decimal_string(start).as_str());
    out.append("-");
    out.append(text::decimal_string(end).as_str());
    out
}

/// One upstream response, with the bits that matter.
#[derive(Debug)]
pub struct UpstreamResponse {
    pub status: u16,
    pub headers: HeaderMap,
    pub body: Vec<u8>,
}

/// The total length in a `Content-Range` value: what stands behind the last slash.
pub open spec fn total_in(value: Seq<char>) -> Option<u64> {
    let i = text::last_of(value, '/');
    if i >= 0 {
        text::parsed_u64(text::trimmed(value.skip(i + 1)))
    } else {
        None
    }
}

/// Extract the total length from `bytes a-b/total`.
pub fn parse_content_range_total(value: &str) -> (out: Option<u64>)
    ensures
        out == total_in(value@),
{
    let chars = text::chars_of(value);
    let n: usize = chars.len();
    match text::find_last(chars.as_slice(), '/') {
        None => None,
        Some(i) => {
            let rest = slice_subrange(chars.as_slice(), i + 1, n);
            assert(rest@ =~= chars@.skip(i as int + 1));
            text::parse_u64(text::trim(rest))
        },
    }
}

impl UpstreamResponse {
    /// The first value of a header, where it is text. Case does not matter in its name.
    pub fn header(&self, name: &str) -> (out: Option<String>)
        ensures
            wire::chars_in(out) == headers::text_value(self.headers@, name@),
    {
        self.headers.get_text(name)
    }

    /// A response carrying only a `Content-Range`, where that can stand in a header.
    pub fn for_test_with_content_range(value: &str) -> (out: Option<Self>)
        ensures
            out is Some <==> headers::is_valid_value(vstd::utf8::encode_utf8(value@)),
            out matches Some(r) ==> {
                &&& r.status == 206
                &&& r.headers@ == seq![("content-range"@, vstd::utf8::encode_utf8(value@))]
                &&& r.body@.len() == 0
            },
    {
        if !headers::valid_value(value.as_bytes()) {
            return None;
        }
        let mut lines = HeaderMap::new();
        proof {
            reveal_strlit("content-range");
            assert(text::lowered("content-range"@) =~= "content-range"@);
        }
        lines.append("content-range", value.as_bytes());
        assert(lines@ =~= seq![("content-range"@, vstd::utf8::encode_utf8(value@))]);
        Some(UpstreamResponse { status: 206, headers: lines, body: Vec::new() })
    }

    /// Total object length from a `Content-Range: bytes a-b/total`.
    pub fn content_range_total(&self) -> (out: Option<u64>)
        ensures
            out == (match headers::text_value(self.headers@, "content-range"@) {
                Some(value) => total_in(value),
                None => None,
            }),
    {
        let value = match self.header("content-range") {
            Some(v) => v,
            None => return None,
        };
        parse_content_range_total(value.as_str())
    }
}

/// What came of sending a request.
#[derive(Debug)]
pub enum FetchEvent {
    /// The origin answered, with this status and this `Location`.
    Answered { status: u16, location: Option<String> },
    /// The request failed below HTTP. `transient` is a failure to connect or a timeout.
    Failed { transient: bool, reason: String },
}

/// What to do about it.
#[derive(Debug, PartialEq, Eq)]
pub enum FetchAction {
    /// Read the body.
    Accept,
    /// Send the request again.
    Retry,
    Fail(UpstreamError),
}

/// Whether an answer carries what was asked for.
pub open spec fn is_content(status: u16) -> bool {
    200 <= status < 300
}

/// Whether an answer points elsewhere.
pub open spec fn is_redirect(status: u16) -> bool {
    300 <= status < 400
}

/// Whether a request that failed is sent again.
pub open spec fn is_sent_again(transient: bool, attempt: usize, retries: usize) -> bool {
    transient && attempt < retries
}

/// A fetch under way.
#[derive(Debug)]
pub struct Fetch {
    pub url: String,
    /// How many times it has been sent again.
    pub attempt: usize,
    pub retries: usize,
}

impl Fetch {
    pub fn new(url: &str, retries: usize) -> (out: Self)
        ensures
            out.url@ == url@,
            out.attempt == 0,
            out.retries == retries,
    {
        Fetch { url: url.to_owned(), attempt: 0, retries }
    }

    /// Takes the outcome of a request.
    ///
    /// Only failures of the transport are retried, and only as often as configured. A server error
    /// is the origin's answer, and retrying it would amplify an outage.
    pub fn step(&mut self, event: FetchEvent) -> (out: FetchAction)
        requires
            old(self).attempt <= old(self).retries,
        ensures
            final(self).url@ == old(self).url@,
            final(self).retries == old(self).retries,
            final(self).attempt <= final(self).retries,
            match event {
                FetchEvent::Answered { status, location } => {
                    &&& final(self).attempt == old(self).attempt
                    &&& if 300 <= status < 400 {
                        out matches FetchAction::Fail(UpstreamError::Redirect { url, location: l })
                            && url@ == old(self).url@ && l@ == (match location {
                            Some(s) => s@,
                            None => Seq::empty(),
                        })
                    } else if 200 <= status < 300 {
                        out == FetchAction::Accept
                    } else {
                        out matches FetchAction::Fail(UpstreamError::Status { url, status: s })
                            && url@ == old(self).url@ && s == status
                    }
                },
                FetchEvent::Failed { transient, reason } => if transient && old(self).attempt < old(
                    self,
                ).retries {
                    out == FetchAction::Retry && final(self).attempt == old(self).attempt + 1
                } else {
                    final(self).attempt == old(self).attempt && (
                    out matches FetchAction::Fail(UpstreamError::Request { url, source }) && url@
                        == old(self).url@ && source == reason)
                },
            },
            event matches FetchEvent::Answered { status, .. } ==> (out == FetchAction::Accept
                <==> is_content(status)) && (out matches FetchAction::Fail(
                UpstreamError::Redirect { .. },
            ) <==> is_redirect(status)),
            event matches FetchEvent::Failed { transient, .. } ==> (out == FetchAction::Retry
                <==> is_sent_again(transient, old(self).attempt, old(self).retries)),
    {
        match event {
            FetchEvent::Answered { status, location } => {
                if 300 <= status && status < 400 {
                    FetchAction::Fail(
                        UpstreamError::Redirect {
                            url: self.url.clone(),
                            location: match location {
                                Some(l) => l,
                                None => String::new(),
                            },
                        },
                    )
                } else if 200 <= status && status < 300 {
                    FetchAction::Accept
                } else {
                    FetchAction::Fail(UpstreamError::Status { url: self.url.clone(), status })
                }
            },
            FetchEvent::Failed { transient, reason } => {
                if transient && self.attempt < self.retries {
                    self.attempt = self.attempt + 1;
                    FetchAction::Retry
                } else {
                    FetchAction::Fail(
                        UpstreamError::Request { url: self.url.clone(), source: reason },
                    )
                }
            },
        }
    }
}

/// The length of an object is the number behind the last slash of a `Content-Range`, whatever
/// stands in front of it and whatever white space around it. Where no number stands there, or there
/// is no slash, it is not known.
pub proof fn lengths_stand_behind_the_last_slash(
    front: Seq<char>,
    before: Seq<char>,
    n: u64,
    after: Seq<char>,
    other: Seq<char>,
)
    requires
        forall|i: int| 0 <= i < before.len() ==> text::is_space(#[trigger] before[i]),
        forall|i: int| 0 <= i < after.len() ==> text::is_space(#[trigger] after[i]),
        forall|i: int| 0 <= i < other.len() ==> #[trigger] other[i] != '/',
        forall|i: int| 0 <= i < other.len() ==> !text::is_digit(#[trigger] other[i]),
    ensures
        total_in(front + seq!['/'] + (before + text::decimal(n as nat) + after)) == Some(n),
        total_in(front + seq!['/'] + other) is None,
        total_in(other) is None,
{
    let d = text::decimal(n as nat);
    let tail = before + d + after;
    text::lemma_decimal_reads_back(n as nat);
    assert(text::is_digit(d[0]) && text::is_digit(d[d.len() - 1]));
    text::trimming_takes_the_white_space_around(before, d, after);
    text::numbers_are_written_in_decimal(n as nat, 0);
    assert forall|i: int| 0 <= i < tail.len() implies #[trigger] tail[i] != '/' by {
        if i < before.len() {
            assert(tail[i] == before[i]);
        } else if i < before.len() + d.len() {
            assert(tail[i] == d[i - before.len()]);
            assert(text::is_digit(d[i - before.len()]));
        } else {
            assert(tail[i] == after[i - before.len() - d.len()]);
        }
    }
    lemma_last_slash(front, tail);
    lemma_last_slash(front, other);
    lemma_no_slash(other);
    let t = text::trimmed(other);
    lemma_trimmed_keeps(other);
    if t.len() == 1 && t[0] == '+' {
        assert(t.skip(1) =~= Seq::empty());
    } else if t.len() > 0 {
        let i: int = if t[0] == '+' {
            1
        } else {
            0
        };
        assert(!text::is_digit(t[i]));
        text::only_digits_make_a_number(t, i);
    } else {
        assert(text::parsed_u64(t) is None);
    }
}

/// Trimming keeps characters that were there.
proof fn lemma_trimmed_keeps(s: Seq<char>)
    requires
        forall|i: int| 0 <= i < s.len() ==> !text::is_digit(#[trigger] s[i]),
    ensures
        forall|i: int|
            0 <= i < text::trimmed(s).len() ==> !text::is_digit(#[trigger] text::trimmed(s)[i]),
    decreases s.len(),
{
    if s.len() > 0 {
        if text::is_space(s[0]) {
            assert forall|i: int| 0 <= i < s.skip(1).len() implies !text::is_digit(
                #[trigger] s.skip(1)[i],
            ) by {
                assert(s.skip(1)[i] == s[i + 1]);
            }
            lemma_trimmed_keeps(s.skip(1));
            assert(text::trimmed(s) == text::trimmed(s.skip(1)));
        } else {
            assert(text::trimmed(s) == text::trimmed_end(s));
            lemma_trimmed_end_keeps(s);
        }
    }
}

proof fn lemma_trimmed_end_keeps(s: Seq<char>)
    requires
        forall|i: int| 0 <= i < s.len() ==> !text::is_digit(#[trigger] s[i]),
    ensures
        forall|i: int|
            0 <= i < text::trimmed_end(s).len() ==> !text::is_digit(
                #[trigger] text::trimmed_end(s)[i],
            ),
    decreases s.len(),
{
    if s.len() > 0 && text::is_space(s.last()) {
        assert forall|i: int| 0 <= i < s.drop_last().len() implies !text::is_digit(
            #[trigger] s.drop_last()[i],
        ) by {
            assert(s.drop_last()[i] == s[i]);
        }
        lemma_trimmed_end_keeps(s.drop_last());
        assert(text::trimmed_end(s) == text::trimmed_end(s.drop_last()));
    } else {
        assert(text::trimmed_end(s) == s);
    }
}

proof fn lemma_no_slash(s: Seq<char>)
    requires
        forall|i: int| 0 <= i < s.len() ==> #[trigger] s[i] != '/',
    ensures
        text::last_of(s, '/') == -1,
{
    if s.len() > 0 {
        text::the_last_place_is_the_last(s, '/', 0);
        let k = text::last_of(s, '/');
        assert(k >= 0 ==> s[k] == '/');
    }
}

proof fn lemma_last_slash(front: Seq<char>, tail: Seq<char>)
    requires
        forall|i: int| 0 <= i < tail.len() ==> #[trigger] tail[i] != '/',
    ensures
        ({
            let s = front + seq!['/'] + tail;
            text::last_of(s, '/') == front.len() && s.skip(front.len() as int + 1) == tail
        }),
{
    let s = front + seq!['/'] + tail;
    text::the_last_place_is_the_last(s, '/', front.len() as int);
    let k = text::last_of(s, '/');
    assert(s[front.len() as int] == '/');
    if k > front.len() {
        assert(s[k] == tail[k - front.len() - 1]);
    }
    assert(s.skip(front.len() as int + 1) =~= tail);
}

/// The limit of a service is the first that is listed under its name, and a service that is not
/// listed has none.
pub proof fn limits_are_found_by_name(limits: Seq<ServiceLimit>, service: Seq<char>, i: int)
    requires
        0 <= i <= limits.len(),
        forall|k: int| 0 <= k < i ==> (#[trigger] limits[k]).service@ != service,
    ensures
        i < limits.len() && limits[i].service@ == service ==> limit_of(limits, service) == Some(
            limits[i].limit,
        ),
        i == limits.len() ==> limit_of(limits, service) is None,
    decreases i,
{
    if i > 0 {
        assert(limits[0].service@ != service);
        assert forall|k: int| 0 <= k < i - 1 implies (#[trigger] limits.skip(1)[k]).service@
            != service by {
            assert(limits.skip(1)[k] == limits[k + 1]);
        }
        limits_are_found_by_name(limits.skip(1), service, i - 1);
        if i < limits.len() {
            assert(limits.skip(1)[i - 1] == limits[i]);
        }
    }
}

/// Whatever stands behind the last slash is the length, however the number is written there.
pub proof fn lengths_are_read_as_numbers(front: Seq<char>, tail: Seq<char>)
    requires
        forall|i: int| 0 <= i < tail.len() ==> #[trigger] tail[i] != '/',
    ensures
        total_in(front + seq!['/'] + tail) == text::parsed_u64(text::trimmed(tail)),
{
    let s = front + seq!['/'] + tail;
    let at = front.len() as int;
    text::the_last_place_is_the_last(s, '/', at);
    let i = text::last_of(s, '/');
    assert(s[at] == '/');
    if i > at {
        assert(s[i] == tail[i - at - 1]);
    }
    assert(s.skip(at + 1) =~= tail);
}

/// The hundreds of a status tell what it is: content, a redirect, or neither. Only what failed for a
/// moment is ever sent again, and never more often than is configured: with no retries not at all.
pub proof fn answers_are_final_and_retries_bounded(
    status: u16,
    transient: bool,
    attempt: usize,
    retries: usize,
)
    ensures
        is_content(status) <==> status / 100 == 2,
        is_redirect(status) <==> status / 100 == 3,
        !is_sent_again(false, attempt, retries),
        !is_sent_again(transient, attempt, 0),
        is_sent_again(transient, attempt, retries) ==> attempt + 1 <= retries,
        attempt < retries ==> is_sent_again(true, attempt, retries),
{
}

} // verus!
