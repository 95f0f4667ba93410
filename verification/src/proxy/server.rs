//! What the client-facing server answers.
//!
//! Requests for any `Host` are accepted and matched to a service. What matches none is refused:
//! proxying it would make this an open proxy for the whole network.
use crate::config::rules::{Rules, ServiceRule};
use crate::config::LogFormat;
use crate::orchestrator;
use crate::orchestrator::validators;
use crate::orchestrator::validators::{if_range_matches, Validators};
use crate::orchestrator::{Orchestrator, OrchestratorError, Plan};
use crate::proxy::headers;
use crate::proxy::headers::HeaderMap;
use crate::proxy::heartbeat;
use crate::proxy::limits::ConnectionLimit;
use crate::proxy::range;
use crate::proxy::shutdown::Drain;
use crate::services::domains::DomainList;
use crate::services::key;
use crate::services::key::{CacheKey, CompiledRule};
use crate::services::matcher;
use crate::services::refresh::LiveServices;
use crate::store::slice::clone_text;
use crate::telemetry::logs;
use crate::telemetry::logs::{clf_timestamp, AccessEvent};
use crate::text;
use crate::wire;
use vstd::hash_map::StringHashMap;
use vstd::prelude::*;
use vstd::slice::slice_to_vec;
use vstd::string::*;
use vstd::utf8::*;

verus! {

/// How many connections may be open where nothing else is said.
pub const DEFAULT_CONNECTIONS: u64 = 10_000;

/// What the server goes by.
pub struct ServerConfig {
    pub orchestrator: Orchestrator,
    pub log_format: LogFormat,
    /// The live domain list.
    pub services: LiveServices,
    pub rules: Rules,
    /// The compiled rules, by service.
    pub compiled: StringHashMap<CompiledRule>,
    pub hostname: String,
    pub passthrough_unknown_hosts: bool,
    /// Bounds simultaneously open client connections.
    pub connections: ConnectionLimit,
    /// Tracks in-flight requests so shutdown can wait for them.
    pub drain: Drain,
}

impl ServerConfig {
    /// Nothing but the list of services is set: no rules, no pass-through, JSON logs.
    pub open spec fn is_plain(self) -> bool {
        &&& self.log_format == LogFormat::Json
        &&& self.rules.services@.len() == 0
        &&& self.rules.defaults.is_plain()
        &&& self.compiled@ == Map::<Seq<char>, CompiledRule>::empty()
        &&& !self.passthrough_unknown_hosts
        &&& self.connections.open_count() == 0
        &&& self.connections.limit() == DEFAULT_CONNECTIONS
        &&& self.drain.running() == 0
        &&& !self.drain.refuses()
    }

    /// The configuration for callers that do not care about limits, with a list of services that
    /// is not refreshed.
    pub fn with_defaults(
        orchestrator: Orchestrator,
        list: DomainList,
        hostname: String,
    ) -> (out: Self)
        ensures
            out.is_plain(),
            out.orchestrator == orchestrator,
            out.services.listed() == list@,
            out.services.table() == matcher::table_of(list@),
            out.hostname@ == hostname@,
    {
        ServerConfig::with_services(orchestrator, LiveServices::new(list), hostname)
    }

    /// The same with a live list of services.
    pub fn with_services(
        orchestrator: Orchestrator,
        services: LiveServices,
        hostname: String,
    ) -> (out: Self)
        ensures
            out.is_plain(),
            out.orchestrator == orchestrator,
            out.services == services,
            out.hostname@ == hostname@,
    {
        ServerConfig {
            orchestrator,
            log_format: LogFormat::Json,
            services,
            rules: Rules::default(),
            compiled: StringHashMap::new(),
            hostname,
            passthrough_unknown_hosts: false,
            connections: ConnectionLimit::new(DEFAULT_CONNECTIONS),
            drain: Drain::new(),
        }
    }
}

/// A client's request, without its body.
#[derive(Debug, PartialEq, Eq)]
pub struct Request {
    pub method: String,
    /// The path of the request target, without its query.
    pub path: String,
    /// The path and the query, where the target has them.
    pub path_and_query: Option<String>,
    pub headers: HeaderMap,
}

impl Request {
    /// The host that is asked for; empty where none can be read.
    pub open spec fn host_spec(self) -> Seq<char> {
        match headers::text_value(self.headers@, "host"@) {
            Some(host) => host,
            None => Seq::empty(),
        }
    }

    /// What is asked for on that host.
    pub open spec fn target_spec(self) -> Seq<char> {
        match self.path_and_query {
            Some(target) => target@,
            None => "/"@,
        }
    }

    fn host(&self) -> (out: String)
        ensures
            out@ == self.host_spec(),
    {
        match self.headers.get_text("host") {
            Some(host) => host,
            None => String::new(),
        }
    }

    pub(crate) fn target(&self) -> (out: String)
        ensures
            out@ == self.target_spec(),
    {
        match &self.path_and_query {
            Some(target) => target.clone(),
            None => "/".to_owned(),
        }
    }
}

/// The head of an answer.
#[derive(Debug, PartialEq, Eq)]
pub struct Head {
    pub status: u16,
    pub headers: HeaderMap,
}

/// A whole answer.
#[derive(Debug, PartialEq, Eq)]
pub struct Reply {
    pub head: Head,
    pub body: Vec<u8>,
}

impl Reply {
    /// A plain text answer.
    pub open spec fn says(self, status: u16, message: Seq<char>) -> bool {
        &&& self.head.status == status
        &&& self.head.headers@ == seq![
            ("content-type"@, encode_utf8("text/plain; charset=utf-8"@)),
        ]
        &&& self.body@ == encode_utf8(message)
    }
}

pub(crate) fn text(status: u16, message: &str) -> (out: Reply)
    ensures
        out.says(status, message@),
{
    proof {
        reveal_strlit("content-type");
        assert(text::lowered("content-type"@) =~= "content-type"@);
    }
    let mut headers = HeaderMap::new();
    headers.append("content-type", "text/plain; charset=utf-8".as_bytes());
    assert(headers@ =~= seq![("content-type"@, encode_utf8("text/plain; charset=utf-8"@))]);
    Reply { head: Head { status, headers }, body: slice_to_vec(message.as_bytes()) }
}

/// What is served from the cache: enough to plan the answer.
#[derive(Debug, PartialEq, Eq)]
pub struct Lookup {
    pub service: String,
    pub key: CacheKey,
    /// Where the object comes from.
    pub url: String,
    /// The client's headers that the origin gets to see.
    pub forwarded: HeaderMap,
    pub range: Option<String>,
    pub if_range: Option<String>,
    /// Only the head of the answer is wanted.
    pub is_head: bool,
}

/// Where a request goes.
#[derive(Debug, PartialEq, Eq)]
pub enum Route {
    Answer(Reply),
    Lookup(Lookup),
}

/// Where a request goes, as far as it matters.
pub enum Verdict {
    Heartbeat,
    Refused { status: u16, message: Seq<char> },
    /// It is served for a service, with what its rule says about keys and schemes.
    Cached { service: Seq<char>, keep_query: bool, include_host: bool, https: bool },
}

/// The methods that are answered from the cache.
pub open spec fn is_read(method: Seq<char>) -> bool {
    method == "GET"@ || method == "HEAD"@
}

/// The service that a host belongs to.
pub open spec fn service_of(table: matcher::Table, host: Seq<char>) -> Option<Seq<char>> {
    match matcher::service_index(table, matcher::normalised_host(host)) {
        Some(i) => Some(table.names[i as int]),
        None => None,
    }
}

/// The rule of a service that came with a refresh, after the rules were compiled. One that cannot
/// be compiled is as good as none.
pub open spec fn late_rule(rules: Rules, service: Seq<char>) -> Option<ServiceRule> {
    if key::compile_fault(rules.rule_for(service)) is None {
        Some(rules.rule_for(service))
    } else {
        None
    }
}

/// Whether a service keeps a path: as its compiled rule says, and where it has none, as the rules
/// say.
pub open spec fn kept(
    compiled: Map<Seq<char>, CompiledRule>,
    rules: Rules,
    service: Seq<char>,
    path: Seq<char>,
) -> bool {
    if compiled.contains_key(service) {
        compiled[service].caches(path)
    } else {
        late_rule(rules, service) matches Some(rule) ==> key::rule_keeps(rule, path)
    }
}

/// What becomes of a request.
pub open spec fn verdict(
    table: matcher::Table,
    compiled: Map<Seq<char>, CompiledRule>,
    rules: Rules,
    passthrough: bool,
    method: Seq<char>,
    host: Seq<char>,
    path: Seq<char>,
) -> Verdict {
    if path == heartbeat::PATH@ {
        Verdict::Heartbeat
    } else if !is_read(method) {
        Verdict::Refused { status: 405, message: "cachic caches GET and HEAD\n"@ }
    } else {
        match service_of(table, host) {
            None => if passthrough {
                Verdict::Refused {
                    status: 501,
                    message: "passthrough is not implemented until TASK-18\n"@,
                }
            } else {
                Verdict::Refused { status: 404, message: "no cached service matches this host\n"@ }
            },
            Some(service) => if !kept(compiled, rules, service, path) {
                Verdict::Refused {
                    status: 501,
                    message: "uncached pass-through is not implemented until TASK-18\n"@,
                }
            } else if compiled.contains_key(service) {
                Verdict::Cached {
                    service,
                    keep_query: compiled[service].keep_query,
                    include_host: compiled[service].include_host,
                    https: compiled[service].upstream_https,
                }
            } else {
                match late_rule(rules, service) {
                    Some(rule) => Verdict::Cached {
                        service,
                        keep_query: rule.keep_query,
                        include_host: rule.include_host,
                        https: rule.upstream_https,
                    },
                    None => Verdict::Cached {
                        service,
                        keep_query: false,
                        include_host: false,
                        https: false,
                    },
                }
            },
        }
    }
}

/// The address of a target on a host.
pub open spec fn url_of(https: bool, host: Seq<char>, target: Seq<char>) -> Seq<char> {
    (if https {
        "https"@
    } else {
        "http"@
    }) + "://"@ + host + target
}

/// Whether a route is what was decided.
pub open spec fn follows(route: Route, verdict: Verdict, request: Request, hostname: Seq<char>) -> bool {
    match verdict {
        Verdict::Heartbeat => {
            &&& route matches Route::Answer(r)
            &&& r.head.status == 204
            &&& r.head.headers@ == heartbeat::heartbeat_lines(encode_utf8(hostname))
            &&& r.body@.len() == 0
        },
        Verdict::Refused { status, message } => {
            &&& route matches Route::Answer(r)
            &&& r.says(status, message)
        },
        Verdict::Cached { service, keep_query, include_host, https } => {
            &&& route matches Route::Lookup(l)
            &&& l.service@ == service
            &&& l.key.service@ == service
            &&& l.key.key@ == key::key_of(
                request.host_spec(),
                request.target_spec(),
                include_host,
                keep_query,
            )
            &&& l.url@ == url_of(https, request.host_spec(), request.target_spec())
            &&& l.forwarded@ == headers::forwarded_lines(request.headers@)
            &&& wire::chars_in(l.range) == headers::text_value(request.headers@, "range"@)
            &&& wire::chars_in(l.if_range) == headers::text_value(request.headers@, "if-range"@)
            &&& l.is_head == (request.method@ == "HEAD"@)
        },
    }
}

/// The compiled rule of a service that came with a refresh.
fn compile_late(rules: &Rules, service: &str) -> (out: CompiledRule)
    ensures
        match late_rule(*rules, service@) {
            Some(rule) => out.compiles(rule),
            None => {
                &&& !out.keep_query
                &&& !out.include_host
                &&& !out.upstream_https
                &&& out.wanted is None
                &&& out.unwanted is None
            },
        },
{
    match CompiledRule::compile(service, rules.for_service(service)) {
        Ok(rule) => rule,
        Err(_) => CompiledRule::default(),
    }
}

/// Decide where a request goes.
///
/// Everything but GET and HEAD is refused, and so is every host that belongs to no service.
pub fn route(config: &ServerConfig, request: &Request) -> (out: Route)
    ensures
        follows(
            out,
            verdict(
                config.services.table(),
                config.compiled@,
                config.rules,
                config.passthrough_unknown_hosts,
                request.method@,
                request.host_spec(),
                request.path@,
            ),
            *request,
            config.hostname@,
        ),
{
    if heartbeat::is_heartbeat(request.path.as_str()) {
        let beat = heartbeat::respond(config.hostname.as_str());
        return Route::Answer(
            Reply {
                head: Head { status: beat.status, headers: beat.headers },
                body: Vec::new(),
            },
        );
    }
    let is_head = text::same(request.method.as_str(), "HEAD");
    if !is_head && !text::same(request.method.as_str(), "GET") {
        return Route::Answer(text(405, "cachic caches GET and HEAD\n"));
    }
    let host = request.host();
    let service = match config.services.matcher().service_for(host.as_str()) {
        Some(service) => service.to_owned(),
        None => {
            if config.passthrough_unknown_hosts {
                return Route::Answer(text(501, "passthrough is not implemented until TASK-18\n"));
            }
            return Route::Answer(text(404, "no cached service matches this host\n"));
        },
    };
    let found = config.compiled.get(service.as_str());
    let late = if found.is_some() {
        CompiledRule::default()
    } else {
        compile_late(&config.rules, service.as_str())
    };
    let rule = match found {
        Some(rule) => rule,
        None => &late,
    };
    proof {
        if let Some(r) = late_rule(config.rules, service@) {
            if found is None {
                late.keeps_what_it_was_compiled_from(r, request.path@);
            }
        }
    }
    if !rule.is_cacheable(request.path.as_str()) {
        return Route::Answer(
            text(501, "uncached pass-through is not implemented until TASK-18\n"),
        );
    }
    let target = request.target();
    let key = key::normalise(service.as_str(), host.as_str(), target.as_str(), rule);
    let mut url = if rule.upstream_https {
        "https".to_owned()
    } else {
        "http".to_owned()
    };
    url.append("://");
    url.append(host.as_str());
    url.append(target.as_str());
    Route::Lookup(
        Lookup {
            service,
            key,
            url,
            forwarded: headers::forwarded_request_headers(&request.headers),
            range: request.headers.get_text("range"),
            if_range: request.headers.get_text("if-range"),
            is_head,
        },
    )
}

/// How many bytes an answer carries.
pub open spec fn body_len(plan: Plan) -> int {
    if plan.total_len == 0 {
        0
    } else {
        plan.wanted.spec_len()
    }
}

/// A line for a value that is there and can stand in a header.
pub open spec fn line_for(name: Seq<char>, value: Option<Seq<char>>) -> Seq<headers::Line> {
    match value {
        Some(v) => if headers::is_valid_value(encode_utf8(v)) {
            seq![(name, encode_utf8(v))]
        } else {
            Seq::empty()
        },
        None => Seq::empty(),
    }
}

/// How a range of a whole is written in `Content-Range`.
pub open spec fn content_range(wanted: range::ByteRange, total_len: u64) -> Seq<char> {
    "bytes "@ + text::decimal(wanted.start as nat) + "-"@ + text::decimal(wanted.end as nat) + "/"@
        + text::decimal(total_len as nat)
}

/// The lines that every answer from the cache starts with.
pub open spec fn first_lines(hostname: Seq<char>, service: Seq<char>, plan: Plan) -> Seq<
    headers::Line,
> {
    seq![
        ("content-length"@, encode_utf8(text::decimal(body_len(plan) as nat))),
        ("accept-ranges"@, encode_utf8("bytes"@)),
        ("x-cache"@, encode_utf8(plan.cache_status.name())),
        ("x-lancache-processed-by"@, encode_utf8(hostname)),
        ("x-cachic-service"@, encode_utf8(service)),
    ]
}

/// The line that says which bytes an answer carries, where it is not the whole object.
pub open spec fn range_lines(plan: Plan) -> Seq<headers::Line> {
    if plan.partial && plan.total_len > 0 {
        seq![("content-range"@, encode_utf8(content_range(plan.wanted, plan.total_len)))]
    } else {
        Seq::empty()
    }
}

/// The lines of an answer from the cache.
pub open spec fn head_lines(hostname: Seq<char>, service: Seq<char>, plan: Plan) -> Seq<
    headers::Line,
> {
    first_lines(hostname, service, plan) + range_lines(plan) + line_for(
        "content-type"@,
        wire::chars_in(plan.meta.content_type),
    ) + line_for("etag"@, wire::chars_in(plan.meta.etag)) + line_for(
        "last-modified"@,
        wire::chars_in(plan.meta.last_modified),
    )
}

/// The names of the lines that are written here are in small letters.
proof fn lemma_names()
    ensures
        text::lowered("content-length"@) == "content-length"@,
        text::lowered("accept-ranges"@) == "accept-ranges"@,
        text::lowered("x-cache"@) == "x-cache"@,
        text::lowered("x-lancache-processed-by"@) == "x-lancache-processed-by"@,
        text::lowered("x-cachic-service"@) == "x-cachic-service"@,
        text::lowered("content-range"@) == "content-range"@,
        text::lowered("content-type"@) == "content-type"@,
        text::lowered("etag"@) == "etag"@,
        text::lowered("last-modified"@) == "last-modified"@,
{
    reveal_strlit("content-length");
    reveal_strlit("accept-ranges");
    reveal_strlit("x-cache");
    reveal_strlit("x-lancache-processed-by");
    reveal_strlit("x-cachic-service");
    reveal_strlit("content-range");
    reveal_strlit("content-type");
    reveal_strlit("etag");
    reveal_strlit("last-modified");
    assert(text::lowered("content-length"@) =~= "content-length"@);
    assert(text::lowered("accept-ranges"@) =~= "accept-ranges"@);
    assert(text::lowered("x-cache"@) =~= "x-cache"@);
    assert(text::lowered("x-lancache-processed-by"@) =~= "x-lancache-processed-by"@);
    assert(text::lowered("x-cachic-service"@) =~= "x-cachic-service"@);
    assert(text::lowered("content-range"@) =~= "content-range"@);
    assert(text::lowered("content-type"@) =~= "content-type"@);
    assert(text::lowered("etag"@) =~= "etag"@);
    assert(text::lowered("last-modified"@) =~= "last-modified"@);
}

/// Adds a line for a value that is there and can stand in a header.
fn append_optional(lines: &mut HeaderMap, name: &str, value: &Option<String>)
    requires
        text::lowered(name@) == name@,
    ensures
        final(lines)@ == old(lines)@ + line_for(name@, wire::chars_in(*value)),
{
    let ghost before = lines@;
    if let Some(v) = value {
        if headers::valid_value(v.as_str().as_bytes()) {
            lines.append(name, v.as_str().as_bytes());
        }
    }
    assert(lines@ =~= before + line_for(name@, wire::chars_in(*value)));
}

/// Whether a plan is one that an answer can be made of.
pub open spec fn answerable(plan: Plan) -> bool {
    plan.total_len > 0 ==> plan.wanted.start <= plan.wanted.end < plan.total_len
}

/// The head of an answer from the cache, and how many bytes follow it.
fn head_for(hostname: &str, service: &str, plan: &Plan) -> (out: (Head, u64))
    requires
        answerable(*plan),
    ensures
        out.0.status == plan.status,
        out.0.headers@ == head_lines(hostname@, service@, *plan),
        out.1 == body_len(*plan),
{
    proof {
        lemma_names();
    }
    let len: u64 = if plan.total_len == 0 {
        0
    } else {
        plan.wanted.len()
    };
    let mut lines = HeaderMap::new();
    lines.append("content-length", text::decimal_string(len).as_str().as_bytes());
    lines.append("accept-ranges", "bytes".as_bytes());
    lines.append("x-cache", plan.cache_status.as_str().as_bytes());
    lines.append("x-lancache-processed-by", hostname.as_bytes());
    lines.append("x-cachic-service", service.as_bytes());
    assert(lines@ =~= first_lines(hostname@, service@, *plan));
    if plan.partial && plan.total_len > 0 {
        let mut value = "bytes ".to_owned();
        value.append(text::decimal_string(plan.wanted.start).as_str());
        value.append("-");
        value.append(text::decimal_string(plan.wanted.end).as_str());
        value.append("/");
        value.append(text::decimal_string(plan.total_len).as_str());
        lines.append("content-range", value.as_str().as_bytes());
    }
    assert(lines@ =~= first_lines(hostname@, service@, *plan) + range_lines(*plan));
    append_optional(&mut lines, "content-type", &plan.meta.content_type);
    append_optional(&mut lines, "etag", &plan.meta.etag);
    append_optional(&mut lines, "last-modified", &plan.meta.last_modified);
    (Head { status: plan.status, headers: lines }, len)
}

/// What to do once a request was planned, or could not be.
#[derive(Debug)]
pub enum Next {
    /// Plan it again, for the whole object.
    Replan,
    Answer(Reply),
    /// Answer with this head, followed by the bytes that the plan calls for.
    Stream { head: Head, plan: Plan },
    Fail(OrchestratorError),
}

/// Whether the version that a client has part of is no longer the current one, so that the range
/// it asks for refers to bytes that may no longer be there.
pub open spec fn outdated(if_range: Option<Seq<char>>, current: validators::Marks) -> bool {
    if_range matches Some(header) && !validators::if_range_agrees(header, current)
}

/// Whether a client has part of another version than the current one.
fn is_outdated(if_range: &Option<String>, current: &Validators) -> (out: bool)
    ensures
        out == outdated(wire::chars_in(*if_range), current@),
{
    match if_range {
        Some(header) => !if_range_matches(header.as_str(), current),
        None => false,
    }
}

/// Decide how a planned request is answered.
///
/// `If-Range` means: send the range if the entity is unchanged, otherwise the whole object. That
/// needs the current validators, so it is applied after planning, by planning again. `again` says
/// that this was the second time. A range that no longer fits an object which has changed is no
/// error either: it refers to the version that is gone.
pub fn after_plan(
    hostname: &str,
    lookup: &Lookup,
    planned: Result<Plan, OrchestratorError>,
    again: bool,
) -> (out: Next)
    requires
        planned matches Ok(p) ==> answerable(p),
        headers::is_valid_value(encode_utf8(hostname@)),
        planned is Ok ==> headers::is_valid_value(encode_utf8(lookup.service@)),
    ensures
        match planned {
            Err(OrchestratorError::Unsatisfiable { total_len, current }) if !again => if outdated(
                wire::chars_in(lookup.if_range),
                current@,
            ) {
                out is Replan
            } else {
                &&& out matches Next::Answer(r)
                &&& r.head.status == 416
                &&& r.head.headers@ == seq![
                    ("content-range"@, encode_utf8("bytes */"@ + text::decimal(total_len as nat))),
                    ("x-lancache-processed-by"@, encode_utf8(hostname@)),
                ]
                &&& r.body@.len() == 0
            },
            Err(e) => out == Next::Fail(e),
            Ok(plan) => if !again && outdated(
                wire::chars_in(lookup.if_range),
                orchestrator::marks_of(plan),
            ) {
                out is Replan
            } else if lookup.is_head || body_len(plan) == 0 {
                &&& out matches Next::Answer(r)
                &&& r.head.status == plan.status
                &&& r.head.headers@ == head_lines(hostname@, lookup.service@, plan)
                &&& r.body@.len() == 0
            } else {
                &&& out matches Next::Stream { head, plan: p }
                &&& head.status == plan.status
                &&& head.headers@ == head_lines(hostname@, lookup.service@, plan)
                &&& p == plan
            },
        },
{
    let plan = match planned {
        Ok(plan) => plan,
        Err(e) => {
            if !again {
                if let OrchestratorError::Unsatisfiable { total_len, current } = e {
                    if is_outdated(&lookup.if_range, &current) {
                        return Next::Replan;
                    }
                    proof {
                        lemma_names();
                    }
                    let mut headers = HeaderMap::new();
                    let mut value = "bytes */".to_owned();
                    value.append(text::decimal_string(total_len).as_str());
                    headers.append("content-range", value.as_str().as_bytes());
                    headers.append("x-lancache-processed-by", hostname.as_bytes());
                    assert(headers@ =~= seq![
                        (
                            "content-range"@,
                            encode_utf8("bytes */"@ + text::decimal(total_len as nat)),
                        ),
                        ("x-lancache-processed-by"@, encode_utf8(hostname@)),
                    ]);
                    return Next::Answer(
                        Reply { head: Head { status: 416, headers }, body: Vec::new() },
                    );
                }
            }
            return Next::Fail(e);
        },
    };
    if !again {
        let current = Validators::new(
            clone_text(&plan.meta.etag),
            clone_text(&plan.meta.last_modified),
        );
        if is_outdated(&lookup.if_range, &current) {
            return Next::Replan;
        }
    }
    let (head, len) = head_for(hostname, lookup.service.as_str(), &plan);
    if lookup.is_head || len == 0 {
        Next::Answer(Reply { head, body: Vec::new() })
    } else {
        Next::Stream { head, plan }
    }
}

/// The answer to a request that failed on its way.
pub fn bad_gateway(error: &OrchestratorError) -> (out: Reply)
    ensures
        out.says(502, "upstream error: "@ + error.message_spec() + "\n"@),
{
    let mut message = "upstream error: ".to_owned();
    message.append(error.message().as_str());
    message.append("\n");
    text(502, message.as_str())
}

/// The answer to a request that came in while draining. A connection that is kept alive must not
/// be able to extend the drain by sending request after request.
pub fn shutting_down() -> (out: Reply)
    ensures
        out.says(503, "cachic is shutting down\n"@),
{
    text(503, "cachic is shutting down\n")
}

/// A value of an answer as it is logged.
pub open spec fn logged(lines: Seq<headers::Line>, name: Seq<char>) -> Seq<char> {
    match headers::text_value(lines, name) {
        Some(v) => v,
        None => "-"@,
    }
}

/// How many bytes an answer says that it carries.
pub open spec fn logged_bytes(lines: Seq<headers::Line>) -> u64 {
    match headers::text_value(lines, "content-length"@) {
        Some(v) => match text::parsed_u64(v) {
            Some(n) => n,
            None => 0,
        },
        None => 0,
    }
}

fn text_or_dash(lines: &HeaderMap, name: &str) -> (out: String)
    ensures
        out@ == logged(lines@, name@),
{
    match lines.get_text(name) {
        Some(v) => v,
        None => "-".to_owned(),
    }
}

/// The access event of a request and its answer. Every answer has one, an error too: a cache whose
/// failures are invisible is worse than one with no log at all.
pub fn access_event(
    client_ip: String,
    request: &Request,
    head: &Head,
    nanos: u64,
    now: u64,
) -> (out: AccessEvent)
    ensures
        out.client_ip@ == client_ip@,
        out.service@ == logged(head.headers@, "x-cachic-service"@),
        out.host@ == request.host_spec(),
        out.method@ == request.method@,
        out.path@ == request.path@,
        wire::chars_in(out.range) == headers::text_value(request.headers@, "range"@),
        out.status == head.status,
        out.bytes == logged_bytes(head.headers@),
        out.cache_status@ == logged(head.headers@, "x-cache"@),
        out.upstream_nanos == nanos,
        wire::chars_in(out.user_agent) == headers::text_value(request.headers@, "user-agent"@),
        logs::is_timestamp(out.timestamp@, now),
{
    let bytes: u64 = match head.headers.get_text("content-length") {
        Some(v) => {
            let chars = text::chars_of(v.as_str());
            match text::parse_u64(chars.as_slice()) {
                Some(n) => n,
                None => 0,
            }
        },
        None => 0,
    };
    AccessEvent {
        client_ip,
        service: text_or_dash(&head.headers, "x-cachic-service"),
        host: request.host(),
        method: request.method.clone(),
        path: request.path.clone(),
        range: request.headers.get_text("range"),
        status: head.status,
        bytes,
        cache_status: text_or_dash(&head.headers, "x-cache"),
        upstream_nanos: nanos,
        user_agent: request.headers.get_text("user-agent"),
        timestamp: clf_timestamp(now),
    }
}

/// Remove the header that carries the service to the access log. A client has no business seeing
/// internal routing decisions.
pub fn strip_internal_headers(head: &mut Head)
    ensures
        final(head).status == old(head).status,
        final(head).headers@ == headers::lines_not_named(old(head).headers@, "x-cachic-service"@),
{
    head.headers.remove("x-cachic-service");
}

/// Nothing is served for a host that no service lists, whatever is configured, and nothing but
/// reads are.
pub proof fn only_listed_hosts_are_served(
    table: matcher::Table,
    compiled: Map<Seq<char>, CompiledRule>,
    rules: Rules,
    passthrough: bool,
    method: Seq<char>,
    host: Seq<char>,
    path: Seq<char>,
)
    ensures
        verdict(table, compiled, rules, passthrough, method, host, path) is Cached ==> {
            &&& is_read(method)
            &&& service_of(table, host) is Some
            &&& kept(compiled, rules, service_of(table, host)->0, path)
        },
{
}

/// A client that holds part of a version which is gone gets the whole of the current one, whatever
/// range it asks for: planned again without a range, every object can be sent, from its first byte
/// to its last.
pub proof fn replanned_objects_are_sent_whole(total_len: u64)
    ensures
        orchestrator::wanted_bytes(None, total_len) matches Some(wanted) && wanted.start == 0 && (
        total_len > 0 ==> wanted.end == total_len - 1),
{
}

/// No client ever sees which service answered it, whatever the origin sent.
pub proof fn internal_headers_never_leave(lines: Seq<headers::Line>, line: headers::Line)
    requires
        headers::lines_not_named(lines, "x-cachic-service"@).contains(line),
    ensures
        line.0 != "x-cachic-service"@,
        lines.contains(line),
{
    lemma_names();
    let keep = |l: headers::Line| l.0 != text::lowered("x-cachic-service"@);
    lines.lemma_filter_contains_rev(keep, line);
    let i = choose|i: int|
        0 <= i < lines.filter(keep).len() && lines.filter(keep)[i] == line;
    lines.lemma_filter_pred(keep, i);
}

proof fn lemma_decimal_is_text(n: nat)
    ensures
        headers::is_text(encode_utf8(text::decimal(n))),
        headers::ascii_chars(encode_utf8(text::decimal(n))) == text::decimal(n),
{
    text::lemma_decimal_reads_back(n);
    let d = text::decimal(n);
    assert forall|i: int| 0 <= i < d.len() implies 48 <= #[trigger] d[i] as int <= 57 by {
        assert(text::is_digit(d[i]));
    }
    assert(is_ascii_chars(d));
    is_ascii_chars_encode_utf8(d);
    assert(headers::ascii_chars(encode_utf8(d)) =~= d);
}

/// An answer declares exactly as many bytes as the windows of its slices hold, and these are the
/// bytes of the object that were asked for.
pub proof fn answers_carry_the_declared_bytes(
    object: Seq<u8>,
    slice_size: u32,
    hostname: Seq<char>,
    service: Seq<char>,
    plan: Plan,
)
    requires
        slice_size > 0,
        plan.total_len == object.len(),
        object.len() > 0,
        answerable(plan),
        plan.wanted.end as int / slice_size as int <= u32::MAX,
    ensures
        ({
            let span = range::planned(plan.wanted, slice_size);
            let sent = range::joined_windows(
                object,
                slice_size as int,
                plan.wanted,
                span.first as int,
                span.last + 1,
            );
            &&& sent == object.subrange(plan.wanted.start as int, plan.wanted.end + 1)
            &&& logged_bytes(head_lines(hostname, service, plan)) == sent.len()
        }),
{
    range::windows_tile_the_range(object, slice_size, plan.wanted);
    let len = body_len(plan) as nat;
    let lines = head_lines(hostname, service, plan);
    lemma_names();
    let keep = |l: headers::Line| l.0 == text::lowered("content-length"@);
    let first = seq![lines[0]];
    let rest = lines.skip(1);
    assert(lines =~= first + rest);
    reveal(Seq::filter);
    assert(first.drop_last() =~= Seq::empty());
    assert(first.filter(keep) =~= first);
    headers::lemma_filter_first(first, rest, keep);
    lemma_decimal_is_text(len);
    text::lemma_decimal_reads_back(len);
    assert(headers::text_value(lines, "content-length"@) == Some(text::decimal(len)));
    assert(text::decimal(len)[0] != '+') by {
        assert(text::is_digit(text::decimal(len)[0]));
    }
}

/// The heartbeat is answered whoever asks and however. Of the rest, only reads are served, only for
/// hosts that a service lists, and only where the rule of that service keeps the path: the rule
/// that was compiled for it or, where it came later, the one that the rules have for it. What that
/// rule says about hosts, queries and schemes holds for the answer.
pub proof fn requests_are_served_by_the_rule_of_their_service(
    table: matcher::Table,
    compiled: Map<Seq<char>, CompiledRule>,
    rules: Rules,
    passthrough: bool,
    method: Seq<char>,
    host: Seq<char>,
    path: Seq<char>,
)
    ensures
        ({
            let v = verdict(table, compiled, rules, passthrough, method, host, path);
            let found = matcher::service_index(table, matcher::normalised_host(host));
            if path == "/lancache-heartbeat"@ {
                v is Heartbeat
            } else if method != "GET"@ && method != "HEAD"@ {
                v matches Verdict::Refused { status, .. } && status == 405
            } else if found is None {
                v matches Verdict::Refused { status, .. } && status == if passthrough {
                    501u16
                } else {
                    404u16
                }
            } else {
                let name = table.names[found->0 as int];
                let rule = rules.rule_for(name);
                if compiled.contains_key(name) {
                    if compiled[name].caches(path) {
                        v == (Verdict::Cached {
                            service: name,
                            keep_query: compiled[name].keep_query,
                            include_host: compiled[name].include_host,
                            https: compiled[name].upstream_https,
                        })
                    } else {
                        v matches Verdict::Refused { status, .. } && status == 501
                    }
                } else if key::compile_fault(rule) is Some {
                    v == (Verdict::Cached {
                        service: name,
                        keep_query: false,
                        include_host: false,
                        https: false,
                    })
                } else if key::rule_keeps(rule, path) {
                    v == (Verdict::Cached {
                        service: name,
                        keep_query: rule.keep_query,
                        include_host: rule.include_host,
                        https: rule.upstream_https,
                    })
                } else {
                    v matches Verdict::Refused { status, .. } && status == 501
                }
            }
        }),
{
}

/// A host that a service lists exactly is served for that service: the last one that lists it.
pub proof fn listed_hosts_are_served_for_their_service(
    list: Seq<crate::services::domains::Listed>,
    i: int,
    header: Seq<char>,
)
    requires
        list.len() <= usize::MAX,
        0 <= i < list.len(),
        matcher::normalised_host(header).len() > 0,
        list[i].patterns.contains(
            crate::services::domains::Host::Exact(matcher::normalised_host(header)),
        ),
        forall|k: int|
            i < k < list.len() ==> !(#[trigger] list[k]).patterns.contains(
                crate::services::domains::Host::Exact(matcher::normalised_host(header)),
            ),
    ensures
        service_of(matcher::table_of(list), header) == Some(list[i].name),
{
    let host = matcher::normalised_host(header);
    matcher::the_last_service_that_lists_a_pattern_has_it(
        list,
        crate::services::domains::Host::Exact(host),
        i,
    );
    matcher::exact_hosts_beat_wildcards(matcher::table_of(list), host);
    matcher::tables_count_what_is_listed(list);
    assert(list.map_values(|s: crate::services::domains::Listed| s.name)[i] == list[i].name);
}

/// An address is made of its scheme, its host and its target: what stands before the first colon is
/// the scheme, and behind two slashes follow the host and the target as they were asked for.
pub proof fn addresses_name_scheme_host_and_target(
    https: bool,
    host: Seq<char>,
    target: Seq<char>,
)
    ensures
        ({
            let url = url_of(https, host, target);
            let scheme = if https {
                seq!['h', 't', 't', 'p', 's']
            } else {
                seq!['h', 't', 't', 'p']
            };
            text::split_at_first(url, ':') == Some((scheme, seq!['/', '/'] + host + target))
        }),
{
    reveal_strlit("https");
    reveal_strlit("http");
    reveal_strlit("://");
    let url = url_of(https, host, target);
    let scheme = if https {
        seq!['h', 't', 't', 'p', 's']
    } else {
        seq!['h', 't', 't', 'p']
    };
    let rest = seq!['/', '/'] + host + target;
    assert("https"@ =~= seq!['h', 't', 't', 'p', 's']);
    assert("http"@ =~= seq!['h', 't', 't', 'p']);
    assert("://"@ =~= seq![':', '/', '/']);
    assert(url =~= scheme + seq![':'] + rest);
    text::texts_part_at_every_separator(scheme, ':', rest);
}

/// The `Content-Range` of an answer says which bytes it carries and of how many: written behind
/// `bytes=` the first part asks for these bytes, and the length behind the slash is that of the
/// whole.
pub proof fn content_ranges_read_back(wanted: range::ByteRange, total_len: u64)
    requires
        wanted.start <= wanted.end,
    ensures
        ({
            let value = content_range(wanted, total_len);
            &&& value.len() > 6 && value.take(6) == "bytes "@
            &&& text::split_at_first(value.skip(6), '/') matches Some((asked, total))
            &&& range::range_spec("bytes="@ + asked) == Ok::<range::RangeSpec, range::RangeError>(
                range::RangeSpec::FromTo(wanted.start, wanted.end),
            )
            &&& text::parsed_u64(total) == Some(total_len)
            &&& crate::upstream::client::total_in(value) == Some(total_len)
        }),
{
    reveal_strlit("bytes ");
    reveal_strlit("-");
    reveal_strlit("/");
    let a = text::decimal(wanted.start as nat);
    let b = text::decimal(wanted.end as nat);
    let t = text::decimal(total_len as nat);
    let asked = a + seq!['-'] + b;
    let value = content_range(wanted, total_len);
    assert("-"@ =~= seq!['-']);
    assert("/"@ =~= seq!['/']);
    assert(value =~= "bytes "@ + asked + seq!['/'] + t);
    assert(value.take(6) =~= "bytes "@);
    assert(value.skip(6) =~= asked + seq!['/'] + t);
    text::lemma_decimal_reads_back(wanted.start as nat);
    text::lemma_decimal_reads_back(wanted.end as nat);
    assert forall|i: int| 0 <= i < asked.len() implies #[trigger] asked[i] != '/' by {
        if i < a.len() {
            assert(text::is_digit(a[i]));
        } else if i > a.len() {
            assert(text::is_digit(b[i - a.len() - 1]));
        }
    }
    text::texts_part_at_every_separator(asked, '/', t);
    text::numbers_are_written_in_decimal(total_len as nat, 0);
    range::written_ranges_are_read(wanted.start, wanted.end);
    let none = Seq::<char>::empty();
    crate::upstream::client::lengths_stand_behind_the_last_slash(
        "bytes "@ + asked,
        none,
        total_len,
        none,
        none,
    );
    assert(none + t + none =~= t);
}

/// The head of an answer from the cache holds these lines and no others: how many bytes follow, that
/// ranges may be asked for, how the answer was come by, who answers and for which service; which
/// bytes they are, where they are not the whole; and what describes the object, as far as it is
/// known and can be written.
pub proof fn heads_describe_what_they_answer_with(
    hostname: Seq<char>,
    service: Seq<char>,
    plan: Plan,
    name: Seq<char>,
    value: Seq<u8>,
)
    requires
        answerable(plan),
    ensures
        head_lines(hostname, service, plan).contains((name, value)) <==> {
            ||| name == "content-length"@ && value == encode_utf8(
                text::decimal(
                    if plan.total_len == 0 {
                        0
                    } else {
                        (plan.wanted.end - plan.wanted.start + 1) as nat
                    },
                ),
            )
            ||| name == "accept-ranges"@ && value == encode_utf8("bytes"@)
            ||| name == "x-cache"@ && value == encode_utf8(
                match plan.cache_status {
                    headers::CacheStatus::Hit => "HIT"@,
                    headers::CacheStatus::Miss => "MISS"@,
                    headers::CacheStatus::Partial => "PARTIAL"@,
                    headers::CacheStatus::Bypass => "BYPASS"@,
                },
            )
            ||| name == "x-lancache-processed-by"@ && value == encode_utf8(hostname)
            ||| name == "x-cachic-service"@ && value == encode_utf8(service)
            ||| plan.partial && plan.total_len > 0 && name == "content-range"@ && value
                == encode_utf8(content_range(plan.wanted, plan.total_len))
            ||| name == "content-type"@ && carries(plan.meta.content_type, value)
            ||| name == "etag"@ && carries(plan.meta.etag, value)
            ||| name == "last-modified"@ && carries(plan.meta.last_modified, value)
        },
{
    let first = first_lines(hostname, service, plan);
    let ranged = range_lines(plan);
    let kind = line_for("content-type"@, wire::chars_in(plan.meta.content_type));
    let tag = line_for("etag"@, wire::chars_in(plan.meta.etag));
    let date = line_for("last-modified"@, wire::chars_in(plan.meta.last_modified));
    let line: headers::Line = (name, value);
    lemma_either(first + ranged + kind + tag, date, line);
    lemma_either(first + ranged + kind, tag, line);
    lemma_either(first + ranged, kind, line);
    lemma_either(first, ranged, line);
    lemma_line_for("content-type"@, plan.meta.content_type, line);
    lemma_line_for("etag"@, plan.meta.etag, line);
    lemma_line_for("last-modified"@, plan.meta.last_modified, line);
    if plan.partial && plan.total_len > 0 {
        assert(ranged[0] == ranged[0]);
    }
    assert(first[0] == first[0] && first[1] == first[1] && first[2] == first[2] && first[3]
        == first[3] && first[4] == first[4]);
}

/// Whether a value is there, can stand in a header, and is this one.
pub open spec fn carries(text: Option<String>, value: Seq<u8>) -> bool {
    &&& text matches Some(t) && value == encode_utf8(t@)
    &&& forall|i: int|
        0 <= i < value.len() ==> (#[trigger] value[i] >= 0x20 && value[i] != 0x7f) || value[i]
            == 0x09
}

proof fn lemma_line_for(name: Seq<char>, text: Option<String>, line: headers::Line)
    ensures
        line_for(name, wire::chars_in(text)).contains(line) <==> line.0 == name && carries(
            text,
            line.1,
        ),
{
    let lines = line_for(name, wire::chars_in(text));
    if let Some(t) = text {
        let v = encode_utf8(t@);
        assert(headers::is_valid_value(v) <==> (forall|i: int|
            0 <= i < v.len() ==> (#[trigger] v[i] >= 0x20 && v[i] != 0x7f) || v[i] == 0x09));
        if headers::is_valid_value(v) {
            assert(lines[0] == (name, v));
        }
    }
}

proof fn lemma_either(a: Seq<headers::Line>, b: Seq<headers::Line>, line: headers::Line)
    ensures
        (a + b).contains(line) <==> a.contains(line) || b.contains(line),
{
    let all = a + b;
    if all.contains(line) {
        let k = choose|k: int| 0 <= k < all.len() && all[k] == line;
        if k < a.len() {
            assert(a[k] == line);
        } else {
            assert(b[k - a.len()] == line);
        }
    }
    if a.contains(line) {
        let k = choose|k: int| 0 <= k < a.len() && a[k] == line;
        assert(all[k] == line);
    }
    if b.contains(line) {
        let k = choose|k: int| 0 <= k < b.len() && b[k] == line;
        assert(all[a.len() + k] == line);
    }
}

/// What is logged of an answer is what its head says: the first value under a name, or a dash where
/// there is none, and the number of bytes, or zero where none is given.
pub proof fn logs_say_what_the_head_says(
    before: Seq<headers::Line>,
    n: u64,
    after: Seq<headers::Line>,
    name: Seq<char>,
)
    requires
        forall|i: int| 0 <= i < before.len() ==> (#[trigger] before[i]).0 != "content-length"@,
        forall|i: int| 0 <= i < before.len() ==> (#[trigger] before[i]).0 != text::lowered(name),
    ensures
        logged_bytes(
            before + seq![("content-length"@, encode_utf8(text::decimal(n as nat)))] + after,
        ) == n,
        logged_bytes(before) == 0,
        logged(before, name) == "-"@,
        logged(
            before + seq![(text::lowered(name), encode_utf8(text::decimal(n as nat)))] + after,
            name,
        ) == text::decimal(n as nat),
{
    lemma_names();
    lemma_decimal_is_text(n as nat);
    let value = encode_utf8(text::decimal(n as nat));
    assert forall|i: int| 0 <= i < before.len() implies (#[trigger] before[i]).0 != text::lowered(
        "content-length"@,
    ) by {}
    headers::values_are_those_of_the_first_line(before, value, after, "content-length"@);
    headers::values_are_those_of_the_first_line(before, value, after, name);
    text::numbers_are_written_in_decimal(n as nat, 0);
    let d = text::decimal(n as nat);
    assert(headers::is_text(value));
    let a = headers::text_value(
        before + seq![(text::lowered("content-length"@), value)] + after,
        "content-length"@,
    )->0;
    let b = headers::text_value(before + seq![(text::lowered(name), value)] + after, name)->0;
    assert forall|i: int| 0 <= i < d.len() implies d[i] as int == #[trigger] value[i] by {
        assert(headers::ascii_chars(value)[i] == d[i]);
    }
    assert(value.len() == d.len());
    assert(a =~= d);
    assert(b =~= d);
}

/// A client is told to start over exactly where it holds a version by name and that is not the
/// current one.
pub proof fn only_named_versions_can_be_outdated(
    header: Seq<char>,
    current: validators::Marks,
)
    ensures
        !outdated(None, current),
        outdated(Some(header), current) <==> !validators::if_range_agrees(header, current),
{
}

/// A request that is looked up is looked up for what it asks: under the key of its host and target,
/// at the address of these, with the headers that go on, the range and the version that it names,
/// and only for its head where it is a `HEAD`.
pub proof fn lookups_carry_the_request(
    route: Route,
    request: Request,
    hostname: Seq<char>,
    service: Seq<char>,
    keep_query: bool,
    include_host: bool,
    https: bool,
)
    requires
        follows(
            route,
            Verdict::Cached { service, keep_query, include_host, https },
            request,
            hostname,
        ),
    ensures
        ({
            let host = match headers::text_value(request.headers@, "host"@) {
                Some(h) => h,
                None => Seq::empty(),
            };
            let target = match request.path_and_query {
                Some(t) => t@,
                None => seq!['/'],
            };
            &&& route matches Route::Lookup(l)
            &&& l.service@ == service && l.key.service@ == service
            &&& l.key.key@ == key::key_of(host, target, include_host, keep_query)
            &&& l.url@ == url_of(https, host, target)
            &&& l.forwarded@ == headers::forwarded_lines(request.headers@)
            &&& wire::chars_in(l.range) == headers::text_value(request.headers@, "range"@)
            &&& wire::chars_in(l.if_range) == headers::text_value(request.headers@, "if-range"@)
            &&& l.is_head <==> request.method@ == "HEAD"@
        }),
{
    reveal_strlit("/");
    assert("/"@ =~= seq!['/']);
}

/// A request that is turned away gets the status and the message, and the heartbeat no content.
pub proof fn refusals_say_why(
    route: Route,
    request: Request,
    hostname: Seq<char>,
    status: u16,
    message: Seq<char>,
)
    ensures
        follows(route, Verdict::Refused { status, message }, request, hostname) ==> (
        route matches Route::Answer(r) && r.head.status == status && r.body@ == encode_utf8(message)
            && r.head.headers@ == seq![
            ("content-type"@, encode_utf8("text/plain; charset=utf-8"@)),
        ]),
        follows(route, Verdict::Heartbeat, request, hostname) ==> (route matches Route::Answer(r)
            && r.head.status == 204 && r.body@.len() == 0 && r.head.headers@
            == heartbeat::heartbeat_lines(encode_utf8(hostname))),
{
}

} // verus!
