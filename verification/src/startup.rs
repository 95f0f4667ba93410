//! What is settled when the process starts, and how it ends.
//!
//! A misconfiguration is a startup error, not a surprise an hour later.
use crate::admin::api::ServiceInfo;
use crate::config;
use crate::config::guard;
use crate::config::guard::{check, GuardAction};
use crate::config::rules;
use crate::config::rules::Rules;
use crate::config::Config;
use crate::services::domains::DomainList;
use crate::services::key;
use crate::services::key::{CompileError, CompiledRule};
use crate::text;
use crate::upstream::client::ServiceLimit;
use vstd::hash_map::StringHashMap;
use vstd::prelude::*;
use vstd::string::*;

verus! {

/// The configuration is wrong, and restarting will not help.
pub const EXIT_CONFIG: u8 = 78;

/// A resource that is needed is not available.
pub const EXIT_UNAVAILABLE: u8 = 69;

/// How many client connections may be open at once.
pub const MAX_CLIENT_CONNECTIONS: u64 = 10_000;

/// How long to wait for in-flight requests before exiting anyway, in seconds. Shorter than the time
/// that a process is usually given, so that it exits on its own terms.
pub const DRAIN_TIMEOUT: u64 = 20;

/// Why the process cannot run.
#[derive(Debug, PartialEq, Eq)]
pub enum Fatal {
    Config(String),
    Unavailable(String),
}

impl Fatal {
    pub open spec fn report_spec(self) -> Seq<char> {
        match self {
            Fatal::Config(message) => "configuration error: "@ + message@,
            Fatal::Unavailable(message) => "startup failed: "@ + message@,
        }
    }

    /// What is printed last.
    pub fn report(&self) -> (out: String)
        ensures
            out@ == self.report_spec(),
    {
        match self {
            Fatal::Config(message) => {
                let mut out = "configuration error: ".to_owned();
                out.append(message.as_str());
                out
            },
            Fatal::Unavailable(message) => {
                let mut out = "startup failed: ".to_owned();
                out.append(message.as_str());
                out
            },
        }
    }

    pub fn exit_code(&self) -> (out: u8)
        ensures
            out == (match self {
                Fatal::Config(_) => EXIT_CONFIG,
                Fatal::Unavailable(_) => EXIT_UNAVAILABLE,
            }),
    {
        match self {
            Fatal::Config(_) => EXIT_CONFIG,
            Fatal::Unavailable(_) => EXIT_UNAVAILABLE,
        }
    }
}

/// An error with what caused it, outermost first.
pub open spec fn chained(message: Seq<char>, causes: Seq<Seq<char>>) -> Seq<char>
    decreases causes.len(),
{
    if causes.len() == 0 {
        message
    } else {
        chained(message, causes.drop_last()) + "\n  caused by: "@ + causes.last()
    }
}

/// An error with what caused it, outermost first, one to a line.
pub fn chain(message: &str, causes: &Vec<String>) -> (out: String)
    ensures
        out@ == chained(message@, text::texts(causes@)),
{
    let mut out = message.to_owned();
    let n: usize = causes.len();
    let ghost all = text::texts(causes@);
    assert(all.take(0) =~= Seq::empty());
    for i in 0..n
        invariant
            n == causes@.len(),
            all == text::texts(causes@),
            out@ == chained(message@, all.take(i as int)),
    {
        assert(all.take(i + 1).drop_last() =~= all.take(i as int));
        assert(all.take(i + 1).last() == causes@[i as int]@);
        out.append("\n  caused by: ");
        out.append(causes[i].as_str());
    }
    assert(all.take(n as int) =~= all);
    out
}

/// Check the configuration, and the cache directory against it: `existing` is what its guard file,
/// found at `path`, holds.
pub fn prepare(config: &Config, existing: Option<&str>, path: &str) -> (out: Result<
    GuardAction,
    Fatal,
>)
    ensures
        match config::fault(*config) {
            Some(f) => out matches Err(Fatal::Config(m)) && m@ == config::fault_text(f),
            None => {
                let configured = config.stored_spec();
                match existing {
                    None => out matches Ok(GuardAction::Write(t)) && t@ == guard::rendered(
                        configured,
                    ),
                    Some(s) => match guard::parsed(s@) {
                        Err((line, why)) => out matches Err(Fatal::Config(m)) && m@ == path@
                            + " is malformed at line "@ + text::decimal(line as nat) + ": "@ + why,
                        Ok(found) => if found == configured {
                            out == Ok::<GuardAction, Fatal>(GuardAction::Keep)
                        } else if config.force_config {
                            out matches Ok(GuardAction::Write(t)) && t@ == guard::rendered(
                                configured,
                            )
                        } else {
                            out matches Err(Fatal::Config(m)) && m@ == guard::mismatch_text(
                                guard::described(found),
                                guard::described(configured),
                            )
                        },
                    },
                }
            },
        },
{
    match config.validate() {
        Ok(()) => {},
        Err(e) => return Err(Fatal::Config(e.message())),
    }
    match check(existing, path, &config.stored(), config.force_config) {
        Ok(action) => Ok(action),
        Err(e) => Err(Fatal::Config(e.message())),
    }
}

/// The name that is reported to clients: what the environment says, or what the machine calls
/// itself, or a fallback. An empty name is none.
pub open spec fn host_name(variable: Option<Seq<char>>, file: Option<Seq<char>>) -> Seq<char> {
    if variable is Some && variable->0.len() > 0 {
        variable->0
    } else if file is Some && text::trimmed(file->0).len() > 0 {
        text::trimmed(file->0)
    } else {
        "cachic"@
    }
}

pub open spec fn str_in(s: Option<&str>) -> Option<Seq<char>> {
    match s {
        Some(v) => Some(v@),
        None => None,
    }
}

pub fn hostname(variable: Option<&str>, file: Option<&str>) -> (out: String)
    ensures
        out@ == host_name(str_in(variable), str_in(file)),
{
    if let Some(name) = variable {
        if !name.is_empty() {
            return name.to_owned();
        }
    }
    if let Some(name) = file {
        let chars = text::chars_of(name);
        let trimmed = text::trim(chars.as_slice());
        if trimmed.len() > 0 {
            return text::string_of(trimmed);
        }
    }
    "cachic".to_owned()
}

/// The ceilings that rules set.
pub open spec fn limits_of(services: Seq<rules::NamedRule>) -> Seq<(Seq<char>, usize)>
    decreases services.len(),
{
    if services.len() == 0 {
        Seq::empty()
    } else {
        let front = limits_of(services.drop_last());
        match services.last().rule.max_inflight {
            Some(limit) => front.push((services.last().service@, limit)),
            None => front,
        }
    }
}

pub open spec fn limits_view(limits: Seq<ServiceLimit>) -> Seq<(Seq<char>, usize)> {
    limits.map_values(|l: ServiceLimit| (l.service@, l.limit))
}

/// The ceilings on concurrent fetches, by service. A service without one is bounded only by the
/// global limit.
pub fn per_service_inflight(rules: &Rules) -> (out: Vec<ServiceLimit>)
    ensures
        limits_view(out@) == limits_of(rules.services@),
{
    let mut out: Vec<ServiceLimit> = Vec::new();
    let n: usize = rules.services.len();
    let ghost all = rules.services@;
    assert(all.take(0) =~= Seq::empty());
    assert(limits_view(out@) =~= Seq::empty());
    for i in 0..n
        invariant
            n == rules.services@.len(),
            all == rules.services@,
            limits_view(out@) == limits_of(all.take(i as int)),
    {
        let entry = &rules.services[i];
        assert(all.take(i + 1).drop_last() =~= all.take(i as int));
        if let Some(limit) = entry.rule.max_inflight {
            let ghost before = limits_view(out@);
            out.push(ServiceLimit { service: entry.service.clone(), limit });
            assert(limits_view(out@) =~= before.push((entry.service@, limit)));
        }
    }
    assert(all.take(n as int) =~= all);
    out
}

/// The services as the admin API lists them.
pub fn service_infos(list: &DomainList) -> (out: Vec<ServiceInfo>)
    ensures
        out@.len() == list@.len(),
        forall|i: int|
            0 <= i < out@.len() ==> (#[trigger] out@[i]).name@ == list@[i].name && out@[i].patterns
                == list@[i].patterns.len(),
{
    let mut out: Vec<ServiceInfo> = Vec::new();
    let n: usize = list.services.len();
    for i in 0..n
        invariant
            n == list.services@.len(),
            out@.len() == i,
            forall|j: int|
                0 <= j < i ==> (#[trigger] out@[j]).name@ == list@[j].name && out@[j].patterns
                    == list@[j].patterns.len(),
    {
        let service = &list.services[i];
        assert(list@[i as int] == service@);
        out.push(ServiceInfo { name: service.name.clone(), patterns: service.patterns.len() });
    }
    out
}

/// Whether every one of some services has its rule compiled, and nothing else has.
pub open spec fn compiled_for(
    compiled: Map<Seq<char>, CompiledRule>,
    names: Seq<Seq<char>>,
    rules: Rules,
) -> bool {
    &&& forall|name: Seq<char>| #[trigger] compiled.contains_key(name) <==> names.contains(name)
    &&& forall|name: Seq<char>| #[trigger]
        compiled.contains_key(name) ==> compiled[name].compiles(rules.rule_for(name))
}

/// The names of the listed services.
pub open spec fn names_in(list: DomainList) -> Seq<Seq<char>> {
    list@.map_values(|s: crate::services::domains::Listed| s.name)
}

/// The first service whose rule cannot be compiled.
pub open spec fn first_bad(names: Seq<Seq<char>>, rules: Rules) -> Option<Seq<char>>
    decreases names.len(),
{
    if names.len() == 0 {
        None
    } else {
        match first_bad(names.drop_last(), rules) {
            Some(name) => Some(name),
            None => if key::compile_fault(rules.rule_for(names.last())) is Some {
                Some(names.last())
            } else {
                None
            },
        }
    }
}

proof fn lemma_first_bad(names: Seq<Seq<char>>, rules: Rules, k: int)
    requires
        0 <= k <= names.len(),
        first_bad(names.take(k), rules) is Some,
    ensures
        first_bad(names, rules) == first_bad(names.take(k), rules),
    decreases names.len() - k,
{
    if k < names.len() {
        assert(names.take(k + 1).drop_last() =~= names.take(k));
        lemma_first_bad(names, rules, k + 1);
    } else {
        assert(names.take(k) =~= names);
    }
}

/// Compile the rules of all listed services, once, rather than per request.
pub fn compile_rules(list: &DomainList, rules: &Rules) -> (out: Result<
    StringHashMap<CompiledRule>,
    CompileError,
>)
    ensures
        match first_bad(names_in(*list), *rules) {
            None => out matches Ok(map) && compiled_for(map@, names_in(*list), *rules),
            Some(name) => {
                &&& out matches Err(e)
                &&& e.service@ == name
                &&& key::compile_fault(rules.rule_for(name)) == Some(
                    (e.field@, e.pattern@, e.source@),
                )
            },
        },
{
    let mut out: StringHashMap<CompiledRule> = StringHashMap::new();
    let n: usize = list.services.len();
    let ghost names = names_in(*list);
    assert(names.take(0) =~= Seq::empty());
    for i in 0..n
        invariant
            n == list.services@.len(),
            names == names_in(*list),
            first_bad(names.take(i as int), *rules) is None,
            compiled_for(out@, names.take(i as int), *rules),
    {
        let service = &list.services[i];
        let ghost front = names.take(i as int);
        assert(list@[i as int] == service@);
        assert(names.take(i + 1) =~= front.push(service.name@));
        assert(names.take(i + 1).drop_last() =~= front);
        let rule = rules.for_service(service.name.as_str());
        match CompiledRule::compile(service.name.as_str(), rule) {
            Ok(compiled) => {
                out.insert(service.name.clone(), compiled);
                proof {
                    let more = front.push(service.name@);
                    assert forall|name: Seq<char>| #[trigger]
                        out@.contains_key(name) <==> more.contains(name) by {
                        if front.contains(name) {
                            let j = choose|j: int| 0 <= j < front.len() && front[j] == name;
                            assert(more[j] == name);
                        }
                        if name == service.name@ {
                            assert(more[i as int] == name);
                        }
                        if more.contains(name) && name != service.name@ {
                            let j = choose|j: int| 0 <= j < more.len() && more[j] == name;
                            assert(front[j] == name);
                        }
                    }
                }
            },
            Err(e) => {
                proof {
                    lemma_first_bad(names, *rules, i + 1);
                }
                return Err(e);
            },
        }
    }
    assert(names.take(n as int) =~= names);
    Ok(out)
}

/// A port that is listened on.
#[derive(Debug, Clone, Copy, PartialEq, Eq, Structural)]
pub enum Listener {
    Admin,
    Http,
    Https,
}

pub open spec fn listener_name(listener: Listener) -> Seq<char> {
    match listener {
        Listener::Admin => "admin"@,
        Listener::Http => "HTTP"@,
        Listener::Https => "HTTPS"@,
    }
}

/// What to do about a port that may not be bound.
pub open spec fn bind_hint(listener: Listener, denied: bool) -> Seq<char> {
    if !denied {
        ""@
    } else {
        match listener {
            Listener::Admin => ""@,
            Listener::Http =>
            "\n  Ports below 1024 need CAP_NET_BIND_SERVICE when running as a non-root user."@,
            Listener::Https =>
            "\n  Ports below 1024 need CAP_NET_BIND_SERVICE when running as a non-root user. The container image and the Helm chart grant it; a bare binary needs `setcap cap_net_bind_service=+ep`, a port mapping, or HTTPS_PORT set higher."@,
        }
    }
}

/// A port could not be bound; `denied` says that it was for want of permission.
pub fn bind_failed(listener: Listener, addr: &str, error: &str, denied: bool) -> (out: Fatal)
    ensures
        out matches Fatal::Unavailable(m) && m@ == "cannot bind the "@ + listener_name(listener)
            + " port "@ + addr@ + ": "@ + error@ + bind_hint(listener, denied),
{
    let mut out = "cannot bind the ".to_owned();
    out.append(
        match listener {
            Listener::Admin => "admin",
            Listener::Http => "HTTP",
            Listener::Https => "HTTPS",
        },
    );
    out.append(" port ");
    out.append(addr);
    out.append(": ");
    out.append(error);
    out.append(
        if !denied {
            ""
        } else {
            match listener {
                Listener::Admin => "",
                Listener::Http =>
                "\n  Ports below 1024 need CAP_NET_BIND_SERVICE when running as a non-root user.",
                Listener::Https =>
                "\n  Ports below 1024 need CAP_NET_BIND_SERVICE when running as a non-root user. The container image and the Helm chart grant it; a bare binary needs `setcap cap_net_bind_service=+ep`, a port mapping, or HTTPS_PORT set higher.",
            }
        },
    );
    Fatal::Unavailable(out)
}

/// What caused an error is told behind it, in order, each on a line of its own.
pub proof fn causes_are_told_in_order(
    message: Seq<char>,
    a: Seq<Seq<char>>,
    b: Seq<Seq<char>>,
    cause: Seq<char>,
)
    ensures
        chained(message, Seq::empty()) == message,
        chained(message, seq![cause]) == message + seq!['\n'] + "  caused by: "@ + cause,
        chained(message, a + b) == chained(chained(message, a), b),
    decreases b.len(),
{
    reveal_strlit("\n  caused by: ");
    reveal_strlit("  caused by: ");
    assert(seq![cause].drop_last() =~= Seq::empty());
    assert(seq![cause].last() == cause);
    assert(chained(message, Seq::empty()) == message);
    assert("\n  caused by: "@ =~= seq!['\n'] + "  caused by: "@);
    assert(message + "\n  caused by: "@ + cause =~= message + seq!['\n'] + "  caused by: "@ + cause);
    if b.len() > 0 {
        causes_are_told_in_order(message, a, b.drop_last(), cause);
        assert((a + b).drop_last() =~= a + b.drop_last());
        assert((a + b).last() == b.last());
    } else {
        assert(a + b =~= a);
    }
}

/// The name of the host is the one in the environment, unless that is empty; then the one that the
/// machine has, without the white space around it; and where there is none either, a fixed one.
pub proof fn hosts_have_a_name(
    variable: Seq<char>,
    before: Seq<char>,
    name: Seq<char>,
    after: Seq<char>,
    file: Option<Seq<char>>,
)
    requires
        forall|i: int| 0 <= i < before.len() ==> text::is_space(#[trigger] before[i]),
        forall|i: int| 0 <= i < after.len() ==> text::is_space(#[trigger] after[i]),
        name.len() > 0 ==> !text::is_space(name[0]) && !text::is_space(name.last()),
    ensures
        variable.len() > 0 ==> host_name(Some(variable), file) == variable,
        host_name(Some(Seq::empty()), file) == host_name(None, file),
        host_name(None, Some(before + name + after)) == if name.len() > 0 {
            name
        } else {
            "cachic"@
        },
        host_name(None, None) == "cachic"@,
{
    text::trimming_takes_the_white_space_around(before, name, after);
}

/// The ceilings are those of the rules that set one, in order.
pub proof fn ceilings_are_those_that_are_set(
    a: Seq<rules::NamedRule>,
    b: Seq<rules::NamedRule>,
    entry: rules::NamedRule,
)
    ensures
        limits_of(a + b) == limits_of(a) + limits_of(b),
        entry.rule.max_inflight is None ==> limits_of(seq![entry]) == Seq::<
            (Seq<char>, usize),
        >::empty(),
        entry.rule.max_inflight matches Some(limit) ==> limits_of(seq![entry]) == seq![
            (entry.service@, limit),
        ],
    decreases b.len(),
{
    let none = Seq::<(Seq<char>, usize)>::empty();
    assert(seq![entry].drop_last() =~= Seq::empty());
    assert(seq![entry].last() == entry);
    assert(limits_of(Seq::empty()) =~= none);
    if let Some(limit) = entry.rule.max_inflight {
        assert(none.push((entry.service@, limit)) =~= seq![(entry.service@, limit)]);
    }
    if b.len() > 0 {
        ceilings_are_those_that_are_set(a, b.drop_last(), entry);
        assert((a + b).drop_last() =~= a + b.drop_last());
        assert((a + b).last() == b.last());
        assert(limits_of(a + b) =~= limits_of(a) + limits_of(b));
    } else {
        assert(a + b =~= a);
        assert(limits_of(a) + limits_of(b) =~= limits_of(a));
    }
}

/// The first service whose rule cannot be compiled is the one that is reported.
pub proof fn the_first_bad_rule_is_reported(names: Seq<Seq<char>>, rules: Rules, i: int)
    requires
        0 <= i <= names.len(),
        forall|k: int|
            0 <= k < i ==> key::compile_fault(rules.rule_for(#[trigger] names[k])) is None,
    ensures
        i == names.len() ==> first_bad(names, rules) is None,
        i < names.len() && key::compile_fault(rules.rule_for(names[i])) is Some ==> first_bad(
            names,
            rules,
        ) == Some(names[i]),
    decreases names.len(),
{
    if names.len() > 0 {
        let front = names.drop_last();
        assert forall|k: int|
            0 <= k < i && k < front.len() implies key::compile_fault(
            rules.rule_for(#[trigger] front[k]),
        ) is None by {
            assert(front[k] == names[k]);
        }
        the_first_bad_rule_is_reported(front, rules, if i < names.len() {
            i
        } else {
            front.len() as int
        });
        if i == names.len() {
            assert(key::compile_fault(rules.rule_for(names[names.len() - 1])) is None);
        } else if i < front.len() {
            assert(front[i] == names[i]);
        }
    }
}

/// Advice on ports is given only where permission was what was wanting, and for the ports that
/// clients use.
pub proof fn advice_is_given_where_it_helps(listener: Listener)
    ensures
        bind_hint(listener, false).len() == 0,
        bind_hint(Listener::Admin, true).len() == 0,
        bind_hint(listener, true).len() > 0 <==> listener == Listener::Http || listener
            == Listener::Https,
{
    reveal_strlit("");
    reveal_strlit(
        "\n  Ports below 1024 need CAP_NET_BIND_SERVICE when running as a non-root user.",
    );
    reveal_strlit(
        "\n  Ports below 1024 need CAP_NET_BIND_SERVICE when running as a non-root user. The container image and the Helm chart grant it; a bare binary needs `setcap cap_net_bind_service=+ep`, a port mapping, or HTTPS_PORT set higher.",
    );
}

} // verus!
