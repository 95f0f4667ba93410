//! What may be done with what a resolver answers.
//!
//! Host names are only ever resolved through the configured servers. Every address that comes back
//! passes the guard before anything connects to it, and the addresses that were guarded are the
//! ones that are dialled.
use crate::config::units::quoted;
use crate::upstream::guard;
use crate::upstream::guard::{IpAddr, Refusal};
use vstd::prelude::*;
use vstd::string::*;

verus! {

/// Standard DNS port. The configuration names servers by address alone.
pub const DNS_PORT: u16 = 53;

/// An address to connect to.
#[derive(Debug, Clone, Copy, PartialEq, Eq)]
pub struct SocketAddr {
    pub ip: IpAddr,
    pub port: u16,
}

#[derive(Debug, PartialEq, Eq)]
pub enum ResolveError {
    NoResolvers,
    /// The resolver could not be built.
    Build { source: String },
    /// The lookup itself failed.
    Lookup { host: String, source: String },
    NoAddresses { host: String },
    Refused { host: String, refusal: Refusal },
}

impl ResolveError {
    pub open spec fn message_spec(self) -> Seq<char> {
        match self {
            ResolveError::NoResolvers =>
            "no upstream resolvers configured; UPSTREAM_DNS must list at least one"@,
            ResolveError::Build { source } => "cannot build the upstream resolver: "@ + source@,
            ResolveError::Lookup { host, source } => "resolving "@
                + crate::config::units::quoted_text(host@) + " failed: "@ + source@,
            ResolveError::NoAddresses { host } => crate::config::units::quoted_text(host@)
                + " did not resolve to any address"@,
            ResolveError::Refused { host, refusal } => crate::config::units::quoted_text(host@)
                + " resolved only to addresses cachic will not fetch from ("@
                + refusal.message_spec()
                + "). Refusing: without this check the cache is an open proxy on the LAN. Set the allow-private option only if you are deliberately caching from an internal mirror."@,
        }
    }

    /// The error in words: why, and what to do about it.
    pub fn message(&self) -> (out: String)
        ensures
            out@ == self.message_spec(),
    {
        match self {
            ResolveError::NoResolvers => {
                "no upstream resolvers configured; UPSTREAM_DNS must list at least one".to_owned()
            },
            ResolveError::Build { source } => {
                "cannot build the upstream resolver: ".to_owned().concat(source.as_str())
            },
            ResolveError::Lookup { host, source } => {
                let mut out = "resolving ".to_owned();
                out.append(quoted(host.as_str()).as_str());
                out.append(" failed: ");
                out.append(source.as_str());
                out
            },
            ResolveError::NoAddresses { host } => {
                quoted(host.as_str()).concat(" did not resolve to any address")
            },
            ResolveError::Refused { host, refusal } => {
                let mut out = quoted(host.as_str());
                out.append(" resolved only to addresses cachic will not fetch from (");
                out.append(refusal.message());
                out.append(
                    "). Refusing: without this check the cache is an open proxy on the LAN. Set the allow-private option only if you are deliberately caching from an internal mirror.",
                );
                out
            },
        }
    }
}

/// The servers to ask, on the standard port. There has to be one: the system's own resolver is
/// never used.
pub fn name_servers(servers: &Vec<IpAddr>) -> (out: Result<Vec<SocketAddr>, ResolveError>)
    ensures
        servers@.len() == 0 ==> out == Err::<Vec<SocketAddr>, ResolveError>(
            ResolveError::NoResolvers,
        ),
        servers@.len() > 0 ==> {
            &&& out matches Ok(list)
            &&& list@ == servers@.map_values(|ip: IpAddr| SocketAddr { ip, port: DNS_PORT })
        },
{
    let n: usize = servers.len();
    if n == 0 {
        return Err(ResolveError::NoResolvers);
    }
    let mut out: Vec<SocketAddr> = Vec::new();
    for i in 0..n
        invariant
            n == servers@.len(),
            out@.len() == i,
            forall|j: int|
                0 <= j < i ==> out@[j] == (SocketAddr { ip: servers@[j], port: DNS_PORT }),
    {
        out.push(SocketAddr { ip: servers[i], port: DNS_PORT });
    }
    assert(out@ =~= servers@.map_values(|ip: IpAddr| SocketAddr { ip, port: DNS_PORT }));
    Ok(out)
}

/// The answers that may be fetched from, in order.
pub open spec fn allowed(answers: Seq<IpAddr>, allow_private: bool) -> Seq<IpAddr> {
    answers.filter(|a: IpAddr| guard::permitted(a, allow_private))
}

/// Addresses on one port.
pub open spec fn on_port(ips: Seq<IpAddr>, port: u16) -> Seq<SocketAddr> {
    ips.map_values(|ip: IpAddr| SocketAddr { ip, port })
}

/// What a lookup of `host` that gave `answers` leads to.
///
/// Every address handed out has passed the guard. Addresses that fail are dropped rather than
/// failing the whole lookup, so a name with both a public and a private answer still works; but if
/// none is left, that is an error, because an empty list is easy to mistake for "no result". The
/// refusal that is reported is that of the first answer.
///
/// A host that is an address itself needs no lookup: its only answer is that address.
pub fn resolve(host: &str, answers: &Vec<IpAddr>, port: u16, allow_private: bool) -> (out: Result<
    Vec<SocketAddr>,
    ResolveError,
>)
    ensures
        match out {
            Ok(list) => {
                &&& allowed(answers@, allow_private).len() > 0
                &&& list@ == on_port(allowed(answers@, allow_private), port)
            },
            Err(ResolveError::NoAddresses { host: h }) => answers@.len() == 0 && h@ == host@,
            Err(ResolveError::Refused { host: h, refusal }) => {
                &&& answers@.len() > 0
                &&& allowed(answers@, allow_private).len() == 0
                &&& h@ == host@
                &&& guard::refusal(answers@[0]) == Some(refusal)
            },
            Err(_) => false,
        },
        out matches Ok(list) ==> forall|i: int|
            0 <= i < list@.len() ==> guard::permitted((#[trigger] list@[i]).ip, allow_private),
{
    let mut list: Vec<SocketAddr> = Vec::new();
    let mut first_refusal: Option<Refusal> = None;
    let n: usize = answers.len();
    let ghost pred = |a: IpAddr| guard::permitted(a, allow_private);
    assert(answers@.take(0) =~= Seq::empty());
    reveal(Seq::filter);
    for i in 0..n
        invariant
            n == answers@.len(),
            pred == (|a: IpAddr| guard::permitted(a, allow_private)),
            list@ =~= on_port(answers@.take(i as int).filter(pred), port),
            i == 0 ==> first_refusal is None,
            i > 0 && list@.len() == 0 ==> first_refusal is Some && first_refusal == guard::refusal(
                answers@[0],
            ),
            forall|j: int|
                0 <= j < list@.len() ==> guard::permitted((#[trigger] list@[j]).ip, allow_private),
    {
        reveal(Seq::filter);
        assert(answers@.take(i + 1).drop_last() =~= answers@.take(i as int));
        assert(answers@.take(i + 1).last() == answers@[i as int]);
        let ip = answers[i];
        match guard::check(ip, allow_private) {
            Ok(()) => list.push(SocketAddr { ip, port }),
            Err(refusal) => {
                if first_refusal.is_none() {
                    first_refusal = Some(refusal);
                }
            },
        }
    }
    assert(answers@.take(n as int) =~= answers@);
    if n == 0 {
        return Err(ResolveError::NoAddresses { host: host.to_owned() });
    }
    if list.len() == 0 {
        assert(on_port(answers@.filter(pred), port).len() == 0);
        return Err(
            ResolveError::Refused {
                host: host.to_owned(),
                refusal: match first_refusal {
                    Some(r) => r,
                    None => Refusal::Private,
                },
            },
        );
    }
    Ok(list)
}

/// Of the answers to a lookup, each that may be fetched from is kept, in its place, and no other
/// is: what is kept of two runs of answers is what is kept of the one and then of the other.
pub proof fn answers_are_judged_one_by_one(
    a: Seq<IpAddr>,
    b: Seq<IpAddr>,
    answer: IpAddr,
    allow_private: bool,
    port: u16,
    i: int,
)
    ensures
        allowed(a + b, allow_private) == allowed(a, allow_private) + allowed(b, allow_private),
        allowed(seq![answer], allow_private) == (if allow_private || guard::refusal(answer) is None {
            seq![answer]
        } else {
            Seq::empty()
        }),
        allowed(Seq::empty(), allow_private) == Seq::<IpAddr>::empty(),
        on_port(a, port).len() == a.len(),
        0 <= i < a.len() ==> on_port(a, port)[i].ip == a[i] && on_port(a, port)[i].port == port,
{
    let pred = |x: IpAddr| guard::permitted(x, allow_private);
    reveal(Seq::filter);
    lemma_filter_joined(a, b, pred);
    assert(seq![answer].drop_last() =~= Seq::empty());
    assert(Seq::<IpAddr>::empty().filter(pred) =~= Seq::empty());
    assert(seq![answer].last() == answer);
    assert(seq![answer].filter(pred) =~= if pred(answer) {
        Seq::<IpAddr>::empty().push(answer)
    } else {
        Seq::empty()
    });
    assert(allowed(seq![answer], allow_private) =~= if pred(answer) {
        seq![answer]
    } else {
        Seq::empty()
    });
}

proof fn lemma_filter_joined(a: Seq<IpAddr>, b: Seq<IpAddr>, pred: spec_fn(IpAddr) -> bool)
    ensures
        (a + b).filter(pred) == a.filter(pred) + b.filter(pred),
    decreases b.len(),
{
    reveal(Seq::filter);
    if b.len() == 0 {
        assert(a + b =~= a);
        assert(a.filter(pred) + b.filter(pred) =~= a.filter(pred));
    } else {
        lemma_filter_joined(a, b.drop_last(), pred);
        assert((a + b).drop_last() =~= a + b.drop_last());
        assert((a + b).filter(pred) =~= a.filter(pred) + b.filter(pred));
    }
}

} // verus!
