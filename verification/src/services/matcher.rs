//! Host to service matching.
//!
//! Exact hosts are looked up directly; wildcards are matched by walking the parent domains of the
//! host, which is at most a handful of lookups because host names are short.
//!
//! The longest match wins: `*.cdn.example.com` takes precedence over `*.example.com`. Picking the
//! shorter one would attribute traffic to the wrong service and normalise its key with the wrong
//! rules.
use crate::services::domains;
use crate::services::domains::{DomainList, Pattern};
use crate::text;
use vstd::hash_map::StringHashMap;
use vstd::prelude::*;
use vstd::slice::slice_subrange;

verus! {

/// Compiled host matcher.
pub struct Matcher {
    /// Host to service index.
    exact: StringHashMap<usize>,
    /// Parent domain to service index, for `*.parent` patterns.
    suffix: StringHashMap<usize>,
    names: Vec<String>,
}

/// What a matcher knows: the service of each host, the service of each parent domain, and the
/// names of the services.
#[verifier::ext_equal]
pub struct Table {
    pub exact: Map<Seq<char>, usize>,
    pub suffix: Map<Seq<char>, usize>,
    pub names: Seq<Seq<char>>,
}

impl View for Matcher {
    type V = Table;

    closed spec fn view(&self) -> Table {
        Table { exact: self.exact@, suffix: self.suffix@, names: text::texts(self.names@) }
    }
}

/// A table with one more pattern. A pattern that is there already moves to the new service.
pub open spec fn with_pattern(t: Table, host: domains::Host, service: usize) -> Table {
    match host {
        domains::Host::Exact(h) => Table { exact: t.exact.insert(h, service), ..t },
        domains::Host::Suffix(p) => Table { suffix: t.suffix.insert(p, service), ..t },
    }
}

/// A table with the patterns of a service.
pub open spec fn with_patterns(t: Table, patterns: Seq<domains::Host>, service: usize) -> Table
    decreases patterns.len(),
{
    if patterns.len() == 0 {
        t
    } else {
        with_pattern(
            with_patterns(t, patterns.drop_last(), service),
            patterns.last(),
            service,
        )
    }
}

/// The table of a list: its services in order, each with its patterns.
pub open spec fn table_of(list: Seq<domains::Listed>) -> Table
    decreases list.len(),
{
    if list.len() == 0 {
        Table { exact: Map::empty(), suffix: Map::empty(), names: Seq::empty() }
    } else {
        let t = table_of(list.drop_last());
        let named = Table { names: t.names.push(list.last().name), ..t };
        with_patterns(named, list.last().patterns, (list.len() - 1) as usize)
    }
}

/// Every pattern belongs to a service that is there.
pub open spec fn consistent(t: Table) -> bool {
    &&& forall|h: Seq<char>|
        #[trigger] t.exact.contains_key(h) ==> t.exact[h] < t.names.len()
    &&& forall|p: Seq<char>|
        #[trigger] t.suffix.contains_key(p) ==> t.suffix[p] < t.names.len()
}

/// A `Host` header without its port. An IPv6 literal stands in brackets, and its colons are not
/// taken for a port.
pub open spec fn without_port(host: Seq<char>) -> Seq<char> {
    if host.len() > 0 && host[0] == '[' {
        match text::split_at_first(host.skip(1), ']') {
            Some((inner, _)) => inner,
            None => host.skip(1),
        }
    } else {
        let i = text::last_of(host, ':');
        if i >= 0 && text::all_digits(host.skip(i + 1)) {
            host.take(i)
        } else {
            host
        }
    }
}

/// A `Host` header as it is matched.
pub open spec fn normalised_host(host: Seq<char>) -> Seq<char> {
    text::lowered(text::stripped_end(without_port(text::trimmed(host)), '.'))
}

/// The service of the longest parent domain of `rest` that has one.
pub open spec fn wildcard_service(t: Table, rest: Seq<char>) -> Option<usize>
    decreases rest.len(),
{
    proof {
        text::lemma_find_from(rest, '.', 0);
    }
    match text::split_at_first(rest, '.') {
        None => None,
        Some((_, parent)) => if parent.len() == 0 {
            None
        } else if t.suffix.contains_key(parent) {
            Some(t.suffix[parent])
        } else {
            wildcard_service(t, parent)
        },
    }
}

/// The service of a host that is already normalised.
pub open spec fn service_index(t: Table, host: Seq<char>) -> Option<usize> {
    if host.len() == 0 {
        None
    } else if t.exact.contains_key(host) {
        Some(t.exact[host])
    } else {
        wildcard_service(t, host)
    }
}

proof fn lemma_with_patterns(t: Table, patterns: Seq<domains::Host>, service: usize)
    requires
        consistent(t),
        service < t.names.len(),
    ensures
        consistent(with_patterns(t, patterns, service)),
        with_patterns(t, patterns, service).names == t.names,
    decreases patterns.len(),
{
    if patterns.len() > 0 {
        lemma_with_patterns(t, patterns.drop_last(), service);
    }
}

proof fn lemma_table_consistent(list: Seq<domains::Listed>)
    requires
        list.len() <= usize::MAX,
    ensures
        consistent(table_of(list)),
        table_of(list).names.len() == list.len(),
    decreases list.len(),
{
    if list.len() > 0 {
        lemma_table_consistent(list.drop_last());
        let t = table_of(list.drop_last());
        let named = Table { names: t.names.push(list.last().name), ..t };
        lemma_with_patterns(named, list.last().patterns, (list.len() - 1) as usize);
    }
}

impl Matcher {
    #[verifier::type_invariant]
    spec fn well_formed(self) -> bool {
        consistent(self@)
    }

    pub fn build(list: &DomainList) -> (out: Self)
        ensures
            out@ == table_of(list@),
            consistent(out@),
    {
        let mut exact: StringHashMap<usize> = StringHashMap::new();
        let mut suffix: StringHashMap<usize> = StringHashMap::new();
        let mut names: Vec<String> = Vec::new();
        let n: usize = list.services.len();
        assert(list@.take(0) =~= Seq::empty());
        assert(text::texts(names@) =~= Seq::empty());
        for index in 0..n
            invariant
                n == list.services@.len(),
                (Table { exact: exact@, suffix: suffix@, names: text::texts(names@) }) == table_of(
                    list@.take(index as int),
                ),
        {
            assert(list@.take(index + 1).drop_last() =~= list@.take(index as int));
            let service = &list.services[index];
            assert(list@.take(index + 1).last() == service@);
            let ghost before = text::texts(names@);
            names.push(service.name.clone());
            assert(text::texts(names@) =~= before.push(service@.name));
            let ghost named = Table {
                exact: exact@,
                suffix: suffix@,
                names: text::texts(names@),
            };
            let k: usize = service.patterns.len();
            let ghost hosts = service@.patterns;
            assert(hosts.take(0) =~= Seq::empty());
            for j in 0..k
                invariant
                    k == service.patterns@.len(),
                    hosts == domains::hosts(service.patterns@),
                    (Table { exact: exact@, suffix: suffix@, names: text::texts(names@) })
                        == with_patterns(named, hosts.take(j as int), index),
            {
                assert(hosts.take(j + 1).drop_last() =~= hosts.take(j as int));
                assert(hosts.take(j + 1).last() == service.patterns@[j as int]@);
                match &service.patterns[j] {
                    Pattern::Exact(host) => exact.insert(host.clone(), index),
                    Pattern::Suffix(parent) => suffix.insert(parent.clone(), index),
                }
            }
            assert(hosts.take(k as int) =~= hosts);
        }
        assert(list@.take(n as int) =~= list@);
        proof {
            lemma_table_consistent(list@);
        }
        Matcher { exact, suffix, names }
    }

    /// Normalise a `Host` header for matching: strip the port, lowercase, drop trailing dots.
    pub fn normalise_host(host: &str) -> (out: String)
        ensures
            out@ == normalised_host(host@),
    {
        let chars = text::chars_of(host);
        let host = text::trim(chars.as_slice());
        let n: usize = host.len();
        let name = if n > 0 && host[0] == '[' {
            let rest = slice_subrange(host, 1, n);
            assert(rest@ =~= host@.skip(1));
            match text::split_once(rest, ']') {
                Some((inner, _)) => inner,
                None => rest,
            }
        } else {
            match text::find_last(host, ':') {
                Some(i) => {
                    let after = slice_subrange(host, i + 1, n);
                    assert(after@ =~= host@.skip(i as int + 1));
                    if only_digits(after) {
                        assert(host@.take(i as int) =~= host@.subrange(0, i as int));
                        slice_subrange(host, 0, i)
                    } else {
                        host
                    }
                },
                None => host,
            }
        };
        text::string_of(text::lower(text::strip_end(name, '.')).as_slice())
    }

    /// The service a host belongs to, if any.
    pub fn service_for(&self, host: &str) -> (out: Option<&str>)
        ensures
            match service_index(self@, normalised_host(host@)) {
                Some(i) => out matches Some(o) && i < self@.names.len() && o@
                    == self@.names[i as int],
                None => out is None,
            },
    {
        proof {
            use_type_invariant(self);
        }
        let key = Matcher::normalise_host(host);
        if key.as_str().is_empty() {
            return None;
        }
        match self.exact.get(key.as_str()) {
            Some(index) => {
                assert(self@.exact.contains_key(key@));
                return Some(self.names[*index].as_str());
            },
            None => {},
        }
        let chars = text::chars_of(key.as_str());
        let n: usize = chars.len();
        let mut at: usize = 0;
        assert(chars@.skip(0) =~= chars@);
        while at < n
            invariant
                n == chars@.len(),
                at <= n,
                chars@ == key@,
                consistent(self@),
                service_index(self@, normalised_host(host@)) == wildcard_service(
                    self@,
                    chars@.skip(at as int),
                ),
            decreases n - at,
        {
            let rest = slice_subrange(chars.as_slice(), at, n);
            assert(rest@ =~= chars@.skip(at as int));
            proof {
                text::lemma_find_from(rest@, '.', 0);
            }
            match text::split_once(rest, '.') {
                None => return None,
                Some((_, parent)) => {
                    let k: usize = parent.len();
                    if k == 0 {
                        return None;
                    }
                    let name = text::string_of(parent);
                    match self.suffix.get(name.as_str()) {
                        Some(index) => {
                            assert(self@.suffix.contains_key(name@));
                            return Some(self.names[*index].as_str());
                        },
                        None => {},
                    }
                    assert(parent@ =~= chars@.skip(n - k));
                    at = n - k;
                },
            }
        }
        None
    }

    pub fn service_count(&self) -> (out: usize)
        ensures
            out == self@.names.len(),
    {
        self.names.len()
    }

    pub fn pattern_count(&self) -> (out: usize)
        requires
            self@.exact.len() + self@.suffix.len() <= usize::MAX,
        ensures
            out == self@.exact.len() + self@.suffix.len(),
    {
        self.exact.len() + self.suffix.len()
    }
}

fn only_digits(s: &[char]) -> (out: bool)
    ensures
        out == text::all_digits(s@),
{
    let n: usize = s.len();
    for i in 0..n
        invariant
            n == s@.len(),
            forall|j: int| 0 <= j < i ==> text::is_digit(#[trigger] s@[j]),
    {
        if s[i] < '0' || s[i] > '9' {
            assert(!text::is_digit(s@[i as int]));
            return false;
        }
    }
    true
}

/// Whether `parent` is what follows some dot of `host`.
pub open spec fn is_parent(host: Seq<char>, parent: Seq<char>) -> bool {
    exists|k: int| 0 < k < host.len() && host[k - 1] == '.' && parent == #[trigger] host.skip(k)
}

/// A host that is listed exactly belongs to the service that lists it, whatever wildcards there
/// are.
pub proof fn exact_hosts_beat_wildcards(t: Table, host: Seq<char>)
    requires
        host.len() > 0,
        t.exact.contains_key(host),
    ensures
        service_index(t, host) == Some(t.exact[host]),
{
}

/// Among the wildcards that cover a host, the one with the longest parent decides. A host that is
/// not listed exactly and has no listed parent belongs to no service; in particular a wildcard
/// does not cover its own parent.
pub proof fn longest_wildcard_wins(t: Table, host: Seq<char>)
    requires
        host.len() > 0,
        host.last() != '.',
    ensures
        match wildcard_service(t, host) {
            Some(i) => exists|p: Seq<char>|
                {
                    &&& is_parent(host, p)
                    &&& #[trigger] t.suffix.contains_key(p)
                    &&& t.suffix[p] == i
                    &&& forall|q: Seq<char>|
                        is_parent(host, q) && #[trigger] t.suffix.contains_key(q) ==> q.len()
                            <= p.len()
                },
            None => forall|q: Seq<char>| is_parent(host, q) ==> !#[trigger] t.suffix.contains_key(q),
        },
    decreases host.len(),
{
    text::lemma_find_from(host, '.', 0);
    let i = text::find_from(host, '.', 0);
    if i < host.len() {
        let parent = host.skip(i + 1);
        assert(i + 1 < host.len());
        assert(is_parent(host, parent));
        assert forall|q: Seq<char>| is_parent(host, q) implies q == parent || is_parent(
            parent,
            q,
        ) by {
            let k = choose|k: int|
                0 < k < host.len() && host[k - 1] == '.' && q == #[trigger] host.skip(k);
            assert(k - 1 >= i);
            if k > i + 1 {
                let m = k - (i + 1);
                assert(parent.skip(m) =~= host.skip(k));
                assert(parent[m - 1] == host[k - 1]);
            }
        }
        if t.suffix.contains_key(parent) {
            assert forall|q: Seq<char>|
                is_parent(host, q) && #[trigger] t.suffix.contains_key(q) implies q.len()
                <= parent.len() by {
                if q != parent {
                    let m = choose|m: int|
                        0 < m < parent.len() && parent[m - 1] == '.' && q == #[trigger] parent.skip(
                            m,
                        );
                }
            }
        } else {
            longest_wildcard_wins(t, parent);
            if wildcard_service(t, parent) is Some {
                let s = wildcard_service(t, parent)->0;
                let p = choose|p: Seq<char>|
                    {
                        &&& is_parent(parent, p)
                        &&& #[trigger] t.suffix.contains_key(p)
                        &&& t.suffix[p] == s
                        &&& forall|q: Seq<char>|
                            is_parent(parent, q) && #[trigger] t.suffix.contains_key(q) ==> q.len()
                                <= p.len()
                    };
                let m = choose|m: int|
                    0 < m < parent.len() && parent[m - 1] == '.' && p == #[trigger] parent.skip(m);
                assert(host.skip(m + i + 1) =~= p);
                assert(host[m + i] == '.');
                assert(is_parent(host, p));
            }
        }
    } else {
        assert forall|q: Seq<char>| is_parent(host, q) implies !#[trigger] t.suffix.contains_key(
            q,
        ) by {
            let k = choose|k: int|
                0 < k < host.len() && host[k - 1] == '.' && q == #[trigger] host.skip(k);
            assert(host[k - 1] != '.');
        }
    }
}

/// Whether a table holds exactly some patterns.
spec fn holds(t: Table, patterns: Seq<domains::Host>) -> bool {
    &&& forall|h: Seq<char>| #[trigger]
        t.exact.contains_key(h) <==> patterns.contains(domains::Host::Exact(h))
    &&& forall|p: Seq<char>| #[trigger]
        t.suffix.contains_key(p) <==> patterns.contains(domains::Host::Suffix(p))
    &&& t.exact.dom().finite()
    &&& t.suffix.dom().finite()
    &&& t.exact.len() + t.suffix.len() == patterns.to_set().len()
}

proof fn lemma_holds_push(
    t: Table,
    patterns: Seq<domains::Host>,
    host: domains::Host,
    service: usize,
)
    requires
        holds(t, patterns),
    ensures
        holds(with_pattern(t, host, service), patterns.push(host)),
        with_pattern(t, host, service).names == t.names,
{
    let more = patterns.push(host);
    let after = with_pattern(t, host, service);
    assert forall|x: domains::Host| more.contains(x) <==> patterns.contains(x) || x == host by {
        if more.contains(x) {
            let k = choose|k: int| 0 <= k < more.len() && more[k] == x;
            if k < patterns.len() {
                assert(patterns[k] == x);
            }
        }
        if patterns.contains(x) {
            let k = choose|k: int| 0 <= k < patterns.len() && patterns[k] == x;
            assert(more[k] == x);
        }
        assert(more[patterns.len() as int] == host);
    }
    assert(more.to_set() =~= patterns.to_set().insert(host));
    vstd::seq_lib::seq_to_set_is_finite(patterns);
    match host {
        domains::Host::Exact(h) => {
            assert(t.exact.contains_key(h) <==> patterns.to_set().contains(host));
            assert(after.exact.dom() =~= t.exact.dom().insert(h));
        },
        domains::Host::Suffix(p) => {
            assert(t.suffix.contains_key(p) <==> patterns.to_set().contains(host));
            assert(after.suffix.dom() =~= t.suffix.dom().insert(p));
        },
    }
}

proof fn lemma_holds_patterns(
    t: Table,
    before: Seq<domains::Host>,
    patterns: Seq<domains::Host>,
    service: usize,
)
    requires
        holds(t, before),
    ensures
        holds(with_patterns(t, patterns, service), before + patterns),
        with_patterns(t, patterns, service).names == t.names,
    decreases patterns.len(),
{
    if patterns.len() == 0 {
        assert(before + patterns =~= before);
    } else {
        let front = patterns.drop_last();
        lemma_holds_patterns(t, before, front, service);
        lemma_holds_push(
            with_patterns(t, front, service),
            before + front,
            patterns.last(),
            service,
        );
        assert(before + patterns =~= (before + front).push(patterns.last()));
    }
}

proof fn lemma_table_holds(list: Seq<domains::Listed>)
    ensures
        holds(table_of(list), domains::all_patterns(list)),
        table_of(list).names.len() == list.len(),
        forall|i: int| 0 <= i < list.len() ==> table_of(list).names[i] == (#[trigger] list[i]).name,
    decreases list.len(),
{
    if list.len() == 0 {
        assert(domains::all_patterns(list).to_set() =~= Set::empty());
    } else {
        let front = list.drop_last();
        lemma_table_holds(front);
        let t = table_of(front);
        let named = Table { names: t.names.push(list.last().name), ..t };
        assert(holds(named, domains::all_patterns(front)));
        lemma_holds_patterns(
            named,
            domains::all_patterns(front),
            list.last().patterns,
            (list.len() - 1) as usize,
        );
        assert forall|i: int| 0 <= i < list.len() implies table_of(list).names[i] == (
        #[trigger] list[i]).name by {
            if i < front.len() {
                assert(front[i] == list[i]);
            }
        }
    }
}

proof fn lemma_pattern_is_listed(list: Seq<domains::Listed>, i: int, j: int)
    requires
        0 <= i < list.len(),
        0 <= j < list[i].patterns.len(),
    ensures
        domains::all_patterns(list).contains(list[i].patterns[j]),
    decreases list.len(),
{
    let front = list.drop_last();
    let all = domains::all_patterns(list);
    let before = domains::all_patterns(front);
    if i == list.len() - 1 {
        assert(all[before.len() + j] == list[i].patterns[j]);
    } else {
        assert(front[i] == list[i]);
        lemma_pattern_is_listed(front, i, j);
        let k = choose|k: int| 0 <= k < before.len() && before[k] == list[i].patterns[j];
        assert(all[k] == list[i].patterns[j]);
    }
}

/// A matcher knows each service of its list, in order, and each distinct pattern once.
pub proof fn tables_count_what_is_listed(list: Seq<domains::Listed>)
    ensures
        table_of(list).names == list.map_values(|s: domains::Listed| s.name),
        table_of(list).names.len() == list.len(),
        table_of(list).exact.len() + table_of(list).suffix.len() == domains::all_patterns(
            list,
        ).to_set().len(),
{
    lemma_table_holds(list);
    assert(table_of(list).names =~= list.map_values(|s: domains::Listed| s.name));
}

/// Text without white space, a port or a bracket in front, in small letters and without a dot at
/// its end is matched as it is.
proof fn lemma_normalised_already(host: Seq<char>)
    requires
        host.len() > 0,
        host.last() != '.',
        !domains::has_space(host),
        text::lowered(host) == host,
        forall|k: int| 0 <= k < host.len() ==> #[trigger] host[k] != ':' && host[k] != '[',
    ensures
        normalised_host(host) == host,
{
    assert(!text::is_space(host[0]) && !text::is_space(host[host.len() - 1]));
    text::lemma_trimmed_fixed(host);
    assert(host[0] != '[');
    lemma_last_of_none(host, ':');
}

proof fn lemma_last_of_none(s: Seq<char>, c: char)
    requires
        forall|k: int| 0 <= k < s.len() ==> #[trigger] s[k] != c,
    ensures
        text::last_of(s, c) == -1,
    decreases s.len(),
{
    if s.len() > 0 {
        assert(s[s.len() - 1] != c);
        assert forall|k: int| 0 <= k < s.drop_last().len() implies #[trigger] s.drop_last()[k]
            != c by {
            assert(s.drop_last()[k] == s[k]);
        }
        lemma_last_of_none(s.drop_last(), c);
    }
}

/// Every pattern of a list that was read matches: a host that is listed belongs to some service,
/// and so does any subdomain of a parent with a wildcard. Names with a colon or a bracket in them
/// are left out: in a `Host` header these set off a port and an address.
pub proof fn every_listed_pattern_matches(
    index: Seq<domains::IndexEntry>,
    files: Seq<domains::DomainFile>,
    list: Seq<domains::Listed>,
    i: int,
    j: int,
    below: Seq<char>,
)
    requires
        list.len() == index.len(),
        forall|k: int|
            0 <= k < index.len() ==> domains::lists(index[k], files, #[trigger] list[k]),
        0 <= i < list.len(),
        0 <= j < list[i].patterns.len(),
        forall|k: int|
            0 <= k < domains::text_of(list[i].patterns[j]).len()
                ==> #[trigger] domains::text_of(list[i].patterns[j])[k] != ':' && domains::text_of(
                list[i].patterns[j],
            )[k] != '[',
        text::lowered(below) == below,
        forall|k: int|
            0 <= k < below.len() ==> !text::is_space(#[trigger] below[k]) && below[k] != ':'
                && below[k] != '[',
    ensures
        match list[i].patterns[j] {
            domains::Host::Exact(h) => service_index(
                table_of(list),
                normalised_host(h),
            ) is Some,
            domains::Host::Suffix(p) => service_index(
                table_of(list),
                normalised_host(below.push('.') + p),
            ) is Some,
        },
{
    let pattern = list[i].patterns[j];
    assert(domains::lists(index[i], files, list[i]));
    domains::patterns_are_read_clean(index[i], files, list[i], j);
    lemma_table_holds(list);
    lemma_pattern_is_listed(list, i, j);
    match pattern {
        domains::Host::Exact(h) => {
            lemma_normalised_already(h);
            assert(table_of(list).exact.contains_key(h));
        },
        domains::Host::Suffix(p) => {
            let host = below.push('.') + p;
            let n = below.len() + 1;
            assert forall|k: int| 0 <= k < host.len() implies !text::is_space(#[trigger] host[k])
                && host[k] != ':' && host[k] != '[' && text::lower_char(host[k]) == host[k] by {
                if k >= n {
                    assert(host[k] == p[k - n]);
                    assert(!text::is_space(p[k - n]));
                    assert(text::lowered(p)[k - n] == p[k - n]);
                } else if k < below.len() {
                    assert(host[k] == below[k]);
                    assert(text::lowered(below)[k] == below[k]);
                }
            }
            assert(text::lowered(host) =~= host);
            assert(host.last() == p.last());
            lemma_normalised_already(host);
            assert(host.skip(n as int) =~= p);
            assert(host[n - 1] == '.');
            assert(is_parent(host, p));
            assert(table_of(list).suffix.contains_key(p));
            longest_wildcard_wins(table_of(list), host);
        },
    }
}

proof fn lemma_last_colon(name: Seq<char>, port: Seq<char>)
    requires
        forall|k: int| 0 <= k < port.len() ==> #[trigger] port[k] != ':',
    ensures
        text::last_of(name + seq![':'] + port, ':') == name.len(),
    decreases port.len(),
{
    let s = name + seq![':'] + port;
    if port.len() > 0 {
        assert(s.last() == port[port.len() - 1]);
        assert(s.drop_last() =~= name + seq![':'] + port.drop_last());
        assert forall|k: int| 0 <= k < port.drop_last().len() implies #[trigger] port.drop_last()[k]
            != ':' by {
            assert(port[k] != ':');
        }
        lemma_last_colon(name, port.drop_last());
    }
}

/// A host is matched by its name alone: white space around the header, a port, dots at the end of
/// the name and capitals make no difference.
pub proof fn hosts_are_matched_by_their_name(
    before: Seq<char>,
    name: Seq<char>,
    dots: nat,
    port: Option<Seq<char>>,
    after: Seq<char>,
)
    requires
        forall|i: int| 0 <= i < before.len() ==> text::is_space(#[trigger] before[i]),
        forall|i: int| 0 <= i < after.len() ==> text::is_space(#[trigger] after[i]),
        name.len() > 0,
        name.last() != '.',
        !text::is_space(name[0]) && !text::is_space(name.last()),
        name[0] != '[',
        port is None ==> forall|i: int| 0 <= i < name.len() ==> #[trigger] name[i] != ':',
        port matches Some(p) ==> forall|i: int| 0 <= i < p.len() ==> '0' <= #[trigger] p[i] <= '9',
    ensures
        ({
            let dotted = name + Seq::new(dots, |i: int| '.');
            let header = match port {
                Some(p) => dotted + seq![':'] + p,
                None => dotted,
            };
            normalised_host(before + header + after) == text::lowered(name)
        }),
{
    let dotted = name + Seq::new(dots, |i: int| '.');
    let header = match port {
        Some(p) => dotted + seq![':'] + p,
        None => dotted,
    };
    assert(header[0] == name[0]);
    if port is Some {
        let p = port->0;
        if p.len() > 0 {
            assert(header.last() == p[p.len() - 1]);
        } else {
            assert(header.last() == ':');
        }
        assert forall|k: int| 0 <= k < p.len() implies #[trigger] p[k] != ':' by {
            assert('0' <= p[k] <= '9');
        }
        lemma_last_colon(dotted, p);
        assert(header.skip(dotted.len() as int + 1) =~= p);
        assert(header.take(dotted.len() as int) =~= dotted);
    } else {
        if dots > 0 {
            assert(header.last() == '.');
        } else {
            assert(dotted =~= name);
        }
        assert forall|k: int| 0 <= k < dotted.len() implies #[trigger] dotted[k] != ':' by {
            if k < name.len() {
                assert(name[k] != ':');
            }
        }
        lemma_last_of_none(dotted, ':');
    }
    text::trimming_takes_the_white_space_around(before, header, after);
    text::stripping_takes_one_character_alone(name, '.', dots);
}

/// An address in brackets is matched by what stands between them, and a colon that no port follows
/// is part of the name.
pub proof fn colons_are_kept_where_no_port_follows(
    inner: Seq<char>,
    rest: Seq<char>,
    name: Seq<char>,
    at: int,
)
    requires
        inner.len() > 0,
        inner.last() != '.',
        forall|i: int| 0 <= i < inner.len() ==> #[trigger] inner[i] != ']',
        rest.len() > 0 ==> !text::is_space(rest.last()),
        0 <= at < name.len(),
        name.last() != '.',
        name[0] != '[',
        !text::is_space(name[0]) && !text::is_space(name.last()),
        forall|i: int| at < i < name.len() ==> #[trigger] name[i] != ':',
        !('0' <= name[at] <= '9') && name[at] != ':',
    ensures
        normalised_host(seq!['['] + inner + seq![']'] + rest) == text::lowered(inner),
        normalised_host(name) == text::lowered(name),
{
    let s = seq!['['] + inner + seq![']'] + rest;
    assert(s[0] == '[');
    if rest.len() > 0 {
        assert(s.last() == rest.last());
    } else {
        assert(s.last() == ']');
    }
    text::lemma_trimmed_fixed(s);
    assert(s.skip(1) =~= inner + seq![']'] + rest);
    text::texts_part_at_every_separator(inner, ']', rest);
    text::lemma_trimmed_fixed(name);
    text::the_last_place_is_the_last(name, ':', at);
    let i = text::last_of(name, ':');
    if i >= 0 {
        assert(name[i] == ':');
        assert(i < at);
        assert(name.skip(i + 1)[at - i - 1] == name[at]);
    }
}

/// The service of a pattern in a table, if it is there.
pub open spec fn owner(t: Table, host: domains::Host) -> Option<usize> {
    match host {
        domains::Host::Exact(h) => if t.exact.contains_key(h) {
            Some(t.exact[h])
        } else {
            None
        },
        domains::Host::Suffix(p) => if t.suffix.contains_key(p) {
            Some(t.suffix[p])
        } else {
            None
        },
    }
}

proof fn lemma_owner_of(t: Table, patterns: Seq<domains::Host>, service: usize, host: domains::Host)
    ensures
        owner(with_patterns(t, patterns, service), host) == if patterns.contains(host) {
            Some(service)
        } else {
            owner(t, host)
        },
    decreases patterns.len(),
{
    if patterns.len() > 0 {
        let front = patterns.drop_last();
        lemma_owner_of(t, front, service, host);
        if front.contains(host) {
            let k = choose|k: int| 0 <= k < front.len() && front[k] == host;
            assert(patterns[k] == host);
        }
        if patterns.contains(host) && !front.contains(host) {
            let k = choose|k: int| 0 <= k < patterns.len() && patterns[k] == host;
            if k < front.len() {
                assert(front[k] == host);
            }
        }
        assert(patterns[patterns.len() - 1] == patterns.last());
    }
}

/// A pattern belongs to the last service that lists it, and to none where none does.
pub proof fn the_last_service_that_lists_a_pattern_has_it(
    list: Seq<domains::Listed>,
    host: domains::Host,
    i: int,
)
    requires
        list.len() <= usize::MAX,
        -1 <= i < list.len(),
        forall|k: int| i < k < list.len() ==> !(#[trigger] list[k]).patterns.contains(host),
    ensures
        i >= 0 && list[i].patterns.contains(host) ==> owner(table_of(list), host) == Some(
            i as usize,
        ),
        i == -1 ==> owner(table_of(list), host) is None,
    decreases list.len(),
{
    if list.len() > 0 {
        let front = list.drop_last();
        let t = table_of(front);
        let named = Table { names: t.names.push(list.last().name), ..t };
        let last = (list.len() - 1) as usize;
        lemma_owner_of(named, list.last().patterns, last, host);
        if i < last {
            assert(!list[last as int].patterns.contains(host));
            assert forall|k: int| i < k < front.len() implies !(
            #[trigger] front[k]).patterns.contains(host) by {
                assert(front[k] == list[k]);
            }
            the_last_service_that_lists_a_pattern_has_it(front, host, i);
        }
    }
}

/// A bracket that is never closed takes the rest of the header, and a header without a name in it
/// has none to match.
pub proof fn odd_hosts_are_matched_too(
    before: Seq<char>,
    inner: Seq<char>,
    dots: nat,
    after: Seq<char>,
)
    requires
        forall|i: int| 0 <= i < before.len() ==> text::is_space(#[trigger] before[i]),
        forall|i: int| 0 <= i < after.len() ==> text::is_space(#[trigger] after[i]),
        inner.len() > 0,
        inner.last() != '.',
        !text::is_space(inner.last()),
        forall|i: int| 0 <= i < inner.len() ==> #[trigger] inner[i] != ']',
    ensures
        normalised_host(before + (seq!['['] + inner) + after) == text::lowered(inner),
        normalised_host(before + Seq::new(dots, |i: int| '.') + after) == Seq::<char>::empty(),
{
    let s = seq!['['] + inner;
    assert(s[0] == '[' && s.last() == inner.last());
    text::trimming_takes_the_white_space_around(before, s, after);
    assert(s.skip(1) =~= inner);
    text::texts_part_at_every_separator(inner, ']', Seq::empty());
    text::stripping_takes_one_character_alone(inner, '.', 0);
    assert(inner + Seq::new(0, |i: int| '.') =~= inner);
    let d = Seq::new(dots, |i: int| '.');
    if dots > 0 {
        assert(d[0] == '.' && d.last() == '.');
    }
    text::trimming_takes_the_white_space_around(before, d, after);
    lemma_last_of_none(d, ':');
    text::stripping_takes_one_character_alone(Seq::empty(), '.', dots);
    assert(Seq::<char>::empty() + d =~= d);
    assert(text::lowered(Seq::empty()) =~= Seq::<char>::empty());
}

} // verus!
