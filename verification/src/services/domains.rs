//! The list of services and the host names that belong to them.
//!
//! An index names each service and the files listing its host names; each of those files holds one
//! host name per line, `#` for comments, and `*.` for a wildcard covering any subdomain.
//!
//! The list is maintained by a community and arrives over the network, so reading it is strict
//! about structure and forgiving about white space. A malformed list is rejected in one piece: a
//! half-loaded list is a cache that silently stops caching half the services it used to.
use crate::config::units;
use crate::config::units::quoted;
use crate::text;
use vstd::prelude::*;
use vstd::string::*;

verus! {

/// Why a domain list was rejected.
#[derive(Debug, PartialEq, Eq)]
pub enum DomainsError {
    /// The index is not valid JSON.
    Json { source: String },
    MissingFile { service: String, file: String },
    Malformed { file: String, line: usize, reason: String },
    Empty,
}

/// A [`DomainsError`] with its text taken as characters.
pub enum Rejection {
    Json { source: Seq<char> },
    MissingFile { service: Seq<char>, file: Seq<char> },
    Malformed { file: Seq<char>, line: int, reason: Seq<char> },
    Empty,
}

impl View for DomainsError {
    type V = Rejection;

    open spec fn view(&self) -> Rejection {
        match self {
            DomainsError::Json { source } => Rejection::Json { source: source@ },
            DomainsError::MissingFile { service, file } => Rejection::MissingFile {
                service: service@,
                file: file@,
            },
            DomainsError::Malformed { file, line, reason } => Rejection::Malformed {
                file: file@,
                line: *line as int,
                reason: reason@,
            },
            DomainsError::Empty => Rejection::Empty,
        }
    }
}

impl DomainsError {
    pub open spec fn message_spec(self) -> Seq<char> {
        match self {
            DomainsError::Json { source } => "cache_domains.json is not valid JSON: "@ + source@,
            DomainsError::MissingFile { service, file } => "service "@ + units::quoted_text(service@)
                + " lists domain file "@ + units::quoted_text(file@) + ", which is missing"@,
            DomainsError::Malformed { file, line, reason } => file@ + ":"@ + text::decimal(
                line as nat,
            ) + ": "@ + reason@,
            DomainsError::Empty =>
            "the domain list is empty, which would disable caching entirely"@,
        }
    }

    /// The error in words.
    pub fn message(&self) -> (out: String)
        ensures
            out@ == self.message_spec(),
    {
        match self {
            DomainsError::Json { source } => {
                "cache_domains.json is not valid JSON: ".to_owned().concat(source.as_str())
            },
            DomainsError::MissingFile { service, file } => {
                let mut out = "service ".to_owned();
                out.append(quoted(service.as_str()).as_str());
                out.append(" lists domain file ");
                out.append(quoted(file.as_str()).as_str());
                out.append(", which is missing");
                out
            },
            DomainsError::Malformed { file, line, reason } => {
                let mut out = file.clone();
                out.append(":");
                out.append(text::decimal_string(*line as u64).as_str());
                out.append(": ");
                out.append(reason.as_str());
                out
            },
            DomainsError::Empty => {
                "the domain list is empty, which would disable caching entirely".to_owned()
            },
        }
    }
}

/// One host name pattern from a domain file.
#[derive(Debug, PartialEq, Eq, PartialOrd, Ord)]
pub enum Pattern {
    /// `cdn.blizzard.com`: this host and nothing else.
    Exact(String),
    /// `*.cdn.blizzard.com`: any subdomain. Stored without the leading `*.`.
    ///
    /// This does not match the bare parent: where both are wanted, both are listed.
    Suffix(String),
}

/// A [`Pattern`] with its text taken as characters.
pub enum Host {
    Exact(Seq<char>),
    Suffix(Seq<char>),
}

impl View for Pattern {
    type V = Host;

    open spec fn view(&self) -> Host {
        match self {
            Pattern::Exact(s) => Host::Exact(s@),
            Pattern::Suffix(s) => Host::Suffix(s@),
        }
    }
}

impl Clone for Pattern {
    fn clone(&self) -> (out: Self)
        ensures
            out@ == self@,
    {
        match self {
            Pattern::Exact(s) => Pattern::Exact(s.clone()),
            Pattern::Suffix(s) => Pattern::Suffix(s.clone()),
        }
    }
}

/// The pattern that a line stands for.
pub open spec fn pattern_of(raw: Seq<char>) -> Option<Host> {
    let host = text::lowered(text::stripped_end(text::trimmed(raw), '.'));
    if host.len() == 0 {
        None
    } else if "*."@.is_prefix_of(host) && host.len() > "*."@.len() {
        Some(Host::Suffix(host.skip("*."@.len() as int)))
    } else {
        Some(Host::Exact(host))
    }
}

/// How patterns are ordered: exact hosts first, then wildcards, each by their text.
pub open spec fn host_precedes(a: Host, b: Host) -> bool {
    match (a, b) {
        (Host::Exact(x), Host::Exact(y)) => text::precedes(x, y),
        (Host::Exact(_), Host::Suffix(_)) => true,
        (Host::Suffix(_), Host::Exact(_)) => false,
        (Host::Suffix(x), Host::Suffix(y)) => text::precedes(x, y),
    }
}

/// In order, and without repeats.
pub open spec fn ascending(hosts: Seq<Host>) -> bool {
    forall|i: int, j: int|
        0 <= i < j < hosts.len() ==> host_precedes(#[trigger] hosts[i], #[trigger] hosts[j])
}

pub open spec fn hosts(patterns: Seq<Pattern>) -> Seq<Host> {
    patterns.map_values(|p: Pattern| p@)
}

proof fn lemma_host_order(a: Host, b: Host)
    ensures
        host_precedes(a, b) ==> !host_precedes(b, a) && a != b,
        a != b ==> host_precedes(a, b) || host_precedes(b, a),
{
    match (a, b) {
        (Host::Exact(x), Host::Exact(y)) => text::lemma_precedes_total(x, y),
        (Host::Suffix(x), Host::Suffix(y)) => text::lemma_precedes_total(x, y),
        _ => {},
    }
}

proof fn lemma_host_transitive(a: Host, b: Host, c: Host)
    requires
        host_precedes(a, b),
        host_precedes(b, c),
    ensures
        host_precedes(a, c),
{
    match (a, b, c) {
        (Host::Exact(x), Host::Exact(y), Host::Exact(z)) => {
            text::lemma_precedes_transitive(x, y, z)
        },
        (Host::Suffix(x), Host::Suffix(y), Host::Suffix(z)) => {
            text::lemma_precedes_transitive(x, y, z)
        },
        _ => {},
    }
}

impl Pattern {
    /// The pattern that a line stands for, unless nothing is left of it.
    pub fn parse(raw: &str) -> (out: Option<Self>)
        ensures
            match pattern_of(raw@) {
                Some(h) => out matches Some(p) && p@ == h,
                None => out is None,
            },
    {
        let chars = text::chars_of(raw);
        Pattern::parse_chars(chars.as_slice())
    }

    fn parse_chars(raw: &[char]) -> (out: Option<Self>)
        ensures
            match pattern_of(raw@) {
                Some(h) => out matches Some(p) && p@ == h,
                None => out is None,
            },
    {
        let host = text::lower(text::strip_end(text::trim(raw), '.'));
        if host.len() == 0 {
            return None;
        }
        proof {
            reveal_strlit("*.");
        }
        match text::strip_prefix(host.as_slice(), "*.") {
            Some(rest) => {
                if rest.len() > 0 {
                    return Some(Pattern::Suffix(text::string_of(rest)));
                }
            },
            None => {},
        }
        Some(Pattern::Exact(text::string_of(host.as_slice())))
    }

    fn comes_before(&self, other: &Pattern) -> (out: bool)
        ensures
            out == host_precedes(self@, other@),
    {
        match (self, other) {
            (Pattern::Exact(x), Pattern::Exact(y)) => text::before(x.as_str(), y.as_str()),
            (Pattern::Exact(_), Pattern::Suffix(_)) => true,
            (Pattern::Suffix(_), Pattern::Exact(_)) => false,
            (Pattern::Suffix(x), Pattern::Suffix(y)) => text::before(x.as_str(), y.as_str()),
        }
    }

    /// Whether two patterns are the same.
    pub fn equals(&self, other: &Pattern) -> (out: bool)
        ensures
            out == (self@ == other@),
    {
        match (self, other) {
            (Pattern::Exact(x), Pattern::Exact(y)) => text::same(x.as_str(), y.as_str()),
            (Pattern::Suffix(x), Pattern::Suffix(y)) => text::same(x.as_str(), y.as_str()),
            _ => false,
        }
    }
}

/// Puts a pattern where it belongs in an ordered list, unless it is already there.
fn insert_sorted(patterns: &mut Vec<Pattern>, p: Pattern)
    requires
        ascending(hosts(old(patterns)@)),
    ensures
        ascending(hosts(final(patterns)@)),
        hosts(final(patterns)@).to_set() == hosts(old(patterns)@).to_set().insert(p@),
{
    let n: usize = patterns.len();
    let ghost all = hosts(patterns@);
    let mut i: usize = n;
    while i > 0 && p.comes_before(&patterns[i - 1])
        invariant
            n == patterns@.len(),
            i <= n,
            patterns@ == old(patterns)@,
            all == hosts(patterns@),
            forall|j: int| i <= j < n ==> host_precedes(p@, #[trigger] all[j]),
        decreases i,
    {
        assert(all[i - 1] == patterns@[i - 1]@);
        i = i - 1;
    }
    if i > 0 && p.equals(&patterns[i - 1]) {
        assert(all[i - 1] == p@);
        assert(all.to_set() =~= all.to_set().insert(p@));
        return;
    }
    let ghost h = p@;
    proof {
        if i > 0 {
            assert(all[i - 1] == patterns@[i - 1]@);
            lemma_host_order(h, all[i - 1]);
            assert forall|j: int| 0 <= j < i implies host_precedes(#[trigger] all[j], h) by {
                if j < i - 1 {
                    lemma_host_transitive(all[j], all[i - 1], h);
                }
            }
        }
    }
    patterns.insert(i, p);
    proof {
        let after = hosts(patterns@);
        assert(after =~= all.insert(i as int, h));
        assert forall|a: int, b: int| 0 <= a < b < after.len() implies host_precedes(
            #[trigger] after[a],
            #[trigger] after[b],
        ) by {
            let x = if a < i {
                a
            } else {
                a - 1
            };
            let y = if b < i {
                b
            } else {
                b - 1
            };
            if a != i && b != i {
                assert(after[a] == all[x] && after[b] == all[y]);
            } else if a == i {
                assert(after[b] == all[y]);
            } else {
                assert(after[a] == all[x]);
            }
        }
        assert(after.to_set() =~= all.to_set().insert(h)) by {
            assert(after[i as int] == h);
            assert forall|x: Host| all.contains(x) implies after.contains(x) by {
                let k = choose|k: int| 0 <= k < all.len() && all[k] == x;
                if k < i {
                    assert(after[k] == x);
                } else {
                    assert(after[k + 1] == x);
                }
            }
            assert forall|x: Host| after.contains(x) implies x == h || all.contains(x) by {
                let k = choose|k: int| 0 <= k < after.len() && after[k] == x;
                if k < i {
                    assert(all[k] == x);
                } else if k > i {
                    assert(all[k - 1] == x);
                }
            }
        }
    }
}

/// A service and the host names that belong to it.
#[derive(Debug, PartialEq, Eq)]
pub struct Service {
    pub name: String,
    pub description: String,
    pub patterns: Vec<Pattern>,
}

/// A [`Service`] with its text taken as characters.
#[verifier::ext_equal]
pub struct Listed {
    pub name: Seq<char>,
    pub description: Seq<char>,
    pub patterns: Seq<Host>,
}

impl View for Service {
    type V = Listed;

    open spec fn view(&self) -> Listed {
        Listed {
            name: self.name@,
            description: self.description@,
            patterns: hosts(self.patterns@),
        }
    }
}

/// The whole list.
#[derive(Debug, PartialEq, Eq)]
pub struct DomainList {
    pub services: Vec<Service>,
}

pub open spec fn listed(services: Seq<Service>) -> Seq<Listed> {
    services.map_values(|s: Service| s@)
}

impl View for DomainList {
    type V = Seq<Listed>;

    open spec fn view(&self) -> Seq<Listed> {
        listed(self.services@)
    }
}

impl Default for DomainList {
    fn default() -> (out: Self)
        ensures
            out@ == Seq::<Listed>::empty(),
    {
        let out = DomainList { services: Vec::new() };
        assert(out@ =~= Seq::<Listed>::empty());
        out
    }
}

/// How many patterns the services hold together.
pub open spec fn total_patterns(services: Seq<Listed>) -> nat
    decreases services.len(),
{
    if services.len() == 0 {
        0
    } else {
        total_patterns(services.drop_last()) + services.last().patterns.len()
    }
}

/// A service as the index names it.
#[derive(Debug, PartialEq, Eq)]
pub struct IndexEntry {
    pub name: String,
    pub description: String,
    pub domain_files: Vec<String>,
}

/// A domain file: its name and what is in it.
#[derive(Debug, PartialEq, Eq)]
pub struct DomainFile {
    pub name: String,
    pub body: String,
}

/// The contents of the file of that name.
pub open spec fn body_of(files: Seq<DomainFile>, name: Seq<char>) -> Option<Seq<char>>
    decreases files.len(),
{
    if files.len() == 0 {
        None
    } else if files[0].name@ == name {
        Some(files[0].body@)
    } else {
        body_of(files.skip(1), name)
    }
}

pub open spec fn has_space(s: Seq<char>) -> bool {
    exists|i: int| 0 <= i < s.len() && text::is_space(#[trigger] s[i])
}

/// The patterns on the lines of a file, in order, or the line that is wrong and why.
pub open spec fn patterns_on(lines: Seq<Seq<char>>, index: int) -> Result<
    Seq<Host>,
    (int, Seq<char>),
>
    decreases lines.len(),
{
    if lines.len() == 0 {
        Ok(Seq::empty())
    } else {
        let line = text::trimmed(lines[0]);
        let rest = patterns_on(lines.skip(1), index + 1);
        if line.len() == 0 || line[0] == '#' {
            rest
        } else if has_space(line) {
            Err((index + 1, "expected one hostname per line, found "@ + units::quoted_text(line)))
        } else {
            match pattern_of(line) {
                None => Err((index + 1, units::quoted_text(line) + " is not a hostname"@)),
                Some(h) => match rest {
                    Ok(more) => Ok(seq![h] + more),
                    Err(e) => Err(e),
                },
            }
        }
    }
}

/// The patterns in the files of a service, or what is wrong with the first bad one.
pub open spec fn patterns_in(
    service: Seq<char>,
    names: Seq<Seq<char>>,
    files: Seq<DomainFile>,
) -> Result<Seq<Host>, Rejection>
    decreases names.len(),
{
    if names.len() == 0 {
        Ok(Seq::empty())
    } else {
        match body_of(files, names[0]) {
            None => Err(Rejection::MissingFile { service, file: names[0] }),
            Some(body) => match patterns_on(text::lines_of(body), 0) {
                Err((line, reason)) => Err(Rejection::Malformed { file: names[0], line, reason }),
                Ok(here) => match patterns_in(service, names.skip(1), files) {
                    Err(e) => Err(e),
                    Ok(more) => Ok(here + more),
                },
            },
        }
    }
}

/// What is wrong with the first bad service of an index, if any is.
pub open spec fn first_rejection(
    index: Seq<IndexEntry>,
    files: Seq<DomainFile>,
) -> Option<Rejection>
    decreases index.len(),
{
    if index.len() == 0 {
        None
    } else {
        match patterns_in(index[0].name@, text::texts(index[0].domain_files@), files) {
            Err(e) => Some(e),
            Ok(_) => first_rejection(index.skip(1), files),
        }
    }
}

/// A service as it is listed: the patterns of its files, ordered, each once.
pub open spec fn lists(entry: IndexEntry, files: Seq<DomainFile>, service: Listed) -> bool {
    &&& service.name == entry.name@
    &&& service.description == entry.description@
    &&& ascending(service.patterns)
    &&& patterns_in(entry.name@, text::texts(entry.domain_files@), files) matches Ok(all)
    &&& service.patterns.to_set() == all.to_set()
}

fn space_in(s: &[char]) -> (out: bool)
    ensures
        out == has_space(s@),
{
    let n: usize = s.len();
    for i in 0..n
        invariant
            n == s@.len(),
            forall|j: int| 0 <= j < i ==> !text::is_space(#[trigger] s@[j]),
    {
        if text::space(s[i]) {
            return true;
        }
    }
    false
}

fn find_file<'a>(files: &'a Vec<DomainFile>, name: &str) -> (out: Option<&'a str>)
    ensures
        match body_of(files@, name@) {
            Some(b) => out matches Some(o) && o@ == b,
            None => out is None,
        },
{
    let n: usize = files.len();
    assert(files@.skip(0) =~= files@);
    for i in 0..n
        invariant
            n == files@.len(),
            body_of(files@, name@) == body_of(files@.skip(i as int), name@),
    {
        assert(files@.skip(i as int)[0] == files@[i as int]);
        assert(files@.skip(i as int).skip(1) =~= files@.skip(i as int + 1));
        if text::same(files[i].name.as_str(), name) {
            return Some(files[i].body.as_str());
        }
    }
    None
}

/// Adds the patterns of a file to those of its service.
fn add_file(patterns: &mut Vec<Pattern>, name: &str, body: &str) -> (out: Result<(), DomainsError>)
    requires
        ascending(hosts(old(patterns)@)),
    ensures
        ascending(hosts(final(patterns)@)),
        match patterns_on(text::lines_of(body@), 0) {
            Ok(here) => out is Ok && hosts(final(patterns)@).to_set() == hosts(
                old(patterns)@,
            ).to_set() + here.to_set(),
            Err((line, reason)) => out matches Err(e) && e@ == (Rejection::Malformed {
                file: name@,
                line,
                reason,
            }),
        },
{
    let chars = text::chars_of(body);
    let lines = text::lines(chars.as_slice());
    let n: usize = lines.len();
    let ghost all = text::seqs(lines@);
    let ghost start = hosts(patterns@).to_set();
    let ghost mut seen: Set<Host> = Set::empty();
    assert(all.skip(0) =~= all);
    let mut index: usize = 0;
    proof {
        if let Ok(h) = patterns_on(all, 0) {
            assert(seen + h.to_set() =~= h.to_set());
        }
        assert(start =~= start + seen);
    }
    while index < n
        invariant
            n == lines@.len(),
            index <= n,
            all == text::seqs(lines@),
            all == text::lines_of(body@),
            ascending(hosts(patterns@)),
            hosts(patterns@).to_set() == start + seen,
            start == hosts(old(patterns)@).to_set(),
            match (patterns_on(all, 0), patterns_on(all.skip(index as int), index as int)) {
                (Ok(h), Ok(r)) => h.to_set() == seen + r.to_set(),
                (Err(a), Err(b)) => a == b,
                _ => false,
            },
        decreases n - index,
    {
        let ghost rest = all.skip(index as int);
        let ghost tail = patterns_on(all.skip(index as int + 1), index as int + 1);
        assert(rest[0] == lines@[index as int]@);
        assert(rest.skip(1) =~= all.skip(index as int + 1));
        let line = text::trim(lines[index].as_slice());
        index = index + 1;
        if line.len() == 0 || line[0] == '#' {
            continue;
        }
        if space_in(line) {
            let reason = "expected one hostname per line, found ".to_owned().concat(
                quoted(text::string_of(line).as_str()).as_str(),
            );
            return Err(DomainsError::Malformed { file: name.to_owned(), line: index, reason });
        }
        match Pattern::parse_chars(line) {
            Some(p) => {
                proof {
                    let grown = seen.insert(p@);
                    if let Ok(r) = tail {
                        assert((seq![p@] + r).to_set() =~= r.to_set().insert(p@)) by {
                            assert((seq![p@] + r)[0] == p@);
                            assert forall|x: Host| r.contains(x) implies (seq![p@] + r).contains(
                                x,
                            ) by {
                                let k = choose|k: int| 0 <= k < r.len() && r[k] == x;
                                assert((seq![p@] + r)[k + 1] == x);
                            }
                            assert forall|x: Host| (seq![p@] + r).contains(x) implies x == p@
                                || r.contains(x) by {
                                let k = choose|k: int|
                                    0 <= k < (seq![p@] + r).len() && (seq![p@] + r)[k] == x;
                                if k > 0 {
                                    assert(r[k - 1] == x);
                                }
                            }
                        }
                        assert(seen + r.to_set().insert(p@) =~= grown + r.to_set());
                    }
                    assert((start + seen).insert(p@) =~= start + grown);
                    seen = grown;
                }
                insert_sorted(patterns, p);
            },
            None => {
                let reason = quoted(text::string_of(line).as_str()).concat(" is not a hostname");
                return Err(DomainsError::Malformed { file: name.to_owned(), line: index, reason });
            },
        }
    }
    proof {
        assert(all.skip(n as int) =~= Seq::empty());
        assert(Seq::<Host>::empty().to_set() =~= Set::empty());
        if let Ok(h) = patterns_on(all, 0) {
            assert(h.to_set() =~= seen);
        }
    }
    Ok(())
}

/// The patterns in the files of a service, ordered, each once.
fn gather(entry: &IndexEntry, files: &Vec<DomainFile>) -> (out: Result<Vec<Pattern>, DomainsError>)
    ensures
        match patterns_in(entry.name@, text::texts(entry.domain_files@), files@) {
            Ok(all) => {
                &&& out matches Ok(o)
                &&& ascending(hosts(o@))
                &&& hosts(o@).to_set() == all.to_set()
            },
            Err(e) => out matches Err(x) && x@ == e,
        },
{
    let mut patterns: Vec<Pattern> = Vec::new();
    let n: usize = entry.domain_files.len();
    let ghost names = text::texts(entry.domain_files@);
    let ghost name = entry.name@;
    assert(hosts(patterns@) =~= Seq::empty());
    assert(names.skip(0) =~= names);
    proof {
        if let Ok(all) = patterns_in(name, names, files@) {
            assert(hosts(patterns@).to_set() + all.to_set() =~= all.to_set());
        }
    }
    for i in 0..n
        invariant
            n == entry.domain_files@.len(),
            names == text::texts(entry.domain_files@),
            name == entry.name@,
            ascending(hosts(patterns@)),
            match (
                patterns_in(name, names, files@),
                patterns_in(name, names.skip(i as int), files@),
            ) {
                (Ok(all), Ok(rest)) => all.to_set() == hosts(patterns@).to_set() + rest.to_set(),
                (Err(a), Err(b)) => a == b,
                _ => false,
            },
    {
        let ghost rest = names.skip(i as int);
        assert(rest[0] == entry.domain_files@[i as int]@);
        assert(rest.skip(1) =~= names.skip(i as int + 1));
        let file = &entry.domain_files[i];
        let body = match find_file(files, file.as_str()) {
            Some(b) => b,
            None => return Err(
                DomainsError::MissingFile { service: entry.name.clone(), file: file.clone() },
            ),
        };
        let ghost before = hosts(patterns@).to_set();
        match add_file(&mut patterns, file.as_str(), body) {
            Ok(()) => {},
            Err(e) => return Err(e),
        }
        proof {
            let here = patterns_on(text::lines_of(body@), 0)->Ok_0;
            if let Ok(more) = patterns_in(name, names.skip(i as int + 1), files@) {
                lemma_set_of_concat(here, more);
                assert(before + (here.to_set() + more.to_set()) =~= (before + here.to_set())
                    + more.to_set());
            }
        }
    }
    proof {
        assert(names.skip(n as int) =~= Seq::empty());
        assert(Seq::<Host>::empty().to_set() =~= Set::empty());
        if let Ok(all) = patterns_in(name, names, files@) {
            assert(all.to_set() =~= hosts(patterns@).to_set());
        }
    }
    Ok(patterns)
}

proof fn lemma_set_of_concat(a: Seq<Host>, b: Seq<Host>)
    ensures
        (a + b).to_set() == a.to_set() + b.to_set(),
{
    let c = a + b;
    assert forall|x: Host| a.contains(x) || b.contains(x) implies c.contains(x) by {
        if a.contains(x) {
            let k = choose|k: int| 0 <= k < a.len() && a[k] == x;
            assert(c[k] == x);
        } else {
            let k = choose|k: int| 0 <= k < b.len() && b[k] == x;
            assert(c[k + a.len()] == x);
        }
    }
    assert forall|x: Host| c.contains(x) implies a.contains(x) || b.contains(x) by {
        let k = choose|k: int| 0 <= k < c.len() && c[k] == x;
        if k < a.len() {
            assert(a[k] == x);
        } else {
            assert(b[k - a.len()] == x);
        }
    }
    assert(c.to_set() =~= a.to_set() + b.to_set());
}

/// The text of a pattern, without the `*.` of a wildcard.
pub open spec fn text_of(host: Host) -> Seq<char> {
    match host {
        Host::Exact(h) => h,
        Host::Suffix(p) => p,
    }
}

/// A pattern in the form in which hosts are matched: in small letters, without white space, without
/// a dot at its end.
pub open spec fn is_clean(host: Host) -> bool {
    let s = text_of(host);
    &&& s.len() > 0
    &&& s.last() != '.'
    &&& !has_space(s)
    &&& text::lowered(s) == s
}

proof fn lemma_stripped_end(s: Seq<char>, c: char)
    ensures
        text::stripped_end(s, c).len() <= s.len(),
        text::stripped_end(s, c) == s.take(text::stripped_end(s, c).len() as int),
        text::stripped_end(s, c).len() > 0 ==> text::stripped_end(s, c).last() != c,
    decreases s.len(),
{
    if s.len() > 0 && s.last() == c {
        lemma_stripped_end(s.drop_last(), c);
        let n = text::stripped_end(s, c).len() as int;
        assert(s.drop_last().take(n) =~= s.take(n));
    } else {
        assert(s.take(s.len() as int) =~= s);
    }
}

proof fn lemma_pattern_clean(line: Seq<char>)
    requires
        !has_space(line),
    ensures
        pattern_of(line) matches Some(h) ==> is_clean(h),
{
    if line.len() > 0 {
        assert(!text::is_space(line[0]));
        assert(!text::is_space(line[line.len() - 1]));
    }
    text::lemma_trimmed_fixed(line);
    lemma_stripped_end(line, '.');
    let bare = text::stripped_end(line, '.');
    let host = text::lowered(bare);
    reveal_strlit("*.");
    if let Some(h) = pattern_of(line) {
        let s = text_of(h);
        let skipped = host.len() - s.len();
        assert(s =~= host.skip(skipped));
        assert forall|i: int| 0 <= i < s.len() implies !text::is_space(#[trigger] s[i])
            && text::lower_char(s[i]) == s[i] by {
            assert(!text::is_space(line[i + skipped]));
            assert(bare[i + skipped] == line[i + skipped]);
            assert(s[i] == text::lower_char(bare[i + skipped]));
        }
        assert(text::lowered(s) =~= s);
        assert(bare.last() != '.');
        assert(s.last() == text::lower_char(bare.last()));
    }
}

proof fn lemma_patterns_on_clean(lines: Seq<Seq<char>>, index: int)
    ensures
        patterns_on(lines, index) matches Ok(all) ==> forall|i: int|
            0 <= i < all.len() ==> is_clean(#[trigger] all[i]),
    decreases lines.len(),
{
    if lines.len() > 0 {
        lemma_patterns_on_clean(lines.skip(1), index + 1);
        let line = text::trimmed(lines[0]);
        if !has_space(line) {
            lemma_pattern_clean(line);
        }
    }
}

proof fn lemma_patterns_in_clean(
    service: Seq<char>,
    names: Seq<Seq<char>>,
    files: Seq<DomainFile>,
)
    ensures
        patterns_in(service, names, files) matches Ok(all) ==> forall|i: int|
            0 <= i < all.len() ==> is_clean(#[trigger] all[i]),
    decreases names.len(),
{
    if names.len() > 0 {
        lemma_patterns_in_clean(service, names.skip(1), files);
        if let Some(body) = body_of(files, names[0]) {
            lemma_patterns_on_clean(text::lines_of(body), 0);
        }
    }
}

/// Every pattern that is read is in the form in which hosts are matched, however it was written.
pub proof fn patterns_are_read_clean(entry: IndexEntry, files: Seq<DomainFile>, service: Listed, i: int)
    requires
        lists(entry, files, service),
        0 <= i < service.patterns.len(),
    ensures
        is_clean(service.patterns[i]),
{
    let names = text::texts(entry.domain_files@);
    lemma_patterns_in_clean(entry.name@, names, files);
    let all = patterns_in(entry.name@, names, files)->Ok_0;
    assert(service.patterns.to_set().contains(service.patterns[i]));
    assert(all.to_set().contains(service.patterns[i]));
    let k = choose|k: int| 0 <= k < all.len() && all[k] == service.patterns[i];
    assert(is_clean(all[k]));
}

/// The patterns of all services, one behind the other.
pub open spec fn all_patterns(list: Seq<Listed>) -> Seq<Host>
    decreases list.len(),
{
    if list.len() == 0 {
        Seq::empty()
    } else {
        all_patterns(list.drop_last()) + list.last().patterns
    }
}

impl DomainList {
    /// Reads an index and the contents of its domain files.
    ///
    /// The services keep the order of the index. The first thing that is wrong rejects the whole
    /// list, and so does a list without a single pattern.
    pub fn parse(index: &Vec<IndexEntry>, files: &Vec<DomainFile>) -> (out: Result<
        Self,
        DomainsError,
    >)
        ensures
            match out {
                Ok(list) => {
                    &&& first_rejection(index@, files@) is None
                    &&& list@.len() == index@.len()
                    &&& forall|i: int|
                        0 <= i < index@.len() ==> lists(index@[i], files@, #[trigger] list@[i])
                    &&& total_patterns(list@) > 0
                },
                Err(e) => match first_rejection(index@, files@) {
                    Some(r) => e@ == r,
                    None => e is Empty && forall|i: int|
                        0 <= i < index@.len() ==> patterns_in(
                            (#[trigger] index@[i]).name@,
                            text::texts(index@[i].domain_files@),
                            files@,
                        ) == Ok::<Seq<Host>, Rejection>(Seq::empty()),
                },
            },
    {
        let mut services: Vec<Service> = Vec::new();
        let n: usize = index.len();
        assert(index@.skip(0) =~= index@);
        for i in 0..n
            invariant
                n == index@.len(),
                first_rejection(index@, files@) == first_rejection(index@.skip(i as int), files@),
                services@.len() == i,
                forall|j: int|
                    0 <= j < i ==> lists(index@[j], files@, #[trigger] listed(services@)[j]),
        {
            let ghost before = listed(services@);
            assert(index@.skip(i as int)[0] == index@[i as int]);
            assert(index@.skip(i as int).skip(1) =~= index@.skip(i as int + 1));
            let entry = &index[i];
            let patterns = match gather(entry, files) {
                Ok(p) => p,
                Err(e) => return Err(e),
            };
            services.push(
                Service {
                    name: entry.name.clone(),
                    description: entry.description.clone(),
                    patterns,
                },
            );
            assert forall|j: int| 0 <= j < i + 1 implies lists(
                index@[j],
                files@,
                #[trigger] listed(services@)[j],
            ) by {
                if j < i {
                    assert(listed(services@)[j] == before[j]);
                }
            }
        }
        let list = DomainList { services };
        if !list.any_pattern() {
            proof {
                assert forall|i: int| 0 <= i < index@.len() implies patterns_in(
                    (#[trigger] index@[i]).name@,
                    text::texts(index@[i].domain_files@),
                    files@,
                ) == Ok::<Seq<Host>, Rejection>(Seq::empty()) by {
                    assert(lists(index@[i], files@, list@[i]));
                    assert(list@[i].patterns.len() == 0);
                    let all = patterns_in(
                        index@[i].name@,
                        text::texts(index@[i].domain_files@),
                        files@,
                    )->Ok_0;
                    assert(list@[i].patterns.to_set() =~= Set::empty());
                    if all.len() > 0 {
                        assert(all.to_set().contains(all[0]));
                    }
                    assert(all =~= Seq::empty());
                }
            }
            return Err(DomainsError::Empty);
        }
        Ok(list)
    }

    /// Whether there is any pattern at all.
    pub(crate) fn any_pattern(&self) -> (out: bool)
        ensures
            out == (total_patterns(self@) > 0),
            !out ==> forall|i: int|
                0 <= i < self@.len() ==> (#[trigger] self@[i]).patterns.len() == 0,
    {
        let n: usize = self.services.len();
        assert(self@.take(0) =~= Seq::empty());
        for i in 0..n
            invariant
                n == self.services@.len(),
                total_patterns(self@.take(i as int)) == 0,
                forall|j: int| 0 <= j < i ==> (#[trigger] self@[j]).patterns.len() == 0,
        {
            assert(self@.take(i + 1).drop_last() =~= self@.take(i as int));
            assert(self@.take(i + 1).last() == self.services@[i as int]@);
            if self.services[i].patterns.len() > 0 {
                proof {
                    lemma_total_grows(self@, i + 1);
                }
                return true;
            }
        }
        assert(self@.take(n as int) =~= self@);
        false
    }

    /// How many patterns there are.
    pub fn pattern_count(&self) -> (out: usize)
        requires
            total_patterns(self@) <= usize::MAX,
        ensures
            out == total_patterns(self@),
    {
        let n: usize = self.services.len();
        let mut count: usize = 0;
        assert(self@.take(0) =~= Seq::empty());
        for i in 0..n
            invariant
                n == self.services@.len(),
                count == total_patterns(self@.take(i as int)),
                total_patterns(self@) <= usize::MAX,
        {
            proof {
                lemma_total_grows(self@, i + 1);
            }
            assert(self@.take(i + 1).drop_last() =~= self@.take(i as int));
            assert(self@.take(i + 1).last() == self.services@[i as int]@);
            count = count + self.services[i].patterns.len();
        }
        assert(self@.take(n as int) =~= self@);
        count
    }

    /// Whether two lists hold the same services with the same patterns, in the same order.
    pub fn equals(&self, other: &DomainList) -> (out: bool)
        ensures
            out == (self@ == other@),
    {
        let n: usize = self.services.len();
        if n != other.services.len() {
            assert(self@.len() != other@.len());
            return false;
        }
        for i in 0..n
            invariant
                n == self.services@.len(),
                n == other.services@.len(),
                forall|j: int| 0 <= j < i ==> self@[j] == other@[j],
        {
            if !same_service(&self.services[i], &other.services[i]) {
                assert(self@[i as int] != other@[i as int]);
                return false;
            }
        }
        assert(self@ =~= other@);
        true
    }
}

fn same_service(a: &Service, b: &Service) -> (out: bool)
    ensures
        out == (a@ == b@),
{
    if !text::same(a.name.as_str(), b.name.as_str()) || !text::same(
        a.description.as_str(),
        b.description.as_str(),
    ) {
        return false;
    }
    let n: usize = a.patterns.len();
    if n != b.patterns.len() {
        assert(a@.patterns.len() != b@.patterns.len());
        return false;
    }
    for i in 0..n
        invariant
            n == a.patterns@.len(),
            n == b.patterns@.len(),
            forall|j: int| 0 <= j < i ==> a@.patterns[j] == b@.patterns[j],
    {
        if !a.patterns[i].equals(&b.patterns[i]) {
            assert(a@.patterns[i as int] != b@.patterns[i as int]);
            return false;
        }
    }
    assert(a@.patterns =~= b@.patterns);
    true
}

pub proof fn lemma_total_grows(services: Seq<Listed>, k: int)
    requires
        0 <= k <= services.len(),
    ensures
        total_patterns(services.take(k)) <= total_patterns(services),
    decreases services.len() - k,
{
    if k < services.len() {
        lemma_total_grows(services, k + 1);
        assert(services.take(k + 1).drop_last() =~= services.take(k));
    } else {
        assert(services.take(k) =~= services);
    }
}

/// A line stands for the name on it, in small letters, whatever white space is around it and
/// however many dots end it: with a star and a dot in front for any subdomain, and without for that
/// host. A line of dots stands for nothing.
pub proof fn lines_stand_for_the_name_on_them(
    before: Seq<char>,
    name: Seq<char>,
    dots: nat,
    after: Seq<char>,
)
    requires
        forall|i: int| 0 <= i < before.len() ==> text::is_space(#[trigger] before[i]),
        forall|i: int| 0 <= i < after.len() ==> text::is_space(#[trigger] after[i]),
        name.len() > 0,
        name.last() != '.',
        !text::is_space(name[0]) && !text::is_space(name.last()),
    ensures
        ({
            let dotted = Seq::new(dots, |i: int| '.');
            &&& pattern_of(before + (seq!['*', '.'] + name + dotted) + after) == Some(
                Host::Suffix(text::lowered(name)),
            )
            &&& !(name.len() > 1 && name[0] == '*' && name[1] == '.') ==> pattern_of(
                before + (name + dotted) + after,
            ) == Some(Host::Exact(text::lowered(name)))
            &&& pattern_of(before + dotted + after) is None
        }),
{
    reveal_strlit("*.");
    let dotted = Seq::new(dots, |i: int| '.');
    let wild = seq!['*', '.'] + name;
    assert(seq!['*', '.'] + name + dotted =~= wild + dotted);
    assert(wild[0] == '*' && wild[1] == '.' && wild.last() == name.last());
    assert((wild + dotted)[0] == '*');
    assert((name + dotted)[0] == name[0]);
    if dots > 0 {
        assert((wild + dotted).last() == '.');
        assert((name + dotted).last() == '.');
        assert(dotted[0] == '.' && dotted.last() == '.');
    } else {
        assert(wild + dotted =~= wild);
        assert(name + dotted =~= name);
    }
    text::trimming_takes_the_white_space_around(before, wild + dotted, after);
    text::trimming_takes_the_white_space_around(before, name + dotted, after);
    text::trimming_takes_the_white_space_around(before, dotted, after);
    text::stripping_takes_one_character_alone(wild, '.', dots);
    text::stripping_takes_one_character_alone(name, '.', dots);
    text::stripping_takes_one_character_alone(Seq::empty(), '.', dots);
    assert(Seq::<char>::empty() + dotted =~= dotted);
    let host = text::lowered(wild);
    assert(host[0] == '*' && host[1] == '.');
    assert("*."@.is_prefix_of(host)) by {
        assert(host.subrange(0, 2) =~= "*."@);
    }
    assert(host.skip(2) =~= text::lowered(name));
    let plain = text::lowered(name);
    if "*."@.is_prefix_of(plain) {
        assert(plain.subrange(0, 2) =~= "*."@);
        assert(plain[0] == plain.subrange(0, 2)[0] && plain[1] == plain.subrange(0, 2)[1]);
        assert(plain[0] == text::lower_char(name[0]) && plain[1] == text::lower_char(name[1]));
        lemma_not_a_letter(name[0]);
        lemma_not_a_letter(name[1]);
    }
}

proof fn lemma_not_a_letter(c: char)
    ensures
        text::lower_char(c) == '*' ==> c == '*',
        text::lower_char(c) == '.' ==> c == '.',
{
}

/// Lines are read one by one: the patterns on two runs of lines are those on the one and then those
/// on the other, and the first wrong line is reported by its number. Blank lines and comments hold
/// none, a line with one name holds its pattern, and one with white space inside is wrong.
pub proof fn lines_are_read_one_by_one(
    a: Seq<Seq<char>>,
    b: Seq<Seq<char>>,
    line: Seq<char>,
    index: int,
)
    ensures
        match patterns_on(a, index) {
            Err(e) => patterns_on(a + b, index) == Err::<Seq<Host>, (int, Seq<char>)>(e),
            Ok(x) => match patterns_on(b, index + a.len()) {
                Err(e) => patterns_on(a + b, index) == Err::<Seq<Host>, (int, Seq<char>)>(e),
                Ok(y) => patterns_on(a + b, index) == Ok::<Seq<Host>, (int, Seq<char>)>(x + y),
            },
        },
        text::trimmed(line).len() == 0 || text::trimmed(line)[0] == '#' ==> patterns_on(
            seq![line],
            index,
        ) == Ok::<Seq<Host>, (int, Seq<char>)>(Seq::empty()),
        text::trimmed(line).len() > 0 && text::trimmed(line)[0] != '#' ==> {
            let one = patterns_on(seq![line], index);
            if exists|i: int|
                0 <= i < text::trimmed(line).len() && text::is_space(
                    #[trigger] text::trimmed(line)[i],
                ) {
                one matches Err(e) && e.0 == index + 1
            } else {
                match pattern_of(text::trimmed(line)) {
                    Some(h) => one == Ok::<Seq<Host>, (int, Seq<char>)>(seq![h]),
                    None => one matches Err(e) && e.0 == index + 1,
                }
            }
        },
    decreases a.len(),
{
    assert(seq![line].skip(1) =~= Seq::empty());
    assert(patterns_on(Seq::empty(), index + 1) == Ok::<Seq<Host>, (int, Seq<char>)>(Seq::empty()));
    if let Some(h) = pattern_of(text::trimmed(line)) {
        assert(seq![h] + Seq::<Host>::empty() =~= seq![h]);
    }
    if a.len() == 0 {
        assert(a + b =~= b);
        if let Ok(y) = patterns_on(b, index) {
            assert(Seq::<Host>::empty() + y =~= y);
        }
    } else {
        lines_are_read_one_by_one(a.skip(1), b, line, index + 1);
        assert((a + b).skip(1) =~= a.skip(1) + b);
        assert((a + b)[0] == a[0]);
        if let Some(h) = pattern_of(text::trimmed(a[0])) {
            if let Ok(x) = patterns_on(a.skip(1), index + 1) {
                if let Ok(y) = patterns_on(b, index + a.len()) {
                    assert(seq![h] + (x + y) =~= (seq![h] + x) + y);
                }
            }
        }
    }
}

/// A file is found by its name, the first of that name where there are more.
pub proof fn files_are_found_by_name(files: Seq<DomainFile>, name: Seq<char>, i: int)
    requires
        0 <= i <= files.len(),
        forall|k: int| 0 <= k < i ==> (#[trigger] files[k]).name@ != name,
    ensures
        i == files.len() ==> body_of(files, name) is None,
        i < files.len() && files[i].name@ == name ==> body_of(files, name) == Some(files[i].body@),
    decreases i,
{
    if i > 0 {
        assert(files[0].name@ != name);
        let rest = files.skip(1);
        assert forall|k: int| 0 <= k < i - 1 implies (#[trigger] rest[k]).name@ != name by {
            assert(rest[k] == files[k + 1]);
        }
        files_are_found_by_name(rest, name, i - 1);
        if i < files.len() {
            assert(rest[i - 1] == files[i]);
        }
    }
}

/// The files of a service are read in turn: what they hold is what one of them holds and then what
/// the others do. A file that is missing, or wrong in some line, is reported with its name.
pub proof fn files_are_read_in_turn(
    service: Seq<char>,
    name: Seq<char>,
    others: Seq<Seq<char>>,
    files: Seq<DomainFile>,
)
    ensures
        ({
            let all = patterns_in(service, seq![name] + others, files);
            match body_of(files, name) {
                None => all == Err::<Seq<Host>, Rejection>(
                    Rejection::MissingFile { service, file: name },
                ),
                Some(body) => match patterns_on(text::lines_of(body), 0) {
                    Err(e) => all == Err::<Seq<Host>, Rejection>(
                        Rejection::Malformed { file: name, line: e.0, reason: e.1 },
                    ),
                    Ok(here) => match patterns_in(service, others, files) {
                        Err(e) => all == Err::<Seq<Host>, Rejection>(e),
                        Ok(more) => all == Ok::<Seq<Host>, Rejection>(here + more),
                    },
                },
            }
        }),
        patterns_in(service, Seq::empty(), files) == Ok::<Seq<Host>, Rejection>(Seq::empty()),
{
    let names = seq![name] + others;
    assert(names[0] == name);
    assert(names.skip(1) =~= others);
}

/// A list is rejected for the first of its services that is wrong, and for no other reason.
pub proof fn the_first_wrong_service_is_reported(
    index: Seq<IndexEntry>,
    files: Seq<DomainFile>,
    i: int,
)
    requires
        0 <= i <= index.len(),
        forall|k: int|
            0 <= k < i ==> patterns_in(
                (#[trigger] index[k]).name@,
                text::texts(index[k].domain_files@),
                files,
            ) is Ok,
    ensures
        i == index.len() ==> first_rejection(index, files) is None,
        i < index.len() ==> (patterns_in(
            index[i].name@,
            text::texts(index[i].domain_files@),
            files,
        ) matches Err(e) ==> first_rejection(index, files) == Some(e)),
    decreases i,
{
    if i > 0 {
        assert(patterns_in(index[0].name@, text::texts(index[0].domain_files@), files) is Ok);
        let rest = index.skip(1);
        assert forall|k: int| 0 <= k < i - 1 implies patterns_in(
            (#[trigger] rest[k]).name@,
            text::texts(rest[k].domain_files@),
            files,
        ) is Ok by {
            assert(rest[k] == index[k + 1]);
        }
        the_first_wrong_service_is_reported(rest, files, i - 1);
        if i < index.len() {
            assert(rest[i - 1] == index[i]);
        }
    }
}

/// The patterns of a list are counted service by service, and hosts stand in front of wildcards.
pub proof fn patterns_are_counted_and_ordered(
    a: Seq<Listed>,
    b: Seq<Listed>,
    service: Listed,
    x: Seq<char>,
    y: Seq<char>,
)
    ensures
        total_patterns(a + b) == total_patterns(a) + total_patterns(b),
        total_patterns(seq![service]) == service.patterns.len(),
        total_patterns(a) == all_patterns(a).len(),
        host_precedes(Host::Exact(x), Host::Suffix(y)),
        !host_precedes(Host::Suffix(x), Host::Exact(y)),
        host_precedes(Host::Exact(x), Host::Exact(y)) <==> text::precedes(x, y),
        host_precedes(Host::Suffix(x), Host::Suffix(y)) <==> text::precedes(x, y),
    decreases a.len() + b.len(),
{
    assert(seq![service].drop_last() =~= Seq::empty());
    assert(total_patterns(Seq::empty()) == 0);
    if b.len() > 0 {
        patterns_are_counted_and_ordered(a, b.drop_last(), service, x, y);
        assert((a + b).drop_last() =~= a + b.drop_last());
    } else {
        assert(a + b =~= a);
        if a.len() > 0 {
            patterns_are_counted_and_ordered(a.drop_last(), b, service, x, y);
        }
    }
}

} // verus!
