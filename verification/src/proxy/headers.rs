//! Request and response header handling.
//!
//! Hop-by-hop headers must not be forwarded, and the headers that describe an entity must survive
//! caching: the validators among them are how a change is detected.
use crate::text;
use vstd::prelude::*;
use vstd::slice::slice_to_vec;
use vstd::string::*;

verus! {

/// One header line.
#[derive(Debug, PartialEq, Eq)]
pub struct Header {
    pub name: String,
    pub value: Vec<u8>,
}

/// The headers of a message, in order. A name may occur more than once; names are compared without
/// regard to case.
#[derive(Debug, PartialEq, Eq)]
pub struct HeaderMap {
    pub entries: Vec<Header>,
}

/// A header line: its name in small letters, and its value.
pub type Line = (Seq<char>, Seq<u8>);

pub open spec fn line_of(h: Header) -> Line {
    (text::lowered(h.name@), h.value@)
}

impl View for HeaderMap {
    type V = Seq<Line>;

    open spec fn view(&self) -> Seq<Line> {
        self.entries@.map_values(|h: Header| line_of(h))
    }
}

/// The lines with that name, in order. Case does not matter.
pub open spec fn lines_named(lines: Seq<Line>, name: Seq<char>) -> Seq<Line> {
    lines.filter(|l: Line| l.0 == text::lowered(name))
}

/// The lines without that name, in order. Case does not matter.
pub open spec fn lines_not_named(lines: Seq<Line>, name: Seq<char>) -> Seq<Line> {
    lines.filter(|l: Line| l.0 != text::lowered(name))
}

/// A value that is text: printable ASCII and tabs.
pub open spec fn is_text(value: Seq<u8>) -> bool {
    forall|i: int| 0 <= i < value.len() ==> 32 <= #[trigger] value[i] < 127 || value[i] == 9
}

/// A value that may stand in a header at all: no control characters but tabs.
pub open spec fn is_valid_value(value: Seq<u8>) -> bool {
    forall|i: int|
        0 <= i < value.len() ==> (#[trigger] value[i] >= 32 && value[i] != 127) || value[i] == 9
}

pub open spec fn ascii_chars(value: Seq<u8>) -> Seq<char> {
    value.map_values(|b: u8| b as char)
}

/// The first value under a name, where it is text.
pub open spec fn text_value(lines: Seq<Line>, name: Seq<char>) -> Option<Seq<char>> {
    let found = lines_named(lines, name);
    if found.len() > 0 && is_text(found[0].1) {
        Some(ascii_chars(found[0].1))
    } else {
        None
    }
}

fn text_bytes(value: &[u8]) -> (out: Option<Vec<char>>)
    ensures
        out is Some <==> is_text(value@),
        out matches Some(o) ==> o@ == ascii_chars(value@),
{
    let mut out: Vec<char> = Vec::new();
    let n: usize = value.len();
    for i in 0..n
        invariant
            n == value@.len(),
            out@.len() == i,
            forall|j: int| 0 <= j < i ==> 32 <= #[trigger] value@[j] < 127 || value@[j] == 9,
            forall|j: int| 0 <= j < i ==> out@[j] == value@[j] as char,
    {
        let b: u8 = value[i];
        if !(32 <= b && b < 127) && b != 9 {
            return None;
        }
        out.push(b as char);
    }
    assert(out@ =~= ascii_chars(value@));
    Some(out)
}

pub(crate) fn valid_value(value: &[u8]) -> (out: bool)
    ensures
        out == is_valid_value(value@),
{
    let n: usize = value.len();
    for i in 0..n
        invariant
            n == value@.len(),
            forall|j: int|
                0 <= j < i ==> (#[trigger] value@[j] >= 32 && value@[j] != 127) || value@[j] == 9,
    {
        let b: u8 = value[i];
        if !(b >= 32 && b != 127) && b != 9 {
            return false;
        }
    }
    true
}

/// Whether a header name is the given one. Case does not matter.
fn is_named(h: &Header, name: &str) -> (out: bool)
    ensures
        out == (line_of(*h).0 == text::lowered(name@)),
{
    let chars = text::chars_of(h.name.as_str());
    let lower = text::lower(chars.as_slice());
    let name = text::chars_of(name);
    let wanted = text::lower(name.as_slice());
    text::same_chars(lower.as_slice(), wanted.as_slice())
}

pub(crate) proof fn lemma_filter_push(lines: Seq<Line>, line: Line, keep: spec_fn(Line) -> bool)
    ensures
        lines.push(line).filter(keep) == (if keep(line) {
            lines.filter(keep).push(line)
        } else {
            lines.filter(keep)
        }),
{
    reveal(Seq::filter);
    assert(lines.push(line).drop_last() =~= lines);
}

impl HeaderMap {
    pub fn new() -> (out: Self)
        ensures
            out@ == Seq::<Line>::empty(),
    {
        let out = HeaderMap { entries: Vec::new() };
        assert(out@ =~= Seq::<Line>::empty());
        out
    }

    /// Adds a line behind the others.
    pub fn append(&mut self, name: &str, value: &[u8])
        ensures
            final(self)@ == old(self)@.push((text::lowered(name@), value@)),
    {
        self.entries.push(Header { name: name.to_owned(), value: slice_to_vec(value) });
        assert(self@ =~= old(self)@.push((text::lowered(name@), value@)));
    }

    /// Takes every line with a name out.
    pub fn remove(&mut self, name: &str)
        ensures
            final(self)@ == lines_not_named(old(self)@, name@),
    {
        let n: usize = self.entries.len();
        let mut kept = HeaderMap::new();
        let ghost all = self@;
        let ghost keep = |l: Line| l.0 != text::lowered(name@);
        assert(all.take(0) =~= Seq::empty());
        assert(all.take(0).filter(keep) =~= Seq::empty()) by {
            reveal(Seq::filter);
        }
        for i in 0..n
            invariant
                n == self.entries@.len(),
                all == self@,
                keep == (|l: Line| l.0 != text::lowered(name@)),
                kept@ == all.take(i as int).filter(keep),
        {
            let h = &self.entries[i];
            proof {
                assert(all.take(i + 1) =~= all.take(i as int).push(line_of(*h)));
                lemma_filter_push(all.take(i as int), line_of(*h), keep);
            }
            if !is_named(h, name) {
                kept.append(h.name.as_str(), h.value.as_slice());
            }
        }
        assert(all.take(n as int) =~= all);
        self.entries = kept.entries;
    }

    /// Sets the one value of a name.
    pub fn insert(&mut self, name: &str, value: &[u8])
        ensures
            final(self)@ == lines_not_named(old(self)@, name@).push(
                (text::lowered(name@), value@),
            ),
    {
        self.remove(name);
        self.append(name, value);
    }

    /// The first value of a name.
    pub fn get(&self, name: &str) -> (out: Option<&[u8]>)
        ensures
            match out {
                Some(v) => lines_named(self@, name@).len() > 0 && v@ == lines_named(
                    self@,
                    name@,
                )[0].1,
                None => lines_named(self@, name@).len() == 0,
            },
    {
        let n: usize = self.entries.len();
        let ghost all = self@;
        let ghost keep = |l: Line| l.0 == text::lowered(name@);
        assert(all.take(0) =~= Seq::empty());
        assert(all.take(0).filter(keep) =~= Seq::empty()) by {
            reveal(Seq::filter);
        }
        for i in 0..n
            invariant
                n == self.entries@.len(),
                all == self@,
                keep == (|l: Line| l.0 == text::lowered(name@)),
                all.take(i as int).filter(keep).len() == 0,
        {
            let h = &self.entries[i];
            proof {
                assert(all.take(i + 1) =~= all.take(i as int).push(line_of(*h)));
                lemma_filter_push(all.take(i as int), line_of(*h), keep);
            }
            if is_named(h, name) {
                proof {
                    assert(all =~= all.take(i + 1) + all.skip(i + 1));
                    lemma_filter_first(all.take(i + 1), all.skip(i + 1), keep);
                }
                return Some(h.value.as_slice());
            }
        }
        assert(all.take(n as int) =~= all);
        None
    }

    /// The first value of a name, where it is text.
    pub fn get_text(&self, name: &str) -> (out: Option<String>)
        ensures
            match text_value(self@, name@) {
                Some(s) => out matches Some(o) && o@ == s,
                None => out is None,
            },
    {
        match self.get(name) {
            Some(v) => match text_bytes(v) {
                Some(chars) => Some(text::string_of(chars.as_slice())),
                None => None,
            },
            None => None,
        }
    }
}

pub(crate) proof fn lemma_filter_first(a: Seq<Line>, b: Seq<Line>, keep: spec_fn(Line) -> bool)
    requires
        a.filter(keep).len() > 0,
    ensures
        (a + b).filter(keep).len() > 0,
        (a + b).filter(keep)[0] == a.filter(keep)[0],
    decreases b.len(),
{
    if b.len() == 0 {
        assert(a + b =~= a);
    } else {
        lemma_filter_first(a, b.drop_last(), keep);
        assert(a + b =~= (a + b.drop_last()).push(b.last()));
        lemma_filter_push(a + b.drop_last(), b.last(), keep);
    }
}

/// Headers that apply to a single transport connection and must never be forwarded.
pub open spec fn is_hop_by_hop(name: Seq<char>) -> bool {
    name == "connection"@ || name == "keep-alive"@ || name == "proxy-authenticate"@ || name
        == "proxy-authorization"@ || name == "te"@ || name == "trailer"@ || name
        == "transfer-encoding"@ || name == "upgrade"@
}

/// Whether one `Connection` value names a header.
pub open spec fn value_names(value: Seq<u8>, name: Seq<char>) -> bool {
    is_text(value) && exists|j: int|
        0 <= j < text::parts(ascii_chars(value), ',').len() && text::lowered(
            text::trimmed(#[trigger] text::parts(ascii_chars(value), ',')[j]),
        ) == name
}

/// Headers named by a `Connection` header are hop-by-hop for this message.
pub open spec fn nominated(lines: Seq<Line>, name: Seq<char>) -> bool {
    name.len() > 0 && exists|i: int|
        0 <= i < lines.len() && (#[trigger] lines[i]).0 == "connection"@ && value_names(
            lines[i].1,
            name,
        )
}

/// Whether a client's header stays on this side: it is hop-by-hop; or it is `Host`, which the
/// upstream client sets from the URL; or it is `Range`, which is decided per slice.
pub open spec fn held_back(lines: Seq<Line>, name: Seq<char>) -> bool {
    is_hop_by_hop(name) || nominated(lines, name) || name == "host"@ || name == "range"@
}

/// `X-Cache` values.
#[derive(Debug, Clone, Copy, PartialEq, Eq, Structural)]
pub enum CacheStatus {
    /// Every slice came from the store.
    Hit,
    /// No slice came from the store.
    Miss,
    /// Some did, some did not.
    Partial,
    /// Not cacheable; proxied through.
    Bypass,
}

impl CacheStatus {
    pub open spec fn name(self) -> Seq<char> {
        match self {
            CacheStatus::Hit => "HIT"@,
            CacheStatus::Miss => "MISS"@,
            CacheStatus::Partial => "PARTIAL"@,
            CacheStatus::Bypass => "BYPASS"@,
        }
    }

    pub fn as_str(self) -> (out: &'static str)
        ensures
            out@ == self.name(),
    {
        match self {
            CacheStatus::Hit => "HIT",
            CacheStatus::Miss => "MISS",
            CacheStatus::Partial => "PARTIAL",
            CacheStatus::Bypass => "BYPASS",
        }
    }

    /// Classify from how many of the planned slices were already resident. Where there is nothing
    /// to fetch, that is a hit.
    pub fn classify(resident: u32, total: u32) -> (out: Self)
        ensures
            out == (if total == 0 || resident == total {
                CacheStatus::Hit
            } else if resident == 0 {
                CacheStatus::Miss
            } else {
                CacheStatus::Partial
            }),
    {
        if total == 0 || resident == total {
            CacheStatus::Hit
        } else if resident == 0 {
            CacheStatus::Miss
        } else {
            CacheStatus::Partial
        }
    }
}

/// The names in the `Connection` headers, in small letters.
fn connection_named(headers: &HeaderMap) -> (out: Vec<String>)
    ensures
        forall|name: Seq<char>| #[trigger]
            text::texts(out@).contains(name) <==> nominated(headers@, name),
{
    let mut out: Vec<String> = Vec::new();
    let n: usize = headers.entries.len();
    let ghost all = headers@;
    for i in 0..n
        invariant
            n == headers.entries@.len(),
            all == headers@,
            forall|name: Seq<char>| #[trigger]
                text::texts(out@).contains(name) <==> nominated(all.take(i as int), name),
    {
        proof {
            lemma_header_names();
        }
        let h = &headers.entries[i];
        let ghost line = line_of(*h);
        let ghost before = all.take(i as int);
        let ghost now = all.take(i + 1);
        assert(now =~= before.push(line));
        assert forall|name: Seq<char>|
            nominated(now, name) <==> nominated(before, name) || (name.len() > 0 && line.0
                == "connection"@ && value_names(line.1, name)) by {
            if nominated(now, name) {
                let k = choose|k: int|
                    0 <= k < now.len() && (#[trigger] now[k]).0 == "connection"@ && value_names(
                        now[k].1,
                        name,
                    );
                if k < i {
                    assert(before[k] == now[k]);
                }
            }
            if nominated(before, name) {
                let k = choose|k: int|
                    0 <= k < before.len() && (#[trigger] before[k]).0 == "connection"@
                        && value_names(before[k].1, name);
                assert(now[k] == before[k]);
            }
            assert(now[i as int] == line);
        }
        if is_named(h, "connection") {
            match text_bytes(h.value.as_slice()) {
                Some(chars) => add_names(&mut out, chars.as_slice(), Ghost(line.1)),
                None => {},
            }
        }
    }
    assert(all.take(n as int) =~= all);
    out
}

/// Adds the names in one `Connection` value.
fn add_names(out: &mut Vec<String>, chars: &[char], Ghost(value): Ghost<Seq<u8>>)
    requires
        is_text(value),
        chars@ == ascii_chars(value),
    ensures
        forall|name: Seq<char>| #[trigger]
            text::texts(final(out)@).contains(name) <==> text::texts(old(out)@).contains(name) || (
            name.len() > 0 && value_names(value, name)),
{
    let parts = text::split(chars, ',');
    let ghost all = text::seqs(parts@);
    let m: usize = parts.len();
    for j in 0..m
        invariant
            m == parts@.len(),
            all == text::seqs(parts@),
            forall|name: Seq<char>| #[trigger]
                text::texts(out@).contains(name) <==> text::texts(old(out)@).contains(name) || (
                name.len() > 0 && exists|k: int|
                    0 <= k < j && text::lowered(text::trimmed(#[trigger] all[k])) == name),
    {
        let token = text::lower(text::trim(parts[j].as_slice()));
        let ghost before = text::texts(out@);
        assert(all[j as int] == parts@[j as int]@);
        if token.len() > 0 {
            out.push(text::string_of(token.as_slice()));
            proof {
                let now = text::texts(out@);
                assert(now =~= before.push(token@));
                assert forall|name: Seq<char>| #[trigger]
                    now.contains(name) <==> before.contains(name) || name == token@ by {
                    if now.contains(name) {
                        let k = choose|k: int| 0 <= k < now.len() && now[k] == name;
                        if k < before.len() {
                            assert(before[k] == name);
                        }
                    }
                    if before.contains(name) {
                        let k = choose|k: int| 0 <= k < before.len() && before[k] == name;
                        assert(now[k] == name);
                    }
                    assert(now[before.len() as int] == token@);
                }
            }
        }
    }
}

fn known_hop_by_hop(name: &str) -> (out: bool)
    ensures
        out == is_hop_by_hop(name@),
{
    text::same(name, "connection") || text::same(name, "keep-alive") || text::same(
        name,
        "proxy-authenticate",
    ) || text::same(name, "proxy-authorization") || text::same(name, "te") || text::same(
        name,
        "trailer",
    ) || text::same(name, "transfer-encoding") || text::same(name, "upgrade")
}

/// The lines that are sent upstream: everything the client sent that is not held back.
pub open spec fn forwarded_lines(lines: Seq<Line>) -> Seq<Line> {
    lines.filter(|l: Line| !held_back(lines, l.0))
}

/// Headers to send upstream: everything the client sent that is not held back.
///
/// `User-Agent` is deliberately forwarded: several services vary their response on it.
pub fn forwarded_request_headers(client: &HeaderMap) -> (out: HeaderMap)
    ensures
        out@ == forwarded_lines(client@),
{
    let named = connection_named(client);
    let mut out = HeaderMap::new();
    let n: usize = client.entries.len();
    let ghost all = client@;
    let ghost keep = |l: Line| !held_back(client@, l.0);
    assert(all.take(0) =~= Seq::empty());
    assert(all.take(0).filter(keep) =~= Seq::empty()) by {
        reveal(Seq::filter);
    }
    for i in 0..n
        invariant
            n == client.entries@.len(),
            all == client@,
            keep == (|l: Line| !held_back(client@, l.0)),
            forall|name: Seq<char>| #[trigger]
                text::texts(named@).contains(name) <==> nominated(client@, name),
            out@ == all.take(i as int).filter(keep),
    {
        let h = &client.entries[i];
        proof {
            assert(all.take(i + 1) =~= all.take(i as int).push(line_of(*h)));
            lemma_filter_push(all.take(i as int), line_of(*h), keep);
        }
        let chars = text::chars_of(h.name.as_str());
        let lower = text::string_of(text::lower(chars.as_slice()).as_slice());
        let name = lower.as_str();
        assert(text::texts(named@).contains(name@) <==> nominated(client@, name@));
        if !known_hop_by_hop(name) && !text::among(&named, name) && !text::same(name, "host")
            && !text::same(name, "range") {
            out.append(h.name.as_str(), h.value.as_slice());
        }
    }
    assert(all.take(n as int) =~= all);
    out
}

/// Response headers describing the entity, which must survive caching.
pub open spec fn preserved_names() -> Seq<Seq<char>> {
    seq![
        "content-type"@,
        "etag"@,
        "last-modified"@,
        "cache-control"@,
        "content-encoding"@,
        "content-language"@,
        "expires"@,
    ]
}

/// The lines under each of some names, name by name.
pub open spec fn lines_by_name(lines: Seq<Line>, names: Seq<Seq<char>>) -> Seq<Line>
    decreases names.len(),
{
    if names.len() == 0 {
        Seq::empty()
    } else {
        lines_by_name(lines, names.drop_last()) + lines_named(lines, names.last())
    }
}

fn add_named(out: &mut HeaderMap, from: &HeaderMap, name: &str)
    ensures
        final(out)@ == old(out)@ + lines_named(from@, name@),
{
    let n: usize = from.entries.len();
    let ghost all = from@;
    let ghost keep = |l: Line| l.0 == text::lowered(name@);
    assert(all.take(0) =~= Seq::empty());
    assert(all.take(0).filter(keep) =~= Seq::empty()) by {
        reveal(Seq::filter);
    }
    assert(out@ =~= old(out)@ + all.take(0).filter(keep));
    for i in 0..n
        invariant
            n == from.entries@.len(),
            all == from@,
            keep == (|l: Line| l.0 == text::lowered(name@)),
            out@ == old(out)@ + all.take(i as int).filter(keep),
    {
        let h = &from.entries[i];
        proof {
            assert(all.take(i + 1) =~= all.take(i as int).push(line_of(*h)));
            lemma_filter_push(all.take(i as int), line_of(*h), keep);
        }
        if is_named(h, name) {
            out.append(h.name.as_str(), h.value.as_slice());
        }
        assert(out@ =~= old(out)@ + all.take(i + 1).filter(keep));
    }
    assert(all.take(n as int) =~= all);
}

/// Entity headers worth storing with an object and replaying on a hit.
pub fn preserved_response_headers(upstream: &HeaderMap) -> (out: HeaderMap)
    ensures
        out@ == lines_by_name(upstream@, preserved_names()),
{
    let mut out = HeaderMap::new();
    add_named(&mut out, upstream, "content-type");
    add_named(&mut out, upstream, "etag");
    add_named(&mut out, upstream, "last-modified");
    add_named(&mut out, upstream, "cache-control");
    add_named(&mut out, upstream, "content-encoding");
    add_named(&mut out, upstream, "content-language");
    add_named(&mut out, upstream, "expires");
    proof {
        let l = upstream@;
        let p = preserved_names();
        reveal_with_fuel(lines_by_name, 8);
        assert(p.drop_last() =~= p.take(6));
        assert(p.take(6).drop_last() =~= p.take(5));
        assert(p.take(5).drop_last() =~= p.take(4));
        assert(p.take(4).drop_last() =~= p.take(3));
        assert(p.take(3).drop_last() =~= p.take(2));
        assert(p.take(2).drop_last() =~= p.take(1));
        assert(p.take(1).drop_last() =~= p.take(0));
        assert(Seq::<Line>::empty() + lines_named(l, p[0]) =~= lines_by_name(l, p.take(1)));
    }
    out
}

/// The lines of a response once the headers that clients of this network expect are on it. A host
/// name that cannot stand in a header is left out.
pub open spec fn with_cache_headers(lines: Seq<Line>, status: CacheStatus, host: Seq<u8>) -> Seq<
    Line,
> {
    let marked = lines_not_named(lines, "x-cache"@).push(
        ("x-cache"@, vstd::utf8::encode_utf8(status.name())),
    );
    if is_valid_value(host) {
        lines_not_named(marked, "x-lancache-processed-by"@).push(
            ("x-lancache-processed-by"@, host),
        )
    } else {
        marked
    }
}

proof fn lemma_header_names()
    ensures
        text::lowered("connection"@) == "connection"@,
        text::lowered("x-cache"@) == "x-cache"@,
        text::lowered("x-lancache-processed-by"@) == "x-lancache-processed-by"@,
{
    reveal_strlit("connection");
    reveal_strlit("x-cache");
    reveal_strlit("x-lancache-processed-by");
    assert(text::lowered("connection"@) =~= "connection"@);
    assert(text::lowered("x-cache"@) =~= "x-cache"@);
    assert(text::lowered("x-lancache-processed-by"@) =~= "x-lancache-processed-by"@);
}

/// Add the headers that are expected on every response.
pub fn add_cache_headers(headers: &mut HeaderMap, status: CacheStatus, hostname: &str)
    ensures
        final(headers)@ == with_cache_headers(
            old(headers)@,
            status,
            vstd::utf8::encode_utf8(hostname@),
        ),
{
    proof {
        lemma_header_names();
    }
    headers.insert("x-cache", status.as_str().as_bytes());
    if valid_value(hostname.as_bytes()) {
        headers.insert("x-lancache-processed-by", hostname.as_bytes());
    }
}

/// Nothing that is bound to one connection is ever forwarded, nor are `Host` and `Range`; and
/// everything else is.
pub proof fn forwarding_drops_exactly_what_is_held_back(lines: Seq<Line>, line: Line)
    ensures
        forwarded_lines(lines).contains(line) <==> lines.contains(line)
            && !held_back(lines, line.0),
{
    let keep = |l: Line| !held_back(lines, l.0);
    broadcast use vstd::seq_lib::group_filter_ensures;

    let kept = lines.filter(keep);
    if kept.contains(line) {
        let k = choose|k: int| 0 <= k < kept.len() && kept[k] == line;
        assert(keep(kept[k]));
        lemma_filter_within(lines, keep, k);
    }
    if lines.contains(line) && keep(line) {
        assert(kept.contains(line));
    }
}

proof fn lemma_filter_within(lines: Seq<Line>, keep: spec_fn(Line) -> bool, k: int)
    requires
        0 <= k < lines.filter(keep).len(),
    ensures
        lines.contains(lines.filter(keep)[k]),
    decreases lines.len(),
{
    reveal(Seq::filter);
    let kept = lines.filter(keep);
    if lines.len() > 0 {
        let before = lines.drop_last();
        if k < before.filter(keep).len() {
            lemma_filter_within(before, keep, k);
            let m = choose|m: int| 0 <= m < before.len() && before[m] == kept[k];
            assert(lines[m] == kept[k]);
        } else {
            assert(kept[k] == lines.last());
            assert(lines[lines.len() - 1] == kept[k]);
        }
    }
}

proof fn lemma_filter_joined(a: Seq<Line>, b: Seq<Line>, keep: spec_fn(Line) -> bool)
    ensures
        (a + b).filter(keep) == a.filter(keep) + b.filter(keep),
    decreases b.len(),
{
    reveal(Seq::filter);
    if b.len() == 0 {
        assert(a + b =~= a);
        assert(a.filter(keep) + b.filter(keep) =~= a.filter(keep));
    } else {
        lemma_filter_joined(a, b.drop_last(), keep);
        assert((a + b).drop_last() =~= a + b.drop_last());
        assert((a + b).filter(keep) =~= a.filter(keep) + b.filter(keep));
    }
}

proof fn lemma_filter_all(a: Seq<Line>, keep: spec_fn(Line) -> bool)
    ensures
        (forall|i: int| 0 <= i < a.len() ==> keep(#[trigger] a[i])) ==> a.filter(keep) == a,
        (forall|i: int| 0 <= i < a.len() ==> !keep(#[trigger] a[i])) ==> a.filter(keep)
            == Seq::<Line>::empty(),
    decreases a.len(),
{
    reveal(Seq::filter);
    if a.len() > 0 {
        let front = a.drop_last();
        lemma_filter_all(front, keep);
        if forall|i: int| 0 <= i < a.len() ==> keep(#[trigger] a[i]) {
            assert forall|i: int| 0 <= i < front.len() implies keep(#[trigger] front[i]) by {
                assert(keep(a[i]));
            }
            assert(keep(a[a.len() - 1]));
            assert(front.push(a.last()) =~= a);
        }
        if forall|i: int| 0 <= i < a.len() ==> !keep(#[trigger] a[i]) {
            assert forall|i: int| 0 <= i < front.len() implies !keep(#[trigger] front[i]) by {
                assert(!keep(a[i]));
            }
            assert(!keep(a[a.len() - 1]));
        }
    } else {
        assert(a.filter(keep) =~= a);
        assert(a.filter(keep) =~= Seq::empty());
    }
}

/// The lines under a name are those that have it, in order, and the others are those that have not:
/// each line is judged by its own name, whatever stands around it and however the name is
/// capitalised.
pub proof fn lines_are_told_apart_by_their_names(
    a: Seq<Line>,
    b: Seq<Line>,
    line: Line,
    name: Seq<char>,
)
    ensures
        lines_named(a + b, name) == lines_named(a, name) + lines_named(b, name),
        lines_not_named(a + b, name) == lines_not_named(a, name) + lines_not_named(b, name),
        line.0 == text::lowered(name) ==> lines_named(seq![line], name) == seq![line]
            && lines_not_named(seq![line], name) == Seq::<Line>::empty(),
        line.0 != text::lowered(name) ==> lines_named(seq![line], name) == Seq::<Line>::empty()
            && lines_not_named(seq![line], name) == seq![line],
{
    let with = |l: Line| l.0 == text::lowered(name);
    let without = |l: Line| l.0 != text::lowered(name);
    lemma_filter_joined(a, b, with);
    lemma_filter_joined(a, b, without);
    let one = seq![line];
    assert(one[0] == line);
    lemma_filter_all(one, with);
    lemma_filter_all(one, without);
}

/// The value of a header is that of the first line with its name, where it is made of printable
/// ASCII and tabs; each of its bytes is one character. A header that is not there has none.
pub proof fn values_are_those_of_the_first_line(
    before: Seq<Line>,
    value: Seq<u8>,
    after: Seq<Line>,
    name: Seq<char>,
)
    requires
        forall|i: int| 0 <= i < before.len() ==> (#[trigger] before[i]).0 != text::lowered(name),
    ensures
        ({
            let found = text_value(
                before + seq![(text::lowered(name), value)] + after,
                name,
            );
            let printable = forall|i: int|
                0 <= i < value.len() ==> 0x20 <= #[trigger] value[i] <= 0x7e || value[i] == 0x09;
            &&& found is Some <==> printable
            &&& found matches Some(s) ==> s.len() == value.len() && forall|i: int|
                0 <= i < value.len() ==> #[trigger] s[i] as int == value[i]
        }),
        text_value(before, name) is None,
{
    let with = |l: Line| l.0 == text::lowered(name);
    let own = seq![(text::lowered(name), value)];
    lemma_filter_joined(before + own, after, with);
    lemma_filter_joined(before, own, with);
    assert(own[0] == (text::lowered(name), value));
    lemma_filter_all(own, with);
    assert forall|i: int| 0 <= i < before.len() implies !with(#[trigger] before[i]) by {}
    lemma_filter_all(before, with);
    let found = lines_named(before + own + after, name);
    assert(found == (Seq::<Line>::empty() + own) + after.filter(with));
    assert(found[0] == own[0]);
    assert(is_text(value) <==> (forall|i: int|
        0 <= i < value.len() ==> 0x20 <= #[trigger] value[i] <= 0x7e || value[i] == 0x09));
}

/// The headers that are bound to one connection, and the two that are not the client's to set.
pub open spec fn never_forwarded() -> Seq<Seq<char>> {
    seq![
        "connection"@,
        "keep-alive"@,
        "proxy-authenticate"@,
        "proxy-authorization"@,
        "te"@,
        "trailer"@,
        "transfer-encoding"@,
        "upgrade"@,
        "host"@,
        "range"@,
    ]
}

/// A header stays behind where it is one of those that always do, or where a `Connection` header
/// has its name in its list, between commas, in any case and with any white space around it. Every
/// other header goes on, in its place.
pub proof fn headers_go_on_unless_the_connection_keeps_them(lines: Seq<Line>, name: Seq<char>)
    ensures
        never_forwarded().contains(name) ==> held_back(lines, name),
        !never_forwarded().contains(name) && held_back(lines, name) ==> exists|i: int, j: int|
            0 <= i < lines.len() && lines[i].0 == "connection"@ && 0 <= j < text::parts(
                ascii_chars(lines[i].1),
                ',',
            ).len() && text::lowered(
                text::trimmed(#[trigger] text::parts(ascii_chars(lines[i].1), ',')[j]),
            ) == name,
        (forall|i: int| 0 <= i < lines.len() ==> !held_back(lines, (#[trigger] lines[i]).0))
            ==> forwarded_lines(lines) == lines,
{
    let all = never_forwarded();
    if all.contains(name) {
        let k = choose|k: int| 0 <= k < all.len() && all[k] == name;
        assert(is_hop_by_hop(name) || name == "host"@ || name == "range"@);
    } else if held_back(lines, name) {
        assert(all[0] == "connection"@ && all[1] == "keep-alive"@ && all[2]
            == "proxy-authenticate"@ && all[3] == "proxy-authorization"@ && all[4] == "te"@
            && all[5] == "trailer"@ && all[6] == "transfer-encoding"@ && all[7] == "upgrade"@
            && all[8] == "host"@ && all[9] == "range"@);
        assert(nominated(lines, name));
        let i = choose|i: int|
            0 <= i < lines.len() && (#[trigger] lines[i]).0 == "connection"@ && value_names(
                lines[i].1,
                name,
            );
        let j = choose|j: int|
            0 <= j < text::parts(ascii_chars(lines[i].1), ',').len() && text::lowered(
                text::trimmed(#[trigger] text::parts(ascii_chars(lines[i].1), ',')[j]),
            ) == name;
        assert(text::lowered(text::trimmed(text::parts(ascii_chars(lines[i].1), ',')[j])) == name);
    }
    let keep = |l: Line| !held_back(lines, l.0);
    lemma_filter_all(lines, keep);
}

/// A name in the list of a `Connection` header is held back.
pub proof fn named_by_the_connection_is_held_back(
    lines: Seq<Line>,
    at: int,
    part: int,
    before: Seq<char>,
    token: Seq<char>,
    after: Seq<char>,
)
    requires
        0 <= at < lines.len(),
        lines[at].0 == "connection"@,
        forall|i: int|
            0 <= i < lines[at].1.len() ==> 0x20 <= #[trigger] lines[at].1[i] <= 0x7e
                || lines[at].1[i] == 0x09,
        0 <= part < text::parts(ascii_chars(lines[at].1), ',').len(),
        text::parts(ascii_chars(lines[at].1), ',')[part] == before + token + after,
        forall|i: int| 0 <= i < before.len() ==> text::is_space(#[trigger] before[i]),
        forall|i: int| 0 <= i < after.len() ==> text::is_space(#[trigger] after[i]),
        token.len() > 0,
        !text::is_space(token[0]) && !text::is_space(token.last()),
    ensures
        held_back(lines, text::lowered(token)),
{
    text::trimming_takes_the_white_space_around(before, token, after);
    let value = lines[at].1;
    assert(is_text(value));
    let p = text::parts(ascii_chars(value), ',')[part];
    assert(text::lowered(text::trimmed(p)) == text::lowered(token));
    assert(value_names(value, text::lowered(token)));
    assert(nominated(lines, text::lowered(token)));
}

/// What describes an entity survives caching, and nothing else does: a line is kept exactly where
/// its name is one of these.
pub proof fn what_describes_an_entity_survives(lines: Seq<Line>, line: Line)
    ensures
        lines_by_name(lines, preserved_names()).contains(line) <==> lines.contains(line) && (line.0
            == "content-type"@ || line.0 == "etag"@ || line.0 == "last-modified"@ || line.0
            == "cache-control"@ || line.0 == "content-encoding"@ || line.0 == "content-language"@
            || line.0 == "expires"@),
{
    let names = preserved_names();
    lemma_lines_by_name(lines, names, line);
    lemma_preserved_are_small();
    assert(names[0] == "content-type"@ && names[1] == "etag"@ && names[2] == "last-modified"@
        && names[3] == "cache-control"@ && names[4] == "content-encoding"@ && names[5]
        == "content-language"@ && names[6] == "expires"@);
    if lines_by_name(lines, names).contains(line) {
        let k = choose|k: int|
            0 <= k < names.len() && text::lowered(#[trigger] names[k]) == line.0;
        assert(text::lowered(names[k]) == names[k]);
    }
    if line.0 == "content-type"@ {
        assert(text::lowered(names[0]) == line.0);
    } else if line.0 == "etag"@ {
        assert(text::lowered(names[1]) == line.0);
    } else if line.0 == "last-modified"@ {
        assert(text::lowered(names[2]) == line.0);
    } else if line.0 == "cache-control"@ {
        assert(text::lowered(names[3]) == line.0);
    } else if line.0 == "content-encoding"@ {
        assert(text::lowered(names[4]) == line.0);
    } else if line.0 == "content-language"@ {
        assert(text::lowered(names[5]) == line.0);
    } else if line.0 == "expires"@ {
        assert(text::lowered(names[6]) == line.0);
    }
}

proof fn lemma_preserved_are_small()
    ensures
        forall|k: int|
            0 <= k < preserved_names().len() ==> text::lowered(#[trigger] preserved_names()[k])
                == preserved_names()[k],
{
    reveal_strlit("content-type");
    reveal_strlit("etag");
    reveal_strlit("last-modified");
    reveal_strlit("cache-control");
    reveal_strlit("content-encoding");
    reveal_strlit("content-language");
    reveal_strlit("expires");
    let names = preserved_names();
    assert(text::lowered(names[0]) =~= names[0]);
    assert(text::lowered(names[1]) =~= names[1]);
    assert(text::lowered(names[2]) =~= names[2]);
    assert(text::lowered(names[3]) =~= names[3]);
    assert(text::lowered(names[4]) =~= names[4]);
    assert(text::lowered(names[5]) =~= names[5]);
    assert(text::lowered(names[6]) =~= names[6]);
}

proof fn lemma_named_contains(lines: Seq<Line>, name: Seq<char>, line: Line)
    ensures
        lines_named(lines, name).contains(line) <==> lines.contains(line) && line.0
            == text::lowered(name),
        lines_not_named(lines, name).contains(line) <==> lines.contains(line) && line.0
            != text::lowered(name),
{
    let with = |l: Line| l.0 == text::lowered(name);
    let without = |l: Line| l.0 != text::lowered(name);
    lemma_filter_contains(lines, with, line);
    lemma_filter_contains(lines, without, line);
}

proof fn lemma_filter_contains(lines: Seq<Line>, keep: spec_fn(Line) -> bool, line: Line)
    ensures
        lines.filter(keep).contains(line) <==> lines.contains(line) && keep(line),
{
    broadcast use vstd::seq_lib::group_filter_ensures;

    let kept = lines.filter(keep);
    if kept.contains(line) {
        let k = choose|k: int| 0 <= k < kept.len() && kept[k] == line;
        assert(keep(kept[k]));
        lemma_filter_within(lines, keep, k);
    }
    if lines.contains(line) && keep(line) {
        assert(kept.contains(line));
    }
}

proof fn lemma_lines_by_name(lines: Seq<Line>, names: Seq<Seq<char>>, line: Line)
    ensures
        lines_by_name(lines, names).contains(line) <==> lines.contains(line) && exists|k: int|
            0 <= k < names.len() && text::lowered(#[trigger] names[k]) == line.0,
    decreases names.len(),
{
    if names.len() > 0 {
        let front = names.drop_last();
        lemma_lines_by_name(lines, front, line);
        lemma_named_contains(lines, names.last(), line);
        let a = lines_by_name(lines, front);
        let b = lines_named(lines, names.last());
        let all = a + b;
        if all.contains(line) {
            let k = choose|k: int| 0 <= k < all.len() && all[k] == line;
            if k < a.len() {
                assert(a[k] == line);
                let m = choose|m: int|
                    0 <= m < front.len() && text::lowered(#[trigger] front[m]) == line.0;
                assert(names[m] == front[m]);
            } else {
                assert(b[k - a.len()] == line);
                assert(text::lowered(names[names.len() - 1]) == line.0);
            }
        }
        if lines.contains(line) && exists|k: int|
            0 <= k < names.len() && text::lowered(#[trigger] names[k]) == line.0 {
            let k = choose|k: int|
                0 <= k < names.len() && text::lowered(#[trigger] names[k]) == line.0;
            if k < front.len() {
                assert(text::lowered(front[k]) == line.0);
                let m = choose|m: int| 0 <= m < a.len() && a[m] == line;
                assert(all[m] == line);
            } else {
                let m = choose|m: int| 0 <= m < b.len() && b[m] == line;
                assert(all[a.len() + m] == line);
            }
        }
    }
}

/// An answer says once, behind whatever the origin sent, how it was come by, and once which host
/// sent it where that can be written; every other line is as it was.
pub proof fn answers_are_marked_once(
    lines: Seq<Line>,
    status: CacheStatus,
    host: Seq<u8>,
    line: Line,
)
    ensures
        ({
            let marked = with_cache_headers(lines, status, host);
            let shown = vstd::utf8::encode_utf8(
                match status {
                    CacheStatus::Hit => "HIT"@,
                    CacheStatus::Miss => "MISS"@,
                    CacheStatus::Partial => "PARTIAL"@,
                    CacheStatus::Bypass => "BYPASS"@,
                },
            );
            let writable = forall|i: int|
                0 <= i < host.len() ==> (#[trigger] host[i] >= 0x20 && host[i] != 0x7f) || host[i]
                    == 0x09;
            &&& lines_named(marked, "x-cache"@) == seq![("x-cache"@, shown)]
            &&& writable ==> lines_named(marked, "x-lancache-processed-by"@) == seq![
                ("x-lancache-processed-by"@, host),
            ]
            &&& line.0 != "x-cache"@ && (line.0 != "x-lancache-processed-by"@ || !writable) ==> (
            marked.contains(line) <==> lines.contains(line))
        }),
{
    lemma_header_names();
    reveal_strlit("x-cache");
    reveal_strlit("x-lancache-processed-by");
    assert("x-cache"@.len() != "x-lancache-processed-by"@.len());
    let own: Line = ("x-cache"@, vstd::utf8::encode_utf8(status.name()));
    let by: Line = ("x-lancache-processed-by"@, host);
    let rest = lines_not_named(lines, "x-cache"@);
    let marked = rest.push(own);
    lemma_only(lines, own, "x-cache"@);
    lemma_named_contains(lines, "x-cache"@, line);
    lemma_push_contains(rest, own, line);
    if is_valid_value(host) {
        let left = lines_not_named(marked, "x-lancache-processed-by"@);
        lemma_only(marked, by, "x-lancache-processed-by"@);
        lemma_named_contains(marked, "x-lancache-processed-by"@, line);
        lemma_push_contains(left, by, line);
        lemma_still_only(marked, by, own, "x-cache"@, "x-lancache-processed-by"@);
    }
    assert(is_valid_value(host) <==> (forall|i: int|
        0 <= i < host.len() ==> (#[trigger] host[i] >= 0x20 && host[i] != 0x7f) || host[i]
            == 0x09));
}

proof fn lemma_push_contains(lines: Seq<Line>, own: Line, line: Line)
    ensures
        lines.push(own).contains(line) <==> lines.contains(line) || line == own,
{
    let all = lines.push(own);
    if all.contains(line) {
        let k = choose|k: int| 0 <= k < all.len() && all[k] == line;
        if k < lines.len() {
            assert(lines[k] == line);
        }
    }
    if lines.contains(line) {
        let k = choose|k: int| 0 <= k < lines.len() && lines[k] == line;
        assert(all[k] == line);
    }
    assert(all[lines.len() as int] == own);
}

/// A line that replaces all of its name is the only one of it.
proof fn lemma_only(lines: Seq<Line>, own: Line, name: Seq<char>)
    requires
        own.0 == name,
        text::lowered(name) == name,
    ensures
        lines_named(lines_not_named(lines, name).push(own), name) == seq![own],
{
    let with = |l: Line| l.0 == text::lowered(name);
    let rest = lines_not_named(lines, name);
    assert forall|i: int| 0 <= i < rest.len() implies !with(#[trigger] rest[i]) by {
        assert(rest.contains(rest[i]));
        lemma_named_contains(lines, name, rest[i]);
    }
    lemma_filter_all(rest, with);
    lemma_filter_push(rest, own, with);
    assert(Seq::<Line>::empty().push(own) =~= seq![own]);
}

/// Replacing the lines of one name leaves the only line of another.
proof fn lemma_still_only(
    lines: Seq<Line>,
    by: Line,
    own: Line,
    name: Seq<char>,
    other: Seq<char>,
)
    requires
        by.0 == other,
        text::lowered(name) == name,
        text::lowered(other) == other,
        name != other,
        lines_named(lines, name) == seq![own],
    ensures
        lines_named(lines_not_named(lines, other).push(by), name) == seq![own],
{
    let with = |l: Line| l.0 == text::lowered(name);
    let without = |l: Line| l.0 != text::lowered(other);
    let rest = lines.filter(without);
    lemma_filter_twice(lines, without, with);
    lemma_filter_push(rest, by, with);
}

proof fn lemma_filter_twice(
    lines: Seq<Line>,
    wide: spec_fn(Line) -> bool,
    narrow: spec_fn(Line) -> bool,
)
    requires
        forall|l: Line| #[trigger] narrow(l) ==> wide(l),
    ensures
        lines.filter(wide).filter(narrow) == lines.filter(narrow),
    decreases lines.len(),
{
    reveal(Seq::filter);
    if lines.len() > 0 {
        let front = lines.drop_last();
        lemma_filter_twice(front, wide, narrow);
        if wide(lines.last()) {
            lemma_filter_push(front.filter(wide), lines.last(), narrow);
        }
    } else {
        assert(lines.filter(wide) =~= lines);
    }
}

} // verus!
