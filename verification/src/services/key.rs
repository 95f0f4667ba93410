//! Cache key normalisation.
//!
//! The same content is served from many CDN host names with many query strings, and the value of
//! a LAN cache is that all of those collapse to one stored object.
//!
//! By default the query string is dropped, because CDNs put tokens and expiry times there, and the
//! host is left out, because two hosts of one service serve the same bytes. Both can be turned
//! around per service.
use crate::config::rules::ServiceRule;
use crate::config::units;
use crate::config::units::quoted;
use crate::services::matcher;
use crate::services::matcher::Matcher;
use crate::store::slice;
use crate::store::slice::{blake3_hash, leading_id};
use crate::text;
use crate::wire;
use vstd::prelude::*;
use vstd::string::*;
use vstd::utf8::*;

verus! {

/// A set of compiled regular expressions.
#[verifier::external_type_specification]
#[verifier::external_body]
pub struct ExRegexSet(regex::RegexSet);

/// The patterns that a set was compiled from.
pub uninterp spec fn patterns_of_set(set: regex::RegexSet) -> Seq<Seq<char>>;

/// Whether a regular expression matches somewhere in a text.
pub uninterp spec fn regex_matches(pattern: Seq<char>, haystack: Seq<char>) -> bool;

/// What is wrong with a regular expression, if anything is.
pub uninterp spec fn regex_fault(pattern: Seq<char>) -> Option<Seq<char>>;

/// What is wrong with some regular expressions as one set, if anything is. A set can be too large
/// where none of its patterns is.
pub uninterp spec fn regex_set_fault(patterns: Seq<Seq<char>>) -> Option<Seq<char>>;

/// Calls `regex::Regex::new` and keeps the text of its error. Whether a pattern compiles, and what
/// the error says, depends on the pattern alone.
#[verifier::external_body]
fn check_regex(pattern: &str) -> (out: Result<(), String>)
    ensures
        match regex_fault(pattern@) {
            None => out is Ok,
            Some(e) => out matches Err(s) && s@ == e,
        },
{
    match regex::Regex::new(pattern) {
        Ok(_) => Ok(()),
        Err(e) => Err(e.to_string()),
    }
}

/// Calls `regex::RegexSet::new` and keeps the text of its error. The set holds the patterns it was
/// given, in order.
#[verifier::external_body]
fn compile_set(patterns: &Vec<String>) -> (out: Result<regex::RegexSet, String>)
    ensures
        match regex_set_fault(text::texts(patterns@)) {
            None => out matches Ok(set) && patterns_of_set(set) == text::texts(patterns@),
            Some(e) => out matches Err(s) && s@ == e,
        },
{
    match regex::RegexSet::new(patterns) {
        Ok(set) => Ok(set),
        Err(e) => Err(e.to_string()),
    }
}

/// Whether any of some patterns matches.
pub open spec fn any_matches(patterns: Seq<Seq<char>>, haystack: Seq<char>) -> bool {
    exists|i: int| 0 <= i < patterns.len() && regex_matches(#[trigger] patterns[i], haystack)
}

/// Calls `regex::RegexSet::is_match`, which says whether at least one of the patterns in the set
/// matches somewhere in the text.
#[verifier::external_body]
fn set_matches(set: &regex::RegexSet, haystack: &str) -> (out: bool)
    ensures
        out == (exists|i: int|
            0 <= i < patterns_of_set(*set).len() && regex_matches(
                #[trigger] patterns_of_set(*set)[i],
                haystack@,
            )),
{
    set.is_match(haystack)
}

/// A service's key rule with its patterns compiled.
///
/// Compiled once when the configuration is loaded rather than per request.
#[derive(Debug)]
pub struct CompiledRule {
    pub keep_query: bool,
    pub include_host: bool,
    /// Fetch upstream over https regardless of the client's scheme.
    pub upstream_https: bool,
    /// The patterns that a path has to match one of, if there are any.
    pub wanted: Option<regex::RegexSet>,
    /// The patterns that no cached path matches.
    pub unwanted: Option<regex::RegexSet>,
}

/// A pattern that is no regular expression, with the service and the field it stands in.
#[derive(Debug, PartialEq, Eq)]
pub struct CompileError {
    pub service: String,
    pub field: &'static str,
    pub pattern: String,
    pub source: String,
}

impl CompileError {
    pub open spec fn message_spec(self) -> Seq<char> {
        "service "@ + units::quoted_text(self.service@) + ": "@ + self.field@ + " pattern "@
            + units::quoted_text(self.pattern@) + " is not a valid regex: "@ + self.source@
    }

    /// The error in words.
    pub fn message(&self) -> (out: String)
        ensures
            out@ == self.message_spec(),
    {
        let mut out = "service ".to_owned();
        out.append(quoted(self.service.as_str()).as_str());
        out.append(": ");
        out.append(self.field);
        out.append(" pattern ");
        out.append(quoted(self.pattern.as_str()).as_str());
        out.append(" is not a valid regex: ");
        out.append(self.source.as_str());
        out
    }
}

/// The first pattern that is no regular expression and what is wrong with it; where there is none,
/// all of them if they are too much together.
pub open spec fn patterns_fault(patterns: Seq<Seq<char>>) -> Option<(Seq<char>, Seq<char>)> {
    match first_fault(patterns) {
        Some(f) => Some(f),
        None => if patterns.len() == 0 {
            None
        } else {
            match regex_set_fault(patterns) {
                Some(e) => Some((text::joined(patterns, ", "@), e)),
                None => None,
            }
        },
    }
}

pub open spec fn first_fault(patterns: Seq<Seq<char>>) -> Option<(Seq<char>, Seq<char>)>
    decreases patterns.len(),
{
    if patterns.len() == 0 {
        None
    } else {
        match regex_fault(patterns[0]) {
            Some(e) => Some((patterns[0], e)),
            None => first_fault(patterns.skip(1)),
        }
    }
}

/// Whether a set is the one for some patterns: none for none.
pub open spec fn compiled_from(set: Option<regex::RegexSet>, patterns: Seq<String>) -> bool {
    match set {
        Some(s) => patterns.len() > 0 && patterns_of_set(s) == text::texts(patterns),
        None => patterns.len() == 0,
    }
}

/// The field, the pattern and the fault of the first pattern of a rule that cannot be compiled.
pub open spec fn compile_fault(rule: ServiceRule) -> Option<(Seq<char>, Seq<char>, Seq<char>)> {
    match patterns_fault(text::texts(rule.include_paths@)) {
        Some((p, why)) => Some(("include_paths"@, p, why)),
        None => match patterns_fault(text::texts(rule.exclude_paths@)) {
            Some((p, why)) => Some(("exclude_paths"@, p, why)),
            None => None,
        },
    }
}

/// Whether a rule keeps a path: it matches none of the excluded patterns, and one of the included
/// ones where there are any.
pub open spec fn rule_keeps(rule: ServiceRule, path: Seq<char>) -> bool {
    &&& !any_matches(text::texts(rule.exclude_paths@), path)
    &&& rule.include_paths@.len() > 0 ==> any_matches(text::texts(rule.include_paths@), path)
}

/// The set for a field of a rule. A field without patterns has none.
fn build(service: &str, patterns: &Vec<String>, field: &'static str) -> (out: Result<
    Option<regex::RegexSet>,
    CompileError,
>)
    ensures
        match patterns_fault(text::texts(patterns@)) {
            Some((p, why)) => {
                &&& out matches Err(e)
                &&& e.service@ == service@
                &&& e.field@ == field@
                &&& e.pattern@ == p
                &&& e.source@ == why
            },
            None => {
                &&& out matches Ok(o)
                &&& compiled_from(o, patterns@)
            },
        },
{
    let n: usize = patterns.len();
    let ghost all = text::texts(patterns@);
    assert(all.skip(0) =~= all);
    for i in 0..n
        invariant
            n == patterns@.len(),
            all == text::texts(patterns@),
            first_fault(all) == first_fault(all.skip(i as int)),
    {
        assert(all.skip(i as int)[0] == patterns@[i as int]@);
        assert(all.skip(i as int).skip(1) =~= all.skip(i as int + 1));
        match check_regex(patterns[i].as_str()) {
            Ok(()) => {},
            Err(source) => return Err(
                CompileError {
                    service: service.to_owned(),
                    field,
                    pattern: patterns[i].clone(),
                    source,
                },
            ),
        }
    }
    if n == 0 {
        return Ok(None);
    }
    match compile_set(patterns) {
        Ok(set) => Ok(Some(set)),
        Err(source) => Err(
            CompileError {
                service: service.to_owned(),
                field,
                pattern: text::join(patterns, ", "),
                source,
            },
        ),
    }
}

/// What decides on caching, once the patterns have been tried: an exclusion always wins, and where
/// anything is asked for by name, only that is cached.
pub fn cacheable(unwanted: bool, wanted: Option<bool>) -> (out: bool)
    ensures
        out == (!unwanted && (wanted matches Some(w) ==> w)),
{
    if unwanted {
        return false;
    }
    match wanted {
        Some(w) => w,
        None => true,
    }
}

impl Default for CompiledRule {
    fn default() -> (out: Self)
        ensures
            !out.keep_query,
            !out.include_host,
            !out.upstream_https,
            out.wanted is None,
            out.unwanted is None,
    {
        CompiledRule {
            keep_query: false,
            include_host: false,
            upstream_https: false,
            wanted: None,
            unwanted: None,
        }
    }
}

impl CompiledRule {
    /// Compiles the patterns of a rule. The first pattern that cannot be compiled is named.
    pub fn compile(service: &str, rule: &ServiceRule) -> (out: Result<Self, CompileError>)
        ensures
            match compile_fault(*rule) {
                Some((field, p, why)) => {
                    &&& out matches Err(e)
                    &&& e.service@ == service@
                    &&& e.field@ == field
                    &&& e.pattern@ == p
                    &&& e.source@ == why
                },
                None => out matches Ok(o) && o.compiles(*rule),
            },
    {
        let wanted = match build(service, &rule.include_paths, "include_paths") {
            Ok(set) => set,
            Err(e) => return Err(e),
        };
        let unwanted = match build(service, &rule.exclude_paths, "exclude_paths") {
            Ok(set) => set,
            Err(e) => return Err(e),
        };
        Ok(
            CompiledRule {
                keep_query: rule.keep_query,
                include_host: rule.include_host,
                upstream_https: rule.upstream_https,
                wanted,
                unwanted,
            },
        )
    }

    /// Whether this is what a rule compiles to.
    pub open spec fn compiles(self, rule: ServiceRule) -> bool {
        &&& self.keep_query == rule.keep_query
        &&& self.include_host == rule.include_host
        &&& self.upstream_https == rule.upstream_https
        &&& compiled_from(self.wanted, rule.include_paths@)
        &&& compiled_from(self.unwanted, rule.exclude_paths@)
    }

    /// A compiled rule keeps what the rule keeps.
    pub proof fn keeps_what_it_was_compiled_from(self, rule: ServiceRule, path: Seq<char>)
        requires
            self.compiles(rule),
        ensures
            self.caches(path) == rule_keeps(rule, path),
    {
    }

    /// Whether a path is to be cached: it matches no unwanted pattern, and one of the wanted ones
    /// where there are any.
    pub open spec fn caches(self, path: Seq<char>) -> bool {
        &&& self.unwanted matches Some(set) ==> !any_matches(patterns_of_set(set), path)
        &&& self.wanted matches Some(set) ==> any_matches(patterns_of_set(set), path)
    }

    /// Whether a path is cacheable under this rule.
    ///
    /// Exclusions win over inclusions: an exclusion says not to cache something, and a broader
    /// inclusion should not override that.
    pub fn is_cacheable(&self, path: &str) -> (out: bool)
        ensures
            out == self.caches(path@),
    {
        let unwanted = match &self.unwanted {
            Some(set) => set_matches(set, path),
            None => false,
        };
        let wanted = match &self.wanted {
            Some(set) => Some(set_matches(set, path)),
            None => None,
        };
        cacheable(unwanted, wanted)
    }
}

/// The normalised cache key for a request.
#[derive(Debug, PartialEq, Eq)]
pub struct CacheKey {
    /// Human-readable, and what gets hashed.
    pub key: String,
    pub service: String,
}

/// What is hashed to name an object: the service, a zero byte, and the key.
pub open spec fn hashed_bytes(service: Seq<char>, key: Seq<char>) -> Seq<u8> {
    encode_utf8(service) + seq![0u8] + encode_utf8(key)
}

impl CacheKey {
    /// The first sixteen bytes of the BLAKE3 digest of the service, a zero byte and the key.
    ///
    /// The service is part of the hash so two services cannot collide on a path, and the separator
    /// means a service named `ab` with key `c` cannot collide with `a` and `bc`.
    pub fn object_id(&self) -> (out: [u8; 16])
        ensures
            out@ == slice::blake3_digest(hashed_bytes(self.service@, self.key@)).take(16),
    {
        let mut bytes: Vec<u8> = Vec::new();
        wire::put_bytes(&mut bytes, self.service.as_str().as_bytes());
        bytes.push(0);
        wire::put_bytes(&mut bytes, self.key.as_str().as_bytes());
        assert(bytes@ =~= hashed_bytes(self.service@, self.key@));
        let hash = blake3_hash(bytes.as_slice());
        leading_id(hash.as_slice())
    }
}

/// The value of a digit of base sixteen.
pub open spec fn hex_value(b: u8) -> Option<u8> {
    if 0x30 <= b <= 0x39 {
        Some((b - 0x30) as u8)
    } else if 0x61 <= b <= 0x66 {
        Some((b - 0x61 + 10) as u8)
    } else if 0x41 <= b <= 0x46 {
        Some((b - 0x41 + 10) as u8)
    } else {
        None
    }
}

/// Bytes with their percent escapes decoded. What is no complete escape is left as it is.
pub open spec fn unescaped(b: Seq<u8>) -> Seq<u8>
    decreases b.len(),
{
    if b.len() == 0 {
        Seq::empty()
    } else if b[0] == 0x25 && b.len() > 2 && hex_value(b[1]) is Some && hex_value(b[2]) is Some {
        seq![(hex_value(b[1])->0 * 16 + hex_value(b[2])->0) as u8] + unescaped(b.skip(3))
    } else {
        seq![b[0]] + unescaped(b.skip(1))
    }
}

/// A path with its percent escapes decoded, unless that gives no text.
pub open spec fn decoded_path(path: Seq<char>) -> Seq<char> {
    let bytes = unescaped(encode_utf8(path));
    if valid_utf8(bytes) {
        decode_utf8(bytes)
    } else {
        path
    }
}

/// The segments that are left once empty and `.` segments are dropped and each `..` has taken away
/// the one before it.
pub open spec fn resolved_segments(segments: Seq<Seq<char>>) -> Seq<Seq<char>>
    decreases segments.len(),
{
    if segments.len() == 0 {
        Seq::empty()
    } else {
        let before = resolved_segments(segments.drop_last());
        let last = segments.last();
        if last.len() == 0 || last == seq!['.'] {
            before
        } else if last == seq!['.', '.'] {
            if before.len() > 0 {
                before.drop_last()
            } else {
                before
            }
        } else {
            before.push(last)
        }
    }
}

/// Segments, each behind a slash.
pub open spec fn slashed(segments: Seq<Seq<char>>) -> Seq<char>
    decreases segments.len(),
{
    if segments.len() == 0 {
        Seq::empty()
    } else {
        slashed(segments.drop_last()).push('/') + segments.last()
    }
}

/// A path as it goes into a key.
pub open spec fn normalised_path(path: Seq<char>) -> Seq<char> {
    let decoded = decoded_path(path);
    let out = slashed(resolved_segments(text::parts(decoded, '/')));
    if out.len() == 0 {
        seq!['/']
    } else if decoded.len() > 0 && decoded.last() == '/' {
        out.push('/')
    } else {
        out
    }
}

/// Normalise a path the way nginx's `$uri` does: decoded, duplicate slashes collapsed, `.` and
/// `..` resolved.
///
/// With the raw path, an object would be cached twice under different keys whenever a client sent
/// `%41` for `A`. A `..` that would escape the root is dropped. A trailing slash is significant to
/// a CDN and is kept.
pub fn normalise_path(path: &str) -> (out: String)
    ensures
        out@ == normalised_path(path@),
{
    let decoded = percent_decode(path);
    let chars = text::chars_of(decoded.as_str());
    let segments = text::split(chars.as_slice(), '/');
    let n: usize = segments.len();
    let mut kept: Vec<usize> = Vec::new();
    let ghost all = text::seqs(segments@);
    let ghost mut left: Seq<Seq<char>> = Seq::empty();
    assert(all.take(0) =~= Seq::empty());
    for i in 0..n
        invariant
            n == segments@.len(),
            all == text::seqs(segments@),
            left == resolved_segments(all.take(i as int)),
            left.len() == kept@.len(),
            forall|j: int| 0 <= j < kept@.len() ==> #[trigger] kept@[j] < i && left[j] == all[kept@[j] as int],
    {
        let segment = &segments[i];
        assert(all.take(i + 1).drop_last() =~= all.take(i as int));
        assert(all.take(i + 1).last() == segment@);
        let k: usize = segment.len();
        if k == 0 || (k == 1 && segment[0] == '.') {
            assert(k == 1 ==> segment@ =~= seq!['.']);
        } else if k == 2 && segment[0] == '.' && segment[1] == '.' {
            assert(segment@ =~= seq!['.', '.']);
            if kept.len() > 0 {
                let _ = kept.pop();
                proof {
                    left = left.drop_last();
                }
            }
        } else {
            proof {
                assert(segment@ != seq!['.']) by {
                    assert(seq!['.'][0] == '.');
                }
                assert(segment@ != seq!['.', '.']) by {
                    assert(seq!['.', '.'][0] == '.' && seq!['.', '.'][1] == '.');
                }
                left = left.push(segment@);
            }
            kept.push(i);
        }
    }
    assert(all.take(n as int) =~= all);
    let mut out = String::new();
    let m: usize = kept.len();
    assert(left.take(0) =~= Seq::empty());
    for i in 0..m
        invariant
            m == kept@.len(),
            n == segments@.len(),
            all == text::seqs(segments@),
            left.len() == kept@.len(),
            forall|j: int| 0 <= j < kept@.len() ==> #[trigger] kept@[j] < n && left[j] == all[kept@[j] as int],
            out@ == slashed(left.take(i as int)),
    {
        assert(left.take(i + 1).drop_last() =~= left.take(i as int));
        assert(kept@[i as int] < n);
        out.push('/');
        out.append(text::string_of(segments[kept[i]].as_slice()).as_str());
    }
    assert(left.take(m as int) =~= left);
    let d: usize = chars.len();
    if out.as_str().is_empty() {
        out.push('/');
        assert(out@ =~= seq!['/']);
    } else if d > 0 && chars[d - 1] == '/' {
        out.push('/');
    }
    out
}

fn hex_digit(b: u8) -> (out: Option<u8>)
    ensures
        out == hex_value(b),
        out matches Some(v) ==> v < 16,
{
    if 0x30 <= b && b <= 0x39 {
        Some(b - 0x30)
    } else if 0x61 <= b && b <= 0x66 {
        Some(b - 0x61 + 10)
    } else if 0x41 <= b && b <= 0x46 {
        Some(b - 0x41 + 10)
    } else {
        None
    }
}

/// Percent-decode, leaving invalid sequences as written.
///
/// A decoded path that is not UTF-8 is left as originally written: a key must be stable, and lossy
/// conversion would map distinct paths onto one another.
fn percent_decode(input: &str) -> (out: String)
    ensures
        out@ == decoded_path(input@),
{
    let bytes = input.as_bytes();
    let n: usize = bytes.len();
    let mut out: Vec<u8> = Vec::new();
    let mut i: usize = 0;
    assert(bytes@.skip(0) =~= bytes@);
    assert(out@ + unescaped(bytes@) =~= unescaped(bytes@));
    while i < n
        invariant
            n == bytes@.len(),
            i <= n,
            out@ + unescaped(bytes@.skip(i as int)) == unescaped(bytes@),
        decreases n - i,
    {
        let ghost rest = bytes@.skip(i as int);
        let ghost before = out@;
        let pair: Option<(u8, u8)> = if bytes[i] == 0x25 && n - i > 2 {
            match (hex_digit(bytes[i + 1]), hex_digit(bytes[i + 2])) {
                (Some(hi), Some(lo)) => Some((hi, lo)),
                _ => None,
            }
        } else {
            None
        };
        match pair {
            Some((hi, lo)) => {
                out.push(hi * 16 + lo);
                assert(rest.skip(3) =~= bytes@.skip(i as int + 3));
                assert(before + unescaped(rest) =~= out@ + unescaped(bytes@.skip(i as int + 3)));
                i = i + 3;
            },
            None => {
                out.push(bytes[i]);
                assert(rest.skip(1) =~= bytes@.skip(i as int + 1));
                assert(before + unescaped(rest) =~= out@ + unescaped(bytes@.skip(i as int + 1)));
                i = i + 1;
            },
        }
    }
    assert(bytes@.skip(n as int) =~= Seq::empty());
    assert(out@ =~= unescaped(bytes@));
    match wire::utf8_string(out) {
        Ok(s) => s,
        Err(_) => input.to_owned(),
    }
}

/// The path of a request target, without its query.
pub open spec fn target_path(target: Seq<char>) -> Seq<char> {
    match text::split_at_first(target, '?') {
        Some((path, _)) => path,
        None => target,
    }
}

/// The query of a request target, where it has one.
pub open spec fn target_query(target: Seq<char>) -> Option<Seq<char>> {
    match text::split_at_first(target, '?') {
        Some((_, query)) => Some(query),
        None => None,
    }
}

/// The key of a request under a rule.
pub open spec fn key_of(
    host: Seq<char>,
    target: Seq<char>,
    include_host: bool,
    keep_query: bool,
) -> Seq<char> {
    let start = if include_host {
        matcher::normalised_host(host)
    } else {
        Seq::empty()
    };
    let path = start + normalised_path(target_path(target));
    match target_query(target) {
        Some(query) => if keep_query {
            path.push('?') + query
        } else {
            path
        },
        None => path,
    }
}

/// Split a request target into path and query.
fn split_target(target: &str) -> (out: (String, Option<String>))
    ensures
        out.0@ == target_path(target@),
        wire::chars_in(out.1) == target_query(target@),
{
    let chars = text::chars_of(target);
    match text::split_once(chars.as_slice(), '?') {
        Some((path, query)) => (text::string_of(path), Some(text::string_of(query))),
        None => (target.to_owned(), None),
    }
}

/// Normalise a request into a cache key.
///
/// Paths are case-sensitive and stay so.
pub fn normalise(service: &str, host: &str, target: &str, rule: &CompiledRule) -> (out: CacheKey)
    ensures
        out.service@ == service@,
        out.key@ == key_of(host@, target@, rule.include_host, rule.keep_query),
{
    let (path, query) = split_target(target);
    let mut key = if rule.include_host {
        Matcher::normalise_host(host)
    } else {
        String::new()
    };
    key.append(normalise_path(path.as_str()).as_str());
    if rule.keep_query {
        if let Some(query) = query {
            key.push('?');
            key.append(query.as_str());
        }
    }
    CacheKey { key, service: service.to_owned() }
}

/// By default two requests for the same path share one key, whatever their hosts and queries are.
pub proof fn default_keys_depend_on_the_path_alone(
    a_host: Seq<char>,
    a_target: Seq<char>,
    b_host: Seq<char>,
    b_target: Seq<char>,
)
    requires
        target_path(a_target) == target_path(b_target),
    ensures
        key_of(a_host, a_target, false, false) == key_of(b_host, b_target, false, false),
{
}

/// A character that is not a given ASCII one has no byte of that value in it.
proof fn lemma_no_ascii_in_scalar(c: char, b: u8)
    requires
        b < 0x80,
        c as u32 != b,
    ensures
        forall|i: int|
            0 <= i < encode_scalar(c as u32).len() ==> #[trigger] encode_scalar(c as u32)[i] != b,
{
    let n = c as u32;
    assert(n <= 0x7f && n != b ==> (n & 0x7f) as u8 != b) by (bit_vector);
    assert(b < 0x80 ==> 0xC0 | ((n >> 6) & 0x1F) as u8 != b) by (bit_vector);
    assert(b < 0x80 ==> 0xE0 | ((n >> 12) & 0x0F) as u8 != b) by (bit_vector);
    assert(b < 0x80 ==> 0xF0 | ((n >> 18) & 0x7) as u8 != b) by (bit_vector);
    assert(b < 0x80 ==> 0x80 | (n & 0x3F) as u8 != b) by (bit_vector);
    assert(b < 0x80 ==> 0x80 | ((n >> 6) & 0x3F) as u8 != b) by (bit_vector);
    assert(b < 0x80 ==> 0x80 | ((n >> 12) & 0x3F) as u8 != b) by (bit_vector);
}

/// Text without a given ASCII character has no byte of its value in it.
proof fn lemma_no_ascii(s: Seq<char>, b: u8)
    requires
        b < 0x80,
        forall|i: int| 0 <= i < s.len() ==> #[trigger] s[i] as u32 != b,
    ensures
        forall|i: int| 0 <= i < encode_utf8(s).len() ==> #[trigger] encode_utf8(s)[i] != b,
    decreases s.len(),
{
    if s.len() > 0 {
        let rest = s.drop_first();
        assert forall|i: int| 0 <= i < rest.len() implies #[trigger] rest[i] as u32 != b by {
            assert(rest[i] == s[i + 1]);
        }
        lemma_no_ascii(rest, b);
        assert(s[0] as u32 != b);
        lemma_no_ascii_in_scalar(s[0], b);
        let head = encode_scalar(s[0] as u32);
        assert forall|i: int| 0 <= i < encode_utf8(s).len() implies #[trigger] encode_utf8(s)[i]
            != b by {
            if i < head.len() {
                assert(encode_utf8(s)[i] == head[i]);
            } else {
                assert(encode_utf8(s)[i] == encode_utf8(rest)[i - head.len()]);
            }
        }
    }
}

/// Two different pairs of service and key are never hashed as the same bytes, so no two services
/// share an object by their names running together. Service names hold no zero character.
pub proof fn services_never_share_hashed_bytes(
    a_service: Seq<char>,
    a_key: Seq<char>,
    b_service: Seq<char>,
    b_key: Seq<char>,
)
    requires
        forall|i: int| 0 <= i < a_service.len() ==> #[trigger] a_service[i] as u32 != 0,
        forall|i: int| 0 <= i < b_service.len() ==> #[trigger] b_service[i] as u32 != 0,
        hashed_bytes(a_service, a_key) == hashed_bytes(b_service, b_key),
    ensures
        a_service == b_service,
        a_key == b_key,
{
    lemma_no_ascii(a_service, 0);
    lemma_no_ascii(b_service, 0);
    let x = encode_utf8(a_service);
    let y = encode_utf8(b_service);
    let h = hashed_bytes(a_service, a_key);
    let g = hashed_bytes(b_service, b_key);
    if x.len() < y.len() {
        assert(h[x.len() as int] == 0);
        assert(g[x.len() as int] == y[x.len() as int]);
    }
    if y.len() < x.len() {
        assert(g[y.len() as int] == 0);
        assert(h[y.len() as int] == x[y.len() as int]);
    }
    assert(x =~= h.take(x.len() as int));
    assert(y =~= g.take(x.len() as int));
    assert(encode_utf8(a_key) =~= h.skip(x.len() as int + 1));
    assert(encode_utf8(b_key) =~= g.skip(x.len() as int + 1));
    encode_utf8_decode_utf8(a_service);
    encode_utf8_decode_utf8(b_service);
    encode_utf8_decode_utf8(a_key);
    encode_utf8_decode_utf8(b_key);
}

proof fn lemma_resolved_segments(segments: Seq<Seq<char>>)
    ensures
        forall|i: int|
            0 <= i < resolved_segments(segments).len() ==> {
                let s = #[trigger] resolved_segments(segments)[i];
                s.len() > 0 && s != seq!['.'] && s != seq!['.', '.']
            },
    decreases segments.len(),
{
    if segments.len() > 0 {
        lemma_resolved_segments(segments.drop_last());
        let before = resolved_segments(segments.drop_last());
        let after = resolved_segments(segments);
        assert forall|i: int| 0 <= i < after.len() implies {
            let s = #[trigger] after[i];
            s.len() > 0 && s != seq!['.'] && s != seq!['.', '.']
        } by {
            if i < before.len() {
                assert(after[i] == before[i]);
            }
        }
    }
}

/// Whether a character does not occur.
pub open spec fn free_of(s: Seq<char>, c: char) -> bool {
    forall|i: int| 0 <= i < s.len() ==> #[trigger] s[i] != c
}

/// Whether a character occurs in none of some texts.
spec fn all_free_of(segments: Seq<Seq<char>>, c: char) -> bool {
    forall|i: int| 0 <= i < segments.len() ==> free_of(#[trigger] segments[i], c)
}

/// Whether two slashes stand in a row.
pub open spec fn two_slashes_at(s: Seq<char>, i: int) -> bool {
    s[i] == '/' && s[i + 1] == '/'
}

/// Whether a segment is neither empty nor walks anywhere.
pub open spec fn is_plain_segment(s: Seq<char>) -> bool {
    s.len() > 0 && s != seq!['.'] && s != seq!['.', '.']
}

spec fn all_plain(segments: Seq<Seq<char>>) -> bool {
    forall|i: int| 0 <= i < segments.len() ==> is_plain_segment(#[trigger] segments[i])
}

/// Parts hold no separator, and nothing that the whole does not hold.
proof fn lemma_parts_free(s: Seq<char>, separator: char, c: char)
    requires
        c == separator || free_of(s, c),
    ensures
        all_free_of(text::parts(s, separator), c),
    decreases s.len(),
{
    text::lemma_find_from(s, separator, 0);
    let i = text::find_from(s, separator, 0);
    if i < s.len() {
        let rest = s.skip(i + 1);
        assert(c == separator || free_of(rest, c)) by {
            assert forall|k: int| c != separator && 0 <= k < rest.len() implies #[trigger] rest[k]
                != c by {
                assert(rest[k] == s[i + 1 + k]);
            }
        }
        lemma_parts_free(rest, separator, c);
        let all = text::parts(s, separator);
        assert forall|k: int| 0 <= k < all.len() implies free_of(#[trigger] all[k], c) by {
            if k > 0 {
                assert(all[k] == text::parts(rest, separator)[k - 1]);
            }
        }
    }
}

proof fn lemma_resolved_free(segments: Seq<Seq<char>>, c: char)
    requires
        all_free_of(segments, c),
    ensures
        all_free_of(resolved_segments(segments), c),
    decreases segments.len(),
{
    if segments.len() > 0 {
        let front = segments.drop_last();
        assert forall|k: int| 0 <= k < front.len() implies free_of(#[trigger] front[k], c) by {
            assert(front[k] == segments[k]);
        }
        lemma_resolved_free(front, c);
        assert(free_of(segments[segments.len() - 1], c));
        let before = resolved_segments(front);
        let after = resolved_segments(segments);
        assert forall|k: int| 0 <= k < after.len() implies free_of(#[trigger] after[k], c) by {
            if k < before.len() {
                assert(after[k] == before[k]);
            }
        }
    }
}

/// One more part behind a separator.
proof fn lemma_parts_append(a: Seq<char>, separator: char, b: Seq<char>)
    requires
        free_of(b, separator),
    ensures
        text::parts(a.push(separator) + b, separator) == text::parts(a, separator).push(b),
    decreases a.len(),
{
    let s = a.push(separator) + b;
    text::lemma_find_from(a, separator, 0);
    let i = text::find_from(a, separator, 0);
    assert forall|k: int| 0 <= k < a.len() implies s[k] == a[k] by {}
    text::lemma_find_is(s, separator, 0, i);
    assert(s.take(i) =~= a.take(i));
    if i < a.len() {
        let rest = a.skip(i + 1);
        lemma_parts_append(rest, separator, b);
        assert(s.skip(i + 1) =~= rest.push(separator) + b);
        assert(text::parts(s, separator) =~= text::parts(a, separator).push(b));
    } else {
        text::lemma_find_is(b, separator, 0, b.len() as int);
        assert(s.skip(i + 1) =~= b);
        assert(s.take(i) =~= a);
        assert(text::parts(a, separator) =~= seq![a]);
        assert(text::parts(b, separator) =~= seq![b]);
        assert(text::parts(s, separator) =~= seq![a].push(b));
    }
}

proof fn lemma_slashed(segments: Seq<Seq<char>>)
    requires
        all_plain(segments),
        all_free_of(segments, '/'),
    ensures
        text::parts(slashed(segments), '/') == seq![Seq::<char>::empty()] + segments,
        forall|i: int|
            0 <= i < slashed(segments).len() - 1 ==> !#[trigger] two_slashes_at(
                slashed(segments),
                i,
            ),
        segments.len() > 0 <==> slashed(segments).len() > 0,
        segments.len() > 0 ==> slashed(segments).last() != '/',
    decreases segments.len(),
{
    let out = slashed(segments);
    if segments.len() == 0 {
        text::lemma_find_is(out, '/', 0, 0);
        assert(text::parts(out, '/') =~= seq![Seq::<char>::empty()] + segments);
    } else {
        let front = segments.drop_last();
        let last = segments.last();
        assert(last == segments[segments.len() - 1]);
        assert forall|k: int| 0 <= k < front.len() implies is_plain_segment(
            #[trigger] front[k],
        ) && free_of(front[k], '/') by {
            assert(front[k] == segments[k]);
        }
        lemma_slashed(front);
        let before = slashed(front);
        lemma_parts_append(before, '/', last);
        assert(seq![Seq::<char>::empty()] + segments =~= (seq![Seq::<char>::empty()] + front).push(
            last,
        ));
        assert forall|i: int| 0 <= i < out.len() - 1 implies !#[trigger] two_slashes_at(out, i) by {
            if i + 1 < before.len() {
                assert(out[i] == before[i] && out[i + 1] == before[i + 1]);
                assert(!two_slashes_at(before, i));
            } else if i + 1 == before.len() {
                assert(out[i] == before.last());
            } else {
                assert(out[i + 1] == last[i - before.len()]);
            }
        }
    }
}

proof fn lemma_slashed_free(segments: Seq<Seq<char>>, c: char)
    requires
        c != '/',
        all_free_of(segments, c),
    ensures
        free_of(slashed(segments), c),
    decreases segments.len(),
{
    if segments.len() > 0 {
        let front = segments.drop_last();
        assert forall|k: int| 0 <= k < front.len() implies free_of(#[trigger] front[k], c) by {
            assert(front[k] == segments[k]);
        }
        lemma_slashed_free(front, c);
        assert(free_of(segments[segments.len() - 1], c));
    }
}

/// Plain segments stay as they are, with an empty one in front or not.
proof fn lemma_resolved_plain(segments: Seq<Seq<char>>)
    requires
        all_plain(segments),
    ensures
        resolved_segments(seq![Seq::<char>::empty()] + segments) == segments,
    decreases segments.len(),
{
    let all = seq![Seq::<char>::empty()] + segments;
    if segments.len() == 0 {
        assert(all.drop_last() =~= Seq::empty());
        assert(resolved_segments(all.drop_last()) =~= Seq::empty());
        assert(all.last().len() == 0);
        assert(resolved_segments(all) =~= segments);
    } else {
        let front = segments.drop_last();
        assert forall|k: int| 0 <= k < front.len() implies is_plain_segment(
            #[trigger] front[k],
        ) by {
            assert(front[k] == segments[k]);
        }
        lemma_resolved_plain(front);
        assert(all.drop_last() =~= seq![Seq::<char>::empty()] + front);
        assert(all.last() == segments[segments.len() - 1]);
        assert(front.push(segments.last()) =~= segments);
    }
}

proof fn lemma_unescaped_plain(b: Seq<u8>)
    requires
        forall|i: int| 0 <= i < b.len() ==> #[trigger] b[i] != 0x25,
    ensures
        unescaped(b) == b,
    decreases b.len(),
{
    if b.len() > 0 {
        let rest = b.skip(1);
        assert forall|i: int| 0 <= i < rest.len() implies #[trigger] rest[i] != 0x25 by {
            assert(rest[i] == b[i + 1]);
        }
        lemma_unescaped_plain(rest);
        assert(b[0] != 0x25);
        assert(seq![b[0]] + rest =~= b);
    } else {
        assert(unescaped(b) =~= b);
    }
}

/// Without a percent sign there is nothing to decode.
proof fn lemma_decoded_plain(path: Seq<char>)
    requires
        free_of(path, '%'),
    ensures
        decoded_path(path) == path,
{
    assert forall|i: int| 0 <= i < path.len() implies #[trigger] path[i] as u32 != 0x25u8 by {
        let c: char = path[i];
        assert(c != '%');
        char_u32_cast(c, c as u32);
        assert(0x25u32 as char == '%');
    }
    lemma_no_ascii(path, 0x25);
    lemma_unescaped_plain(encode_utf8(path));
    encode_utf8_valid_utf8(path);
    encode_utf8_decode_utf8(path);
}

/// The texts that are not empty.
pub open spec fn without_empty(segments: Seq<Seq<char>>) -> Seq<Seq<char>>
    decreases segments.len(),
{
    if segments.len() == 0 {
        Seq::empty()
    } else if segments.last().len() == 0 {
        without_empty(segments.drop_last())
    } else {
        without_empty(segments.drop_last()).push(segments.last())
    }
}

/// The segments of a path: what stands between its slashes, as far as anything does.
pub open spec fn segments_of(path: Seq<char>) -> Seq<Seq<char>> {
    without_empty(text::parts(path, '/'))
}

proof fn lemma_without_empty_plain(segments: Seq<Seq<char>>)
    requires
        all_plain(segments),
    ensures
        without_empty(seq![Seq::<char>::empty()] + segments) == segments,
    decreases segments.len(),
{
    let all = seq![Seq::<char>::empty()] + segments;
    if segments.len() == 0 {
        assert(all.drop_last() =~= Seq::empty());
        assert(without_empty(all.drop_last()) =~= Seq::empty());
        assert(without_empty(all) =~= segments);
    } else {
        let front = segments.drop_last();
        assert forall|k: int| 0 <= k < front.len() implies is_plain_segment(
            #[trigger] front[k],
        ) by {
            assert(front[k] == segments[k]);
        }
        lemma_without_empty_plain(front);
        assert(all.drop_last() =~= seq![Seq::<char>::empty()] + front);
        assert(is_plain_segment(segments[segments.len() - 1]));
        assert(front.push(segments.last()) =~= segments);
    }
}

/// What a normalised path is made of.
proof fn lemma_normalised(path: Seq<char>)
    ensures
        ({
            let r = normalised_path(path);
            let kept = resolved_segments(text::parts(decoded_path(path), '/'));
            let front = seq![Seq::<char>::empty()] + kept;
            &&& all_plain(kept)
            &&& all_free_of(kept, '/')
            &&& r.len() > 0
            &&& text::parts(r, '/') == (if r.last() == '/' {
                front.push(Seq::<char>::empty())
            } else {
                front
            })
            &&& resolved_segments(text::parts(r, '/')) == kept
            &&& segments_of(r) == kept
        }),
{
    let decoded = decoded_path(path);
    let r = normalised_path(path);
    let all = text::parts(decoded, '/');
    let kept = resolved_segments(all);
    let out = slashed(kept);
    let front = seq![Seq::<char>::empty()] + kept;
    lemma_resolved_segments(all);
    assert(all_plain(kept));
    lemma_parts_free(decoded, '/', '/');
    lemma_resolved_free(all, '/');
    lemma_slashed(kept);
    lemma_resolved_plain(kept);
    lemma_without_empty_plain(kept);
    if r.last() == '/' {
        assert(r =~= out.push('/') + Seq::<char>::empty());
        lemma_parts_append(out, '/', Seq::empty());
        let longer = front.push(Seq::<char>::empty());
        assert(longer.drop_last() =~= front);
    }
}

proof fn lemma_slashed_start(segments: Seq<Seq<char>>)
    ensures
        segments.len() > 0 ==> slashed(segments).len() > 0 && slashed(segments)[0] == '/',
    decreases segments.len(),
{
    if segments.len() > 0 {
        lemma_slashed_start(segments.drop_last());
        let before = slashed(segments.drop_last());
        if segments.len() == 1 {
            assert(before =~= Seq::empty());
        }
        assert(before.push('/')[0] == '/');
        assert(slashed(segments)[0] == before.push('/')[0]);
    }
}

/// A normalised path starts at the root and holds no two slashes in a row, and none of its segments
/// walks anywhere: nothing is left that could escape the root. It ends in a slash only where it is
/// the root, or where the path did.
pub proof fn normalised_paths_stay_below_the_root(path: Seq<char>)
    ensures
        normalised_path(path).len() > 0,
        normalised_path(path)[0] == '/',
        forall|i: int|
            0 <= i < normalised_path(path).len() - 1 ==> !#[trigger] two_slashes_at(
                normalised_path(path),
                i,
            ),
        forall|i: int|
            0 <= i < text::parts(normalised_path(path), '/').len() ==> {
                let s = #[trigger] text::parts(normalised_path(path), '/')[i];
                s != seq!['.'] && s != seq!['.', '.']
            },
        normalised_path(path).last() == '/' <==> normalised_path(path) == seq!['/'] || (
        decoded_path(path).len() > 0 && decoded_path(path).last() == '/'),
{
    let decoded = decoded_path(path);
    let all = text::parts(decoded, '/');
    let kept = resolved_segments(all);
    lemma_normalised(path);
    lemma_slashed_start(kept);
    lemma_slashed(kept);
    let r = normalised_path(path);
    let out = slashed(kept);
    assert forall|i: int| 0 <= i < r.len() - 1 implies !#[trigger] two_slashes_at(r, i) by {
        if i + 1 < out.len() {
            assert(!two_slashes_at(out, i));
        } else {
            assert(r[i] == out.last());
        }
    }
    let ps = text::parts(r, '/');
    assert forall|i: int| 0 <= i < ps.len() implies {
        let s = #[trigger] ps[i];
        s != seq!['.'] && s != seq!['.', '.']
    } by {
        if 0 < i <= kept.len() {
            assert(ps[i] == kept[i - 1]);
            assert(is_plain_segment(kept[i - 1]));
        } else {
            assert(ps[i] == Seq::<char>::empty());
            assert(seq!['.'].len() == 1 && seq!['.', '.'].len() == 2);
        }
    }
    if r == seq!['/'] {
        assert(r.last() == '/');
    }
}

/// The segments of a normalised path are those of the path once `.` is dropped and each `..` has
/// taken away the one kept before it, and a path that is normalised already stays as it is. A path
/// with percent escapes is left out: what one escape decodes to can be part of another, as in
/// `%2541`.
pub proof fn normalising_twice_changes_nothing(path: Seq<char>)
    requires
        free_of(path, '%'),
    ensures
        segments_of(normalised_path(path)) == resolved_segments(text::parts(path, '/')),
        normalised_path(normalised_path(path)) == normalised_path(path),
{
    let r = normalised_path(path);
    let all = text::parts(path, '/');
    let kept = resolved_segments(all);
    lemma_decoded_plain(path);
    lemma_normalised(path);
    lemma_parts_free(path, '/', '%');
    lemma_resolved_free(all, '%');
    lemma_slashed_free(kept, '%');
    assert(free_of(r, '%'));
    lemma_decoded_plain(r);
    lemma_slashed(kept);
}

/// A key is the normalised path. A rule that keeps the query adds a question mark and everything
/// behind the first one of the target; a rule that includes the host puts it in front.
pub proof fn keys_hold_what_the_rule_asks_for(host: Seq<char>, path: Seq<char>, query: Seq<char>)
    requires
        free_of(path, '?'),
    ensures
        ({
            let target = path + seq!['?'] + query;
            let plain = normalised_path(path);
            let kept = plain + seq!['?'] + query;
            let name = matcher::normalised_host(host);
            &&& key_of(host, path, false, false) == plain
            &&& key_of(host, path, false, true) == plain
            &&& key_of(host, target, false, false) == plain
            &&& key_of(host, target, false, true) == kept
            &&& key_of(host, path, true, false) == name + plain
            &&& key_of(host, path, true, true) == name + plain
            &&& key_of(host, target, true, false) == name + plain
            &&& key_of(host, target, true, true) == name + kept
        }),
{
    let target = path + seq!['?'] + query;
    let plain = normalised_path(path);
    let name = matcher::normalised_host(host);
    text::texts_part_at_every_separator(path, '?', query);
    let none = Seq::<char>::empty();
    assert(none + plain =~= plain);
    assert((none + plain).push('?') + query =~= plain + seq!['?'] + query);
    assert((name + plain).push('?') + query =~= name + (plain + seq!['?'] + query));
}

/// Where the query is kept, two targets of one path share a key only where their queries are the
/// same.
pub proof fn kept_queries_are_told_apart(
    host: Seq<char>,
    path: Seq<char>,
    include_host: bool,
    a: Seq<char>,
    b: Seq<char>,
)
    requires
        free_of(path, '?'),
        key_of(host, path + seq!['?'] + a, include_host, true) == key_of(
            host,
            path + seq!['?'] + b,
            include_host,
            true,
        ),
    ensures
        a == b,
{
    keys_hold_what_the_rule_asks_for(host, path, a);
    keys_hold_what_the_rule_asks_for(host, path, b);
    let front = (if include_host {
        matcher::normalised_host(host)
    } else {
        Seq::empty()
    }) + normalised_path(path) + seq!['?'];
    let x = key_of(host, path + seq!['?'] + a, include_host, true);
    assert(x =~= front + a);
    assert(x =~= front + b);
    assert(a =~= x.skip(front.len() as int));
    assert(b =~= x.skip(front.len() as int));
}

/// The digits of base sixteen, as bytes, with small letters and with capitals.
pub open spec fn hex_bytes(capitals: bool) -> Seq<u8> {
    if capitals {
        seq![
            0x30u8,
            0x31,
            0x32,
            0x33,
            0x34,
            0x35,
            0x36,
            0x37,
            0x38,
            0x39,
            0x41,
            0x42,
            0x43,
            0x44,
            0x45,
            0x46,
        ]
    } else {
        seq![
            0x30u8,
            0x31,
            0x32,
            0x33,
            0x34,
            0x35,
            0x36,
            0x37,
            0x38,
            0x39,
            0x61,
            0x62,
            0x63,
            0x64,
            0x65,
            0x66,
        ]
    }
}

proof fn lemma_unescaped_front(before: Seq<u8>, rest: Seq<u8>)
    requires
        forall|i: int| 0 <= i < before.len() ==> #[trigger] before[i] != 0x25,
    ensures
        unescaped(before + rest) == before + unescaped(rest),
    decreases before.len(),
{
    if before.len() > 0 {
        let tail = before.skip(1);
        assert forall|i: int| 0 <= i < tail.len() implies #[trigger] tail[i] != 0x25 by {
            assert(tail[i] == before[i + 1]);
        }
        lemma_unescaped_front(tail, rest);
        assert(before[0] != 0x25 && (before + rest)[0] == before[0]);
        assert((before + rest).skip(1) =~= tail + rest);
        assert(seq![before[0]] + (tail + unescaped(rest)) =~= before + unescaped(rest));
    } else {
        assert(before + rest =~= rest);
        assert(before + unescaped(rest) =~= unescaped(rest));
    }
}

/// The first escape of a path stands for the byte that its two digits name, in either case, and
/// decoding goes on behind it.
pub proof fn escapes_stand_for_bytes(
    before: Seq<u8>,
    high: int,
    low: int,
    capitals: (bool, bool),
    after: Seq<u8>,
)
    requires
        forall|i: int| 0 <= i < before.len() ==> #[trigger] before[i] != 0x25,
        0 <= high < 16,
        0 <= low < 16,
    ensures
        unescaped(
            before + seq![0x25u8, hex_bytes(capitals.0)[high], hex_bytes(capitals.1)[low]] + after,
        ) == before + seq![(16 * high + low) as u8] + unescaped(after),
{
    let escape = seq![0x25u8, hex_bytes(capitals.0)[high], hex_bytes(capitals.1)[low]];
    let rest = escape + after;
    assert(before + escape + after =~= before + rest);
    lemma_unescaped_front(before, rest);
    assert(rest.skip(3) =~= after);
    assert(hex_value(hex_bytes(capitals.0)[high]) == Some(high as u8));
    assert(hex_value(hex_bytes(capitals.1)[low]) == Some(low as u8));
    assert(before + (seq![(16 * high + low) as u8] + unescaped(after)) =~= before + seq![
        (16 * high + low) as u8,
    ] + unescaped(after));
}

/// A percent sign without two digits of base sixteen behind it stands for itself.
pub proof fn broken_escapes_stand_for_themselves(before: Seq<u8>, after: Seq<u8>)
    requires
        forall|i: int| 0 <= i < before.len() ==> #[trigger] before[i] != 0x25,
        after.len() < 2 || !(hex_bytes(false).contains(after[0]) || hex_bytes(true).contains(
            after[0],
        )) || !(hex_bytes(false).contains(after[1]) || hex_bytes(true).contains(after[1])),
    ensures
        unescaped(before + seq![0x25u8] + after) == before + seq![0x25u8] + unescaped(after),
        unescaped(before) == before,
{
    let rest = seq![0x25u8] + after;
    assert(before + seq![0x25u8] + after =~= before + rest);
    lemma_unescaped_front(before, rest);
    lemma_unescaped_plain(before);
    assert(rest.skip(1) =~= after);
    if after.len() >= 2 {
        lemma_hex_bytes(after[0]);
        lemma_hex_bytes(after[1]);
    }
    assert(before + (seq![0x25u8] + unescaped(after)) =~= before + seq![0x25u8] + unescaped(after));
}

proof fn lemma_hex_bytes(b: u8)
    ensures
        hex_value(b) is Some ==> hex_bytes(false).contains(b) || hex_bytes(true).contains(b),
{
    if let Some(v) = hex_value(b) {
        assert(b == hex_bytes(false)[v as int] || b == hex_bytes(true)[v as int]);
    }
}

/// A path that decodes to text is taken as that text, and any other is left as it was written.
pub proof fn paths_are_decoded_where_that_gives_text(path: Seq<char>)
    ensures
        valid_utf8(unescaped(encode_utf8(path))) ==> encode_utf8(decoded_path(path)) == unescaped(
            encode_utf8(path),
        ),
        !valid_utf8(unescaped(encode_utf8(path))) ==> decoded_path(path) == path,
{
    let bytes = unescaped(encode_utf8(path));
    if valid_utf8(bytes) {
        decode_utf8_encode_utf8(bytes);
    }
}

/// The parts of two texts around a separator are those of the one and those of the other.
proof fn lemma_parts_around(a: Seq<char>, separator: char, b: Seq<char>)
    ensures
        text::parts(a + seq![separator] + b, separator) == text::parts(a, separator) + text::parts(
            b,
            separator,
        ),
    decreases a.len(),
{
    text::lemma_find_from(a, separator, 0);
    let i = text::find_from(a, separator, 0);
    let s = a + seq![separator] + b;
    if i < a.len() {
        let head = a.take(i);
        let tail = a.skip(i + 1);
        lemma_parts_around(tail, separator, b);
        assert forall|k: int| 0 <= k < head.len() implies #[trigger] head[k] != separator by {
            assert(head[k] == a[k]);
        }
        assert(s =~= head + seq![separator] + (tail + seq![separator] + b));
        text::texts_part_at_every_separator(head, separator, tail + seq![separator] + b);
        assert(seq![head] + (text::parts(tail, separator) + text::parts(b, separator)) =~= (seq![
            head,
        ] + text::parts(tail, separator)) + text::parts(b, separator));
    } else {
        text::texts_part_at_every_separator(a, separator, b);
    }
}

/// What comes behind resolves alike behind whatever resolves alike.
proof fn lemma_resolved_behind(x: Seq<Seq<char>>, y: Seq<Seq<char>>, rest: Seq<Seq<char>>)
    requires
        resolved_segments(x) == resolved_segments(y),
    ensures
        resolved_segments(x + rest) == resolved_segments(y + rest),
    decreases rest.len(),
{
    if rest.len() > 0 {
        lemma_resolved_behind(x, y, rest.drop_last());
        assert((x + rest).drop_last() =~= x + rest.drop_last());
        assert((y + rest).drop_last() =~= y + rest.drop_last());
    } else {
        assert(x + rest =~= x);
        assert(y + rest =~= y);
    }
}

/// Paths whose decoded forms fall into parts that resolve alike, and that both end in a slash or
/// neither does, are normalised alike.
proof fn lemma_normalised_alike(p: Seq<char>, q: Seq<char>)
    requires
        resolved_segments(text::parts(decoded_path(p), '/')) == resolved_segments(
            text::parts(decoded_path(q), '/'),
        ),
        decoded_path(p).len() > 0,
        decoded_path(q).len() > 0,
        decoded_path(p).last() == '/' <==> decoded_path(q).last() == '/',
    ensures
        normalised_path(p) == normalised_path(q),
{
}

/// Within a decoded path a second slash, and a `.` between two slashes, make no difference; a `..`
/// takes away the segment before it; and at the root there is nothing to take away. Each of these
/// two ways of writing a path gives the same key.
pub proof fn ways_of_writing_a_path_come_to_one(
    longer: Seq<char>,
    shorter: Seq<char>,
    front: Seq<char>,
    segment: Seq<char>,
    back: Seq<char>,
)
    requires
        free_of(segment, '/'),
        decoded_path(shorter) == front + seq!['/'] + back,
        ({
            let slash = seq!['/'];
            let d = decoded_path(longer);
            ||| d == front + slash + slash + back
            ||| d == front + slash + seq!['.'] + slash + back
            ||| is_plain_segment(segment) && d == front + slash + segment + slash + seq!['.', '.']
                + slash + back
            ||| front.len() == 0 && d == slash + seq!['.', '.'] + slash + back
        }),
    ensures
        normalised_path(longer) == normalised_path(shorter),
{
    let slash = seq!['/'];
    let d = decoded_path(longer);
    let none = Seq::<char>::empty();
    let fs = text::parts(front, '/');
    let bs = text::parts(back, '/');
    let dot = seq!['.'];
    let up = seq!['.', '.'];
    lemma_parts_around(front, '/', back);
    text::texts_part_at_every_separator(none, '/', none);
    text::texts_part_at_every_separator(dot, '/', none);
    text::texts_part_at_every_separator(up, '/', none);
    text::texts_part_at_every_separator(segment, '/', none);
    lemma_step(fs, none);
    lemma_step(fs, dot);
    let ds = text::parts(d, '/');
    if d == front + slash + slash + back {
        assert(d =~= (front + slash + none) + slash + back);
        lemma_parts_around(front + slash + none, '/', back);
        lemma_parts_around(front, '/', none);
        assert(ds == fs.push(none) + bs) by {
            assert(fs + seq![none] =~= fs.push(none));
        }
        lemma_resolved_behind(fs.push(none), fs, bs);
    } else if d == front + slash + dot + slash + back {
        lemma_parts_around(front + slash + dot, '/', back);
        lemma_parts_around(front, '/', dot);
        assert(ds == fs.push(dot) + bs) by {
            assert(fs + seq![dot] =~= fs.push(dot));
        }
        lemma_resolved_behind(fs.push(dot), fs, bs);
    } else if is_plain_segment(segment) && d == front + slash + segment + slash + up + slash
        + back {
        lemma_parts_around(front + slash + segment + slash + up, '/', back);
        lemma_parts_around(front + slash + segment, '/', up);
        lemma_parts_around(front, '/', segment);
        lemma_step(fs, segment);
        lemma_step(fs.push(segment), up);
        let longest = fs.push(segment).push(up);
        assert(fs + seq![segment] =~= fs.push(segment));
        assert(fs.push(segment) + seq![up] =~= longest);
        assert(resolved_segments(fs).push(segment).drop_last() =~= resolved_segments(fs));
        lemma_resolved_behind(longest, fs, bs);
    } else {
        assert(d =~= (none + slash + up) + slash + back);
        lemma_parts_around(none + slash + up, '/', back);
        lemma_parts_around(none, '/', up);
        assert(front =~= none);
        assert(fs + seq![up] =~= fs.push(up));
        lemma_step(fs, up);
        lemma_step(Seq::empty(), none);
        assert(fs =~= Seq::<Seq<char>>::empty().push(none));
        assert(resolved_segments(Seq::<Seq<char>>::empty()) =~= Seq::empty());
        lemma_resolved_behind(fs.push(up), fs, bs);
    }
    if back.len() > 0 {
        assert(d.last() == back.last());
        assert(decoded_path(shorter).last() == back.last());
    } else {
        assert(d.last() == '/');
        assert(decoded_path(shorter).last() == '/');
    }
    lemma_normalised_alike(longer, shorter);
}

proof fn lemma_step(segments: Seq<Seq<char>>, last: Seq<char>)
    ensures
        ({
            let before = resolved_segments(segments);
            resolved_segments(segments.push(last)) == (if last.len() == 0 || last == seq!['.'] {
                before
            } else if last == seq!['.', '.'] {
                if before.len() > 0 {
                    before.drop_last()
                } else {
                    before
                }
            } else {
                before.push(last)
            })
        }),
{
    assert(segments.push(last).drop_last() =~= segments);
}

/// Parts put behind slashes again give the text with a slash in front.
proof fn lemma_parts_join_back(s: Seq<char>)
    ensures
        slashed(text::parts(s, '/')) == seq!['/'] + s,
    decreases s.len(),
{
    text::lemma_find_from(s, '/', 0);
    let i = text::find_from(s, '/', 0);
    let none = Seq::<Seq<char>>::empty();
    if i < s.len() {
        let head = s.take(i);
        let tail = s.skip(i + 1);
        lemma_parts_join_back(tail);
        lemma_slashed_joined(seq![head], text::parts(tail, '/'));
        assert(seq![head].drop_last() =~= none);
        assert(slashed(none) =~= Seq::empty());
        assert(slashed(seq![head]) =~= seq!['/'] + head);
        assert(seq!['/'] + s =~= (seq!['/'] + head) + (seq!['/'] + tail)) by {
            assert(s =~= head + seq!['/'] + tail);
        }
    } else {
        assert(seq![s].drop_last() =~= none);
        assert(slashed(none) =~= Seq::empty());
        assert(slashed(seq![s]) =~= seq!['/'] + s);
    }
}

proof fn lemma_slashed_joined(a: Seq<Seq<char>>, b: Seq<Seq<char>>)
    ensures
        slashed(a + b) == slashed(a) + slashed(b),
    decreases b.len(),
{
    if b.len() > 0 {
        lemma_slashed_joined(a, b.drop_last());
        assert((a + b).drop_last() =~= a + b.drop_last());
        assert(slashed(a + b) =~= slashed(a) + slashed(b));
    } else {
        assert(a + b =~= a);
        assert(slashed(a) + slashed(b) =~= slashed(a));
    }
}

/// A path in which nothing is to be resolved is its own normal form, but for a slash in front where
/// it has none: the segments between its slashes are all plain, and only the last may be empty.
pub proof fn paths_with_nothing_to_resolve_are_kept(path: Seq<char>, plain: Seq<char>)
    requires
        decoded_path(path) == plain || decoded_path(path) == seq!['/'] + plain,
        forall|i: int|
            0 <= i < text::parts(plain, '/').len() - 1 ==> is_plain_segment(
                #[trigger] text::parts(plain, '/')[i],
            ),
        text::parts(plain, '/').last().len() == 0 || is_plain_segment(
            text::parts(plain, '/').last(),
        ),
    ensures
        normalised_path(path) == seq!['/'] + plain,
{
    let d = decoded_path(path);
    let none = Seq::<char>::empty();
    let ps = text::parts(plain, '/');
    text::lemma_find_from(plain, '/', 0);
    assert(ps.len() > 0);
    let front = ps.drop_last();
    let last = ps.last();
    assert(ps =~= front.push(last));
    assert forall|i: int| 0 <= i < front.len() implies is_plain_segment(#[trigger] front[i]) by {
        assert(front[i] == ps[i]);
    }
    lemma_parts_join_back(plain);
    lemma_step(front, last);
    lemma_resolved_all_plain(front);
    let kept = resolved_segments(ps);
    assert(kept == if last.len() == 0 {
        front
    } else {
        ps
    });
    // The slash in front only adds an empty segment.
    text::texts_part_at_every_separator(none, '/', plain);
    assert(none + seq!['/'] + plain =~= seq!['/'] + plain);
    lemma_step(Seq::empty(), none);
    assert(Seq::<Seq<char>>::empty().push(none) =~= seq![none]);
    lemma_resolved_behind(seq![none], Seq::empty(), ps);
    assert(Seq::<Seq<char>>::empty() + ps =~= ps);
    assert(resolved_segments(text::parts(d, '/')) == kept);
    lemma_parts_free(plain, '/', '/');
    if last.len() == 0 {
        assert(slashed(ps) =~= slashed(front).push('/') + last);
        assert(slashed(front).push('/') + last =~= slashed(front).push('/'));
        if plain.len() > 0 {
            assert((seq!['/'] + plain).last() == plain.last());
            assert(plain.last() == '/');
            assert(d.last() == '/');
            if front.len() == 0 {
                assert(slashed(front) =~= Seq::empty());
                assert(slashed(ps).len() == 1);
            } else {
                lemma_slashed_start(front);
            }
        } else {
            assert(slashed(ps) =~= seq!['/']);
            assert(slashed(front) =~= Seq::empty());
        }
    } else {
        assert(free_of(ps[ps.len() - 1], '/'));
        assert(slashed(ps) =~= slashed(front).push('/') + last);
        assert((seq!['/'] + plain).last() == last.last());
        assert(plain.len() > 0);
        assert(plain.last() == last.last());
        assert(d.last() == plain.last());
        assert(last[last.len() - 1] != '/');
        lemma_slashed_start(ps);
    }
}

proof fn lemma_resolved_all_plain(segments: Seq<Seq<char>>)
    requires
        all_plain(segments),
    ensures
        resolved_segments(segments) == segments,
    decreases segments.len(),
{
    if segments.len() > 0 {
        let front = segments.drop_last();
        assert forall|k: int| 0 <= k < front.len() implies is_plain_segment(
            #[trigger] front[k],
        ) by {
            assert(front[k] == segments[k]);
        }
        lemma_resolved_all_plain(front);
        assert(is_plain_segment(segments[segments.len() - 1]));
        assert(front.push(segments.last()) =~= segments);
    } else {
        assert(resolved_segments(segments) =~= segments);
    }
}

/// A path that one of the excluded patterns matches is never kept. Of the others all are, unless
/// something is asked for by name; then those are that one of the included patterns matches.
pub proof fn exclusions_win_over_inclusions(
    compiled: CompiledRule,
    rule: ServiceRule,
    path: Seq<char>,
)
    requires
        compiled.compiles(rule),
    ensures
        forall|i: int|
            0 <= i < rule.exclude_paths@.len() && regex_matches(
                (#[trigger] rule.exclude_paths@[i])@,
                path,
            ) ==> !compiled.caches(path),
        (forall|i: int|
            0 <= i < rule.exclude_paths@.len() ==> !regex_matches(
                (#[trigger] rule.exclude_paths@[i])@,
                path,
            )) ==> (compiled.caches(path) <==> rule.include_paths@.len() == 0 || exists|i: int|
            0 <= i < rule.include_paths@.len() && regex_matches(
                (#[trigger] rule.include_paths@[i])@,
                path,
            )),
{
    let out = text::texts(rule.exclude_paths@);
    let wanted = text::texts(rule.include_paths@);
    compiled.keeps_what_it_was_compiled_from(rule, path);
    assert forall|i: int|
        0 <= i < rule.exclude_paths@.len() && regex_matches(
            (#[trigger] rule.exclude_paths@[i])@,
            path,
        ) implies !compiled.caches(path) by {
        assert(out[i] == rule.exclude_paths@[i]@);
    }
    if any_matches(out, path) {
        let i = choose|i: int| 0 <= i < out.len() && regex_matches(#[trigger] out[i], path);
        assert(out[i] == rule.exclude_paths@[i]@);
    }
    if any_matches(wanted, path) {
        let i = choose|i: int| 0 <= i < wanted.len() && regex_matches(#[trigger] wanted[i], path);
        assert(wanted[i] == rule.include_paths@[i]@);
    }
    if exists|i: int|
        0 <= i < rule.include_paths@.len() && regex_matches(
            (#[trigger] rule.include_paths@[i])@,
            path,
        ) {
        let i = choose|i: int|
            0 <= i < rule.include_paths@.len() && regex_matches(
                (#[trigger] rule.include_paths@[i])@,
                path,
            );
        assert(wanted[i] == rule.include_paths@[i]@);
    }
}

/// A compiled rule says about queries, hosts and schemes what the rule says, and has a set of
/// patterns for a field exactly where the field has patterns.
pub proof fn compiled_rules_keep_their_settings(compiled: CompiledRule, rule: ServiceRule)
    requires
        compiled.compiles(rule),
    ensures
        compiled.keep_query == rule.keep_query,
        compiled.include_host == rule.include_host,
        compiled.upstream_https == rule.upstream_https,
        compiled.wanted is Some <==> rule.include_paths@.len() > 0,
        compiled.unwanted is Some <==> rule.exclude_paths@.len() > 0,
{
}

proof fn lemma_first_fault(patterns: Seq<Seq<char>>, i: int)
    requires
        0 <= i <= patterns.len(),
        forall|k: int| 0 <= k < i ==> regex_fault(#[trigger] patterns[k]) is None,
    ensures
        i == patterns.len() ==> first_fault(patterns) is None,
        i < patterns.len() ==> (regex_fault(patterns[i]) matches Some(e) ==> first_fault(patterns)
            == Some((patterns[i], e))),
    decreases i,
{
    if i > 0 {
        assert(regex_fault(patterns[0]) is None);
        let rest = patterns.skip(1);
        assert forall|k: int| 0 <= k < i - 1 implies regex_fault(#[trigger] rest[k]) is None by {
            assert(rest[k] == patterns[k + 1]);
        }
        lemma_first_fault(rest, i - 1);
        if i < patterns.len() {
            assert(rest[i - 1] == patterns[i]);
        }
    }
}

/// A rule compiles where each of its patterns does, and each field as a whole; otherwise the first
/// pattern that does not is named, with its field, and those of the included paths are tried first.
pub proof fn the_first_bad_pattern_is_named(rule: ServiceRule, i: int)
    requires
        0 <= i <= rule.include_paths@.len(),
        forall|k: int| 0 <= k < i ==> regex_fault((#[trigger] rule.include_paths@[k])@) is None,
    ensures
        i < rule.include_paths@.len() ==> (regex_fault(rule.include_paths@[i]@) matches Some(why)
            ==> compile_fault(rule) == Some(
            ("include_paths"@, rule.include_paths@[i]@, why),
        )),
        i == rule.include_paths@.len() && (i > 0 ==> regex_set_fault(
            text::texts(rule.include_paths@),
        ) is None) && rule.exclude_paths@.len() == 0 ==> compile_fault(rule) is None,
        i == rule.include_paths@.len() && (i > 0 ==> regex_set_fault(
            text::texts(rule.include_paths@),
        ) is None) && rule.exclude_paths@.len() > 0 ==> (regex_fault(
            rule.exclude_paths@[0]@,
        ) matches Some(why) ==> compile_fault(rule) == Some(
            ("exclude_paths"@, rule.exclude_paths@[0]@, why),
        )),
{
    let included = text::texts(rule.include_paths@);
    let excluded = text::texts(rule.exclude_paths@);
    assert forall|k: int| 0 <= k < i implies regex_fault(#[trigger] included[k]) is None by {
        assert(included[k] == rule.include_paths@[k]@);
    }
    lemma_first_fault(included, i);
    lemma_first_fault(excluded, 0);
    if i < included.len() {
        assert(included[i] == rule.include_paths@[i]@);
    }
    if excluded.len() > 0 {
        assert(excluded[0] == rule.exclude_paths@[0]@);
    }
}

/// A `.` or a `..` at the very end of a decoded path resolves as it does elsewhere, and leaves no
/// slash behind: the path is the one that ends in front of it.
pub proof fn dots_at_the_end_leave_no_slash(
    longer: Seq<char>,
    shorter: Seq<char>,
    front: Seq<char>,
    segment: Seq<char>,
)
    requires
        free_of(segment, '/'),
        front.len() > 0,
        front.last() != '/',
        decoded_path(shorter) == front,
        ({
            let slash = seq!['/'];
            let d = decoded_path(longer);
            ||| d == front + slash + seq!['.']
            ||| is_plain_segment(segment) && d == front + slash + segment + slash + seq!['.', '.']
        }),
    ensures
        normalised_path(longer) == normalised_path(shorter),
{
    let slash = seq!['/'];
    let d = decoded_path(longer);
    let none = Seq::<char>::empty();
    let dot = seq!['.'];
    let up = seq!['.', '.'];
    let fs = text::parts(front, '/');
    text::texts_part_at_every_separator(dot, '/', none);
    text::texts_part_at_every_separator(up, '/', none);
    text::texts_part_at_every_separator(segment, '/', none);
    if d == front + slash + dot {
        lemma_parts_around(front, '/', dot);
        assert(fs + seq![dot] =~= fs.push(dot));
        lemma_step(fs, dot);
    } else {
        lemma_parts_around(front + slash + segment, '/', up);
        lemma_parts_around(front, '/', segment);
        assert(fs + seq![segment] =~= fs.push(segment));
        assert(fs.push(segment) + seq![up] =~= fs.push(segment).push(up));
        lemma_step(fs, segment);
        lemma_step(fs.push(segment), up);
        assert(resolved_segments(fs).push(segment).drop_last() =~= resolved_segments(fs));
    }
    assert(d.last() == '.');
    lemma_normalised_alike(longer, shorter);
}

} // verus!
