//! Validator comparison and `If-Range`.
//!
//! Content that is effectively immutable is not actually immutable. When an object changes
//! mid-stream, the one unacceptable outcome is a response whose first half came from a version
//! that no longer exists.
use crate::text;
use crate::wire;
use vstd::prelude::*;

verus! {

/// An object's validators, as the origin reported them.
#[derive(Debug, PartialEq, Eq)]
pub struct Validators {
    pub etag: Option<String>,
    pub last_modified: Option<String>,
}

/// A [`Validators`] with its strings taken as characters.
pub struct Marks {
    pub etag: Option<Seq<char>>,
    pub last_modified: Option<Seq<char>>,
}

impl View for Validators {
    type V = Marks;

    open spec fn view(&self) -> Marks {
        Marks { etag: wire::chars_in(self.etag), last_modified: wire::chars_in(self.last_modified) }
    }
}

impl Default for Validators {
    fn default() -> (out: Self)
        ensures
            out@ == (Marks { etag: None, last_modified: None }),
    {
        Validators { etag: None, last_modified: None }
    }
}

/// A weak ETag promises equivalence, not the same bytes.
pub open spec fn is_weak(etag: Seq<char>) -> bool {
    "W/"@.is_prefix_of(etag)
}

/// Strong comparison of two ETags.
pub open spec fn strongly_equal(a: Seq<char>, b: Seq<char>) -> bool {
    !is_weak(a) && !is_weak(b) && a == b
}

/// Whether two sets of validators describe the same bytes. An ETag decides where either side has
/// one, the modification date otherwise; where there is nothing to go by, they are taken to.
pub open spec fn same_entity(a: Marks, b: Marks) -> bool {
    match (a.etag, b.etag) {
        (Some(x), Some(y)) => strongly_equal(x, y),
        (None, None) => a.last_modified == b.last_modified,
        _ => false,
    }
}

impl Validators {
    pub fn new(etag: Option<String>, last_modified: Option<String>) -> (out: Self)
        ensures
            out == (Validators { etag, last_modified }),
    {
        Validators { etag, last_modified }
    }

    /// Whether `other` describes the same entity.
    ///
    /// If neither side offers any validator there is no telling, and they match: refusing to serve
    /// an object because its origin is silent about versioning would help nobody.
    pub fn matches(&self, other: &Validators) -> (out: bool)
        ensures
            out == same_entity(self@, other@),
    {
        match (&self.etag, &other.etag) {
            (Some(a), Some(b)) => return strong_eq(a.as_str(), b.as_str()),
            (Some(_), None) => return false,
            (None, Some(_)) => return false,
            (None, None) => {},
        }
        match (&self.last_modified, &other.last_modified) {
            (Some(a), Some(b)) => text::same(a.as_str(), b.as_str()),
            (Some(_), None) => false,
            (None, Some(_)) => false,
            (None, None) => true,
        }
    }

    pub fn is_empty(&self) -> (out: bool)
        ensures
            out == (self@.etag is None && self@.last_modified is None),
    {
        self.etag.is_none() && self.last_modified.is_none()
    }
}

fn weak(etag: &str) -> (out: bool)
    ensures
        out == is_weak(etag@),
{
    let chars = text::chars_of(etag);
    text::strip_prefix(chars.as_slice(), "W/").is_some()
}

/// Strong comparison of two ETags.
///
/// One response is assembled out of slices fetched at different times, and weak equivalence permits
/// those bytes to differ.
fn strong_eq(a: &str, b: &str) -> (out: bool)
    ensures
        out == strongly_equal(a@, b@),
{
    if weak(a) || weak(b) {
        return false;
    }
    text::same(a, b)
}

/// Whether an `If-Range` value agrees with what is current. A value in quotes, or one that is
/// marked weak, is an ETag; anything else is a date.
pub open spec fn if_range_agrees(header: Seq<char>, current: Marks) -> bool {
    let value = text::trimmed(header);
    if value.len() == 0 {
        false
    } else if value[0] == '"' || is_weak(value) {
        current.etag matches Some(etag) && strongly_equal(value, etag)
    } else {
        current.last_modified == Some(value)
    }
}

/// Whether an `If-Range` header permits a partial response.
///
/// A mismatch is answered with the full object, not with an error.
pub fn if_range_matches(header: &str, current: &Validators) -> (out: bool)
    ensures
        out == if_range_agrees(header@, current@),
{
    let chars = text::chars_of(header);
    let trimmed = text::trim(chars.as_slice());
    if trimmed.len() == 0 {
        return false;
    }
    let quoted = trimmed[0] == '"';
    let value = text::string_of(trimmed);
    if quoted || weak(value.as_str()) {
        match &current.etag {
            Some(etag) => strong_eq(value.as_str(), etag.as_str()),
            None => false,
        }
    } else {
        match &current.last_modified {
            Some(modified) => text::same(modified.as_str(), value.as_str()),
            None => false,
        }
    }
}

/// Comparing validators does not depend on which side is asked.
pub proof fn comparison_is_symmetric(a: Marks, b: Marks)
    ensures
        same_entity(a, b) == same_entity(b, a),
{
}

/// A weak ETag on either side is never enough to take two entities for the same.
pub proof fn weak_etags_never_match(a: Marks, b: Marks)
    requires
        (a.etag matches Some(x) && is_weak(x)) || (b.etag matches Some(y) && is_weak(y)),
    ensures
        !same_entity(a, b),
{
}

/// Sameness carries over: what matches the same entity matches each other.
pub proof fn comparison_is_transitive(a: Marks, b: Marks, c: Marks)
    requires
        same_entity(a, b),
        same_entity(b, c),
    ensures
        same_entity(a, c),
{
}

/// Where both sides have an ETag, they describe the same entity exactly where the ETags are the
/// same text, character by character, and that text is not marked weak by a `W/` in front. Where
/// only one has an ETag they differ, and where neither has, the dates decide.
pub proof fn entities_are_the_same_where_their_etags_are(a: Marks, b: Marks)
    ensures
        a.etag matches Some(x) ==> b.etag matches Some(y) ==> (same_entity(a, b) <==> x == y && !(
        x.len() >= 2 && x[0] == 'W' && x[1] == '/')),
        a.etag is Some && b.etag is None ==> !same_entity(a, b),
        a.etag is None && b.etag is Some ==> !same_entity(a, b),
        a.etag is None && b.etag is None ==> (same_entity(a, b) <==> a.last_modified
            == b.last_modified),
{
    lemma_weak_mark();
}

proof fn lemma_weak_mark()
    ensures
        forall|x: Seq<char>| #[trigger]
            is_weak(x) <==> x.len() >= 2 && x[0] == 'W' && x[1] == '/',
{
    reveal_strlit("W/");
    assert forall|x: Seq<char>| #[trigger] is_weak(x) <==> x.len() >= 2 && x[0] == 'W' && x[1]
        == '/' by {
        if x.len() >= 2 && x[0] == 'W' && x[1] == '/' {
            assert("W/"@ =~= x.subrange(0, 2));
        }
        if is_weak(x) {
            assert(x.subrange(0, 2)[0] == x[0] && x.subrange(0, 2)[1] == x[1]);
        }
    }
}

/// An `If-Range` value with a quote in front is an ETag, and is honoured exactly where the current
/// ETag is that same text. One that is marked weak never is. Anything else is a date, and is
/// honoured exactly where the current date is that same text, whatever ETag there is. White space
/// around the value makes no difference, and nothing at all is never honoured.
pub proof fn a_range_is_honoured_for_the_current_version_alone(
    before: Seq<char>,
    value: Seq<char>,
    after: Seq<char>,
    current: Marks,
)
    requires
        forall|i: int| 0 <= i < before.len() ==> text::is_space(#[trigger] before[i]),
        forall|i: int| 0 <= i < after.len() ==> text::is_space(#[trigger] after[i]),
        value.len() > 0 ==> !text::is_space(value[0]) && !text::is_space(value.last()),
    ensures
        ({
            let honoured = if_range_agrees(before + value + after, current);
            let weak = value.len() >= 2 && value[0] == 'W' && value[1] == '/';
            &&& value.len() == 0 ==> !honoured
            &&& weak ==> !honoured
            &&& value.len() > 0 && value[0] == '"' ==> (honoured <==> current.etag == Some(value))
            &&& value.len() > 0 && value[0] != '"' && !weak ==> (honoured
                <==> current.last_modified == Some(value))
        }),
{
    lemma_weak_mark();
    text::trimming_takes_the_white_space_around(before, value, after);
}

/// Validators are compared by both of their texts, each as it is.
pub proof fn nothing_of_validators_is_left_out(v: Validators)
    ensures
        v.etag matches Some(t) ==> v@.etag == Some(t@),
        v.etag is None ==> v@.etag is None,
        v.last_modified matches Some(t) ==> v@.last_modified == Some(t@),
        v.last_modified is None ==> v@.last_modified is None,
{
}

} // verus!
