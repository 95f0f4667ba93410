//! The differential tester.
//!
//! For any object and any range, the bytes that a client receives through the cache must equal the
//! bytes that the origin would have sent. A failure prints a seed that reproduces it, and is shrunk
//! to the first byte that differs.
use crate::testkit::content;
use crate::text;
use vstd::prelude::*;
use vstd::string::*;
use vstd::utf8::*;

verus! {

/// Deterministic generator of numbers. Small and explicit, so a seed means the same thing across
/// runs and machines.
#[derive(Debug, PartialEq, Eq)]
pub struct Rng {
    state: u64,
}

/// A number below `n`, and the state behind it. Where there is nothing to choose from, nothing is
/// drawn.
pub open spec fn drawn(state: u64, n: int) -> (int, u64) {
    if n == 0 {
        (0, state)
    } else {
        (content::mixed(state) as int % n, state.wrapping_add(content::MIX))
    }
}

impl Rng {
    pub closed spec fn at(self) -> u64 {
        self.state
    }

    pub fn new(seed: u64) -> (out: Self)
        ensures
            out.at() == seed,
    {
        Rng { state: seed }
    }

    pub fn next_u64(&mut self) -> (out: u64)
        ensures
            out == content::mixed(old(self).at()),
            final(self).at() == old(self).at().wrapping_add(content::MIX),
    {
        let out: u64 = content::splitmix64(self.state);
        self.state = self.state.wrapping_add(content::MIX);
        out
    }

    /// Uniform in `[0, n)`. Returns 0 for `n == 0` rather than dividing by zero.
    pub fn below(&mut self, n: u64) -> (out: u64)
        ensures
            (out as int, final(self).at()) == drawn(old(self).at(), n as int),
            n > 0 ==> out < n,
    {
        if n == 0 {
            0
        } else {
            self.next_u64() % n
        }
    }
}

/// One generated case.
#[derive(Debug, PartialEq, Eq)]
pub struct Case {
    pub object: String,
    pub size: u64,
    pub start: u64,
    /// Inclusive.
    pub end: u64,
}

impl Clone for Case {
    fn clone(&self) -> (out: Self)
        ensures
            out == *self,
    {
        Case { object: self.object.clone(), size: self.size, start: self.start, end: self.end }
    }
}

/// How a case is shown.
pub open spec fn case_text(case: Case) -> Seq<char> {
    case.object@ + " ("@ + text::decimal(case.size as nat) + " bytes), range "@ + text::decimal(
        case.start as nat,
    ) + "-"@ + text::decimal(case.end as nat)
}

impl Case {
    pub open spec fn spec_len(self) -> int {
        self.end - self.start + 1
    }

    pub fn len(&self) -> (out: u64)
        requires
            self.start <= self.end,
            self.spec_len() <= u64::MAX,
        ensures
            out == self.spec_len(),
    {
        self.end - self.start + 1
    }

    /// Always false: a case covers at least one byte.
    pub fn is_empty(&self) -> (out: bool)
        ensures
            !out,
    {
        false
    }

    pub fn range_header(&self) -> (out: String)
        ensures
            out@ == "bytes="@ + text::decimal(self.start as nat) + "-"@ + text::decimal(
                self.end as nat,
            ),
    {
        let mut out = "bytes=".to_owned();
        out.append(text::decimal_string(self.start).as_str());
        out.append("-");
        out.append(text::decimal_string(self.end).as_str());
        out
    }

    /// The case in words.
    pub fn message(&self) -> (out: String)
        ensures
            out@ == case_text(*self),
    {
        let mut out = self.object.clone();
        out.append(" (");
        out.append(text::decimal_string(self.size).as_str());
        out.append(" bytes), range ");
        out.append(text::decimal_string(self.start).as_str());
        out.append("-");
        out.append(text::decimal_string(self.end).as_str());
        out
    }
}

pub open spec fn smaller(a: int, b: int) -> int {
    if a <= b {
        a
    } else {
        b
    }
}

/// How many slices an object that is not empty has.
pub open spec fn slices(size: int, slice_size: int) -> int {
    (size - 1) / slice_size + 1
}

/// A range at a boundary that breaks slice arithmetic, and the state behind it.
pub open spec fn boundary(state: u64, size: int, slice_size: int) -> ((int, int), u64) {
    let last = size - 1;
    let (kind, state) = drawn(state, 6);
    if kind == 0 {
        ((0, 0), state)
    } else if kind == 1 {
        ((last, last), state)
    } else if kind == 2 {
        ((0, last), state)
    } else if kind == 3 {
        // Exactly one slice.
        let (index, state) = drawn(state, slices(size, slice_size));
        let start = index * slice_size;
        ((smaller(start, last), smaller(start + slice_size - 1, last)), state)
    } else if kind == 4 {
        // Straddling a slice boundary by one byte either side.
        let count = slices(size, slice_size);
        let (index, state) = drawn(
            state,
            (if count >= 2 {
                count
            } else {
                2
            }) - 1,
        );
        let edge = smaller((index + 1) * slice_size, last);
        (
            (
                if edge > 0 {
                    edge - 1
                } else {
                    0
                },
                edge,
            ),
            state,
        )
    } else {
        // The short final slice.
        ((last / slice_size * slice_size, last), state)
    }
}

/// A range, and the state behind it: one in three lies at a boundary, the others anywhere.
pub open spec fn any_range(state: u64, size: int, slice_size: int) -> ((int, int), u64) {
    let (kind, state) = drawn(state, 3);
    if kind == 0 {
        boundary(state, size, slice_size)
    } else {
        let (start, state) = drawn(state, size);
        let (more, state) = drawn(state, size - start);
        ((start, start + more), state)
    }
}

/// Generates cases, biased towards the boundaries that break slice arithmetic.
#[derive(Debug, PartialEq, Eq)]
pub struct Generator {
    rng: Rng,
    objects: usize,
    size: u64,
    slice_size: u64,
}

proof fn lemma_slice_start(index: int, size: int, slice_size: int)
    requires
        size > 0,
        slice_size > 0,
        0 <= index < slices(size, slice_size),
    ensures
        0 <= index * slice_size <= size - 1,
{
    assert(0 <= index * slice_size <= size - 1) by (nonlinear_arith)
        requires
            size > 0,
            slice_size > 0,
            0 <= index <= (size - 1) / slice_size,
    ;
}

proof fn lemma_slices(size: int, slice_size: int)
    requires
        size > 0,
        slice_size > 0,
    ensures
        1 <= slices(size, slice_size) <= size,
        0 <= (size - 1) / slice_size * slice_size <= size - 1,
{
    assert(0 <= (size - 1) / slice_size <= size - 1 && 0 <= (size - 1) / slice_size * slice_size
        <= size - 1) by (nonlinear_arith)
        requires
            size > 0,
            slice_size > 0,
    ;
}

impl Generator {
    pub closed spec fn state(self) -> u64 {
        self.rng.at()
    }

    /// How many objects there are.
    pub closed spec fn object_count(self) -> usize {
        self.objects
    }

    /// How large each of them is.
    pub closed spec fn object_size(self) -> u64 {
        self.size
    }

    pub closed spec fn slice_len(self) -> u64 {
        self.slice_size
    }

    pub fn new(seed: u64, objects: usize, size: u64, slice_size: u64) -> (out: Self)
        ensures
            out.state() == seed,
            out.object_count() == (if objects == 0 {
                1
            } else {
                objects
            }),
            out.object_size() == size,
            out.slice_len() == slice_size,
    {
        Generator {
            rng: Rng::new(seed),
            objects: if objects == 0 {
                1
            } else {
                objects
            },
            size,
            slice_size,
        }
    }

    /// Next case.
    ///
    /// One case in three is a deliberate boundary: the first or last byte, a slice edge, or a range
    /// spanning exactly one slice. Uniform random ranges almost never hit those, and they are where
    /// off-by-one errors live.
    pub fn next_case(&mut self) -> (out: Case)
        requires
            old(self).object_size() > 0,
            old(self).slice_len() > 0,
        ensures
            ({
                let size = old(self).object_size() as int;
                let (object, state) = drawn(old(self).state(), old(self).object_count() as int);
                let ((start, end), state) = any_range(
                    state,
                    size,
                    old(self).slice_len() as int,
                );
                &&& out.object@ == "obj-"@ + text::decimal(object as nat)
                &&& out.size == size
                &&& out.start == start
                &&& out.end == end
                &&& final(self).state() == state
            }),
            out.start <= out.end < out.size,
            final(self).object_count() == old(self).object_count(),
            final(self).object_size() == old(self).object_size(),
            final(self).slice_len() == old(self).slice_len(),
    {
        let mut object = "obj-".to_owned();
        let number: u64 = self.rng.below(self.objects as u64);
        object.append(text::decimal_string(number).as_str());
        let size: u64 = self.size;
        let kind: u64 = self.rng.below(3);
        if kind == 0 {
            let (start, end) = self.boundary_range();
            return Case { object, size, start, end };
        }
        let start: u64 = self.rng.below(size);
        let more: u64 = self.rng.below(size - start);
        Case { object, size, start, end: start + more }
    }

    fn boundary_range(&mut self) -> (out: (u64, u64))
        requires
            old(self).size > 0,
            old(self).slice_size > 0,
        ensures
            ((out.0 as int, out.1 as int), final(self).rng.at()) == boundary(
                old(self).rng.at(),
                old(self).size as int,
                old(self).slice_size as int,
            ),
            out.0 <= out.1 < old(self).size,
            final(self).objects == old(self).objects,
            final(self).size == old(self).size,
            final(self).slice_size == old(self).slice_size,
    {
        let s: u64 = self.slice_size;
        let last: u64 = self.size - 1;
        proof {
            lemma_slices(self.size as int, s as int);
        }
        let count: u64 = last / s + 1;
        let kind: u64 = self.rng.below(6);
        if kind == 0 {
            (0, 0)
        } else if kind == 1 {
            (last, last)
        } else if kind == 2 {
            (0, last)
        } else if kind == 3 {
            let index: u64 = self.rng.below(count);
            proof {
                lemma_slice_start(index as int, self.size as int, s as int);
            }
            let start: u64 = index * s;
            let end: u64 = start.saturating_add(s - 1);
            (
                start,
                if end < last {
                    end
                } else {
                    last
                },
            )
        } else if kind == 4 {
            let choices: u64 = if count >= 2 {
                count - 1
            } else {
                1
            };
            let index: u64 = self.rng.below(choices) + 1;
            proof {
                if count >= 2 {
                    lemma_slice_start(index as int, self.size as int, s as int);
                } else {
                    assert(index == 1);
                }
            }
            let exact: u64 = index * s;
            let edge: u64 = if exact < last {
                exact
            } else {
                last
            };
            (edge.saturating_sub(1), edge)
        } else {
            (last / s * s, last)
        }
    }
}

/// A mismatch, already shrunk.
#[derive(Debug, PartialEq, Eq)]
pub struct Mismatch {
    pub seed: u64,
    pub case: Case,
    /// Offset of the first differing byte, relative to the start of the range.
    pub offset: u64,
    pub expected: u8,
    pub actual: u8,
    pub actual_len: usize,
}

impl Mismatch {
    pub open spec fn message_spec(self) -> Seq<char> {
        "differential mismatch (seed 0x"@ + text::hexadecimal(self.seed as nat) + "): "@ + case_text(
            self.case,
        ) + "\n  first differing byte at offset "@ + text::decimal(self.offset as nat)
            + " of the range (absolute "@ + text::decimal((self.case.start + self.offset) as nat)
            + "): expected 0x"@ + text::hex_pairs(seq![self.expected]) + ", got 0x"@
            + text::hex_pairs(seq![self.actual]) + "\n  response was "@ + text::decimal(
            self.actual_len as nat,
        ) + " bytes, expected "@ + text::decimal(self.case.spec_len() as nat)
    }

    /// The mismatch in words.
    pub fn message(&self) -> (out: String)
        requires
            self.case.start + self.offset <= u64::MAX,
            self.case.start <= self.case.end,
            self.case.spec_len() <= u64::MAX,
        ensures
            out@ == self.message_spec(),
    {
        let expected: Vec<u8> = vec![self.expected];
        let actual: Vec<u8> = vec![self.actual];
        assert(expected@ =~= seq![self.expected]);
        assert(actual@ =~= seq![self.actual]);
        let mut out = "differential mismatch (seed 0x".to_owned();
        out.append(text::hex_string(self.seed).as_str());
        out.append("): ");
        out.append(self.case.message().as_str());
        out.append("\n  first differing byte at offset ");
        out.append(text::decimal_string(self.offset).as_str());
        out.append(" of the range (absolute ");
        out.append(text::decimal_string(self.case.start + self.offset).as_str());
        out.append("): expected 0x");
        out.append(text::hex(expected.as_slice()).as_str());
        out.append(", got 0x");
        out.append(text::hex(actual.as_slice()).as_str());
        out.append("\n  response was ");
        out.append(text::decimal_string(self.actual_len as u64).as_str());
        out.append(" bytes, expected ");
        out.append(text::decimal_string(self.case.len()).as_str());
        out
    }
}

/// What the origin sends for a case.
pub open spec fn expected_for(case: Case) -> Seq<u8> {
    content::content(
        content::hashed(encode_utf8(case.object@)),
        case.start as int,
        case.spec_len() as nat,
    )
}

/// Whether two byte strings part at an offset: they agree before it, and there one of them ends or
/// they differ.
pub open spec fn part_at(a: Seq<u8>, b: Seq<u8>, offset: int) -> bool {
    &&& 0 <= offset <= a.len()
    &&& offset <= b.len()
    &&& a.take(offset) == b.take(offset)
    &&& offset < a.len() && offset < b.len() ==> a[offset] != b[offset]
}

/// A byte, or zero behind the end.
pub open spec fn byte_or_zero(s: Seq<u8>, offset: int) -> u8 {
    if 0 <= offset < s.len() {
        s[offset]
    } else {
        0
    }
}

fn get_or_zero(s: &[u8], offset: usize) -> (out: u8)
    ensures
        out == byte_or_zero(s@, offset as int),
{
    if offset < s.len() {
        s[offset]
    } else {
        0
    }
}

/// Compare a response against what the origin would have produced.
///
/// Shrinks to the first differing byte. A body that is too short or too long, and agrees as far as
/// it goes, is reported at the end of the shorter one.
pub fn compare(seed: u64, case: &Case, actual: &[u8]) -> (out: Result<(), Mismatch>)
    requires
        case.start <= case.end < u64::MAX,
        case.spec_len() <= usize::MAX,
    ensures
        out is Ok <==> actual@ == expected_for(*case),
        out matches Err(m) ==> {
            &&& m.seed == seed
            &&& m.case == *case
            &&& part_at(expected_for(*case), actual@, m.offset as int)
            &&& m.expected == byte_or_zero(expected_for(*case), m.offset as int)
            &&& m.actual == byte_or_zero(actual@, m.offset as int)
            &&& m.actual_len == actual@.len()
        },
{
    let expected = content::range(
        content::seed_for(case.object.as_str()),
        case.start,
        case.len() as usize,
    );
    let n: usize = expected.len();
    let mut at: usize = 0;
    assert(expected@.take(0) =~= actual@.take(0));
    while at < n && at < actual.len() && expected[at] == actual[at]
        invariant
            n == expected@.len(),
            at <= n,
            at <= actual@.len(),
            expected@.take(at as int) == actual@.take(at as int),
        decreases n - at,
    {
        assert(expected@.take(at + 1) =~= expected@.take(at as int).push(expected@[at as int]));
        assert(actual@.take(at + 1) =~= actual@.take(at as int).push(actual@[at as int]));
        at = at + 1;
    }
    if at == n && at == actual.len() {
        assert(expected@.take(at as int) =~= expected@);
        assert(actual@.take(at as int) =~= actual@);
        return Ok(());
    }
    Err(
        Mismatch {
            seed,
            case: case.clone(),
            offset: at as u64,
            expected: get_or_zero(expected.as_slice(), at),
            actual: get_or_zero(actual, at),
            actual_len: actual.len(),
        },
    )
}

/// There is only one place where two byte strings part, so a report names the first difference.
pub proof fn strings_part_once(a: Seq<u8>, b: Seq<u8>, i: int, j: int)
    requires
        part_at(a, b, i),
        part_at(a, b, j),
    ensures
        i == j,
{
    if i < j {
        assert(a.take(j)[i] == b.take(j)[i]);
    } else if j < i {
        assert(a.take(i)[j] == b.take(i)[j]);
    }
}

/// An object has just as many slices as are needed to hold it.
pub proof fn slices_cover_the_object(size: int, slice_size: int)
    requires
        size > 0,
        slice_size > 0,
    ensures
        (slices(size, slice_size) - 1) * slice_size < size <= slices(size, slice_size) * slice_size,
{
    let t = size - 1;
    vstd::arithmetic::div_mod::lemma_fundamental_div_mod(t, slice_size);
    vstd::arithmetic::div_mod::lemma_mod_bound(t, slice_size);
    let q = t / slice_size;
    assert((q + 1) * slice_size == slice_size * q + slice_size) by (nonlinear_arith);
    assert(q * slice_size == slice_size * q) by (nonlinear_arith);
}

/// A boundary range lies at a boundary: it is the first byte, or runs to the last one; or it is one
/// whole slice; or it is the two bytes on either side of the place where two slices meet.
pub proof fn boundary_ranges_lie_at_boundaries(state: u64, size: int, slice_size: int)
    requires
        size > 0,
        slice_size > 0,
    ensures
        ({
            let ((start, end), _) = boundary(state, size, slice_size);
            ||| start == 0 && end == 0
            ||| end == size - 1
            ||| exists|i: int| start == #[trigger] (i * slice_size) && end == start + slice_size - 1
            ||| exists|i: int| end == #[trigger] (i * slice_size) && start == end - 1
        }),
{
    let last = size - 1;
    let (kind, next) = drawn(state, 6);
    if kind == 3 {
        let (index, _) = drawn(next, slices(size, slice_size));
        assert(index * slice_size == index * slice_size);
        if index * slice_size > last {
            assert(smaller(index * slice_size, last) == last);
        }
    } else if kind == 4 {
        let count = slices(size, slice_size);
        let (index, _) = drawn(
            next,
            (if count >= 2 {
                count
            } else {
                2
            }) - 1,
        );
        let exact = (index + 1) * slice_size;
        let edge = smaller(exact, last);
        if edge != last {
            assert(edge == exact);
        }
    }
}

/// A number that is drawn lies below its bound, and drawing from nothing draws nothing.
pub proof fn draws_stay_below_their_bound(state: u64, n: int)
    requires
        n >= 0,
    ensures
        n > 0 ==> 0 <= drawn(state, n).0 < n,
        drawn(state, 0) == (0int, state),
        n > 0 && n <= u64::MAX ==> drawn(state, n).1 != state,
{
    assert(content::MIX != 0);
    if n > 0 {
        assert(state.wrapping_add(content::MIX) != state);
    }
}

/// What is expected of a case is the part of its object that the case asks for.
pub proof fn cases_expect_their_part_of_the_object(case: Case)
    requires
        case.start <= case.end < case.size,
    ensures
        expected_for(case) == content::content(
            content::hashed(encode_utf8(case.object@)),
            0,
            case.size as nat,
        ).subrange(case.start as int, case.end + 1),
{
    content::content_is_position_independent(
        content::hashed(encode_utf8(case.object@)),
        0,
        case.size as nat,
        case.start as int,
        case.spec_len() as nat,
    );
}

/// Two byte strings part where they first differ or where one of them ends.
pub proof fn strings_part_at_their_first_difference(
    common: Seq<u8>,
    x: u8,
    a: Seq<u8>,
    y: u8,
    b: Seq<u8>,
)
    requires
        x != y,
    ensures
        part_at(common + seq![x] + a, common + seq![y] + b, common.len() as int),
        part_at(common, common + seq![y] + b, common.len() as int),
        byte_or_zero(common + seq![x] + a, common.len() as int) == x,
        byte_or_zero(common, common.len() as int) == 0,
{
    let s = common + seq![x] + a;
    let t = common + seq![y] + b;
    let n = common.len() as int;
    assert(s.take(n) =~= common);
    assert(t.take(n) =~= common);
    assert(common.take(n) =~= common);
}

/// Every range that is drawn lies inside the object.
pub proof fn drawn_ranges_lie_inside_the_object(state: u64, size: int, slice_size: int)
    requires
        0 < size <= u64::MAX,
        slice_size > 0,
    ensures
        ({
            let ((start, end), _) = any_range(state, size, slice_size);
            0 <= start <= end < size
        }),
{
    let (kind, next) = drawn(state, 3);
    lemma_slices(size, slice_size);
    if kind == 0 {
        let last = size - 1;
        let (which, after) = drawn(next, 6);
        if which == 3 {
            let count = slices(size, slice_size);
            let (index, _) = drawn(after, count);
            lemma_slice_start(index, size, slice_size);
        } else if which == 4 {
            let count = slices(size, slice_size);
            let (index, _) = drawn(
                after,
                (if count >= 2 {
                    count
                } else {
                    2
                }) - 1,
            );
            assert((index + 1) * slice_size > 0) by (nonlinear_arith)
                requires
                    index >= 0,
                    slice_size > 0,
            ;
        }
    }
}

} // verus!
