//! Range parsing and slice-plan arithmetic.
//!
//! The invariant that everything downstream rests on is the tiling one: the windows that the plan
//! cuts out of the slices put back together are exactly the bytes that were asked for, with no
//! gap and no overlap.
use crate::text;
use vstd::prelude::*;

verus! {

/// A client's `Range` request, before it is resolved against a known object length.
#[derive(Debug, Clone, Copy, PartialEq, Eq, Structural)]
pub enum RangeSpec {
    /// `bytes=a-b`
    FromTo(u64, u64),
    /// `bytes=a-`
    From(u64),
    /// `bytes=-n`, the last `n` bytes.
    Suffix(u64),
}

/// An inclusive byte range resolved against a known object length.
#[derive(Debug, Clone, Copy, PartialEq, Eq, Structural)]
pub struct ByteRange {
    pub start: u64,
    /// Inclusive.
    pub end: u64,
}

impl ByteRange {
    /// The range covers at least one byte, and the number of bytes can be counted in 64 bits.
    pub open spec fn valid(self) -> bool {
        self.start <= self.end && self.end - self.start < u64::MAX
    }

    pub open spec fn spec_len(self) -> int {
        self.end - self.start + 1
    }

    pub fn len(&self) -> (out: u64)
        requires
            self.valid(),
        ensures
            out == self.spec_len(),
    {
        self.end - self.start + 1
    }

    /// A resolved range always holds a byte.
    pub fn is_empty(&self) -> (out: bool)
        ensures
            !out,
    {
        false
    }
}

/// Why a `Range` header did not yield a single satisfiable range.
#[derive(Debug, Clone, Copy, PartialEq, Eq, Structural)]
pub enum RangeError {
    /// Not a `bytes=` range, or otherwise not valid. A header that cannot be parsed is ignored and
    /// the full object is returned.
    Malformed,
    /// More than one range. Answering with the full object is permitted, and is what happens.
    Multiple,
    /// Syntactically valid but outside the object: this is a 416.
    Unsatisfiable,
}

/// The two numbers around the dash, either of which may be left out.
pub open spec fn bounds_spec(start: Seq<char>, end: Seq<char>) -> Result<RangeSpec, RangeError> {
    if start.len() == 0 && end.len() == 0 {
        Err(RangeError::Malformed)
    } else if start.len() == 0 {
        match text::parsed_u64(end) {
            Some(n) => Ok(RangeSpec::Suffix(n)),
            None => Err(RangeError::Malformed),
        }
    } else if end.len() == 0 {
        match text::parsed_u64(start) {
            Some(n) => Ok(RangeSpec::From(n)),
            None => Err(RangeError::Malformed),
        }
    } else {
        match (text::parsed_u64(start), text::parsed_u64(end)) {
            (Some(a), Some(b)) => if a <= b {
                Ok(RangeSpec::FromTo(a, b))
            } else {
                Err(RangeError::Malformed)
            },
            _ => Err(RangeError::Malformed),
        }
    }
}

/// What a `Range` header value asks for.
pub open spec fn range_spec(value: Seq<char>) -> Result<RangeSpec, RangeError> {
    let v = text::trimmed(value);
    if !"bytes="@.is_prefix_of(v) {
        Err(RangeError::Malformed)
    } else {
        let spec = v.skip("bytes="@.len() as int);
        if spec.contains(',') {
            Err(RangeError::Multiple)
        } else {
            match text::split_at_first(spec, '-') {
                None => Err(RangeError::Malformed),
                Some((a, b)) => bounds_spec(text::trimmed(a), text::trimmed(b)),
            }
        }
    }
}

/// Parse a `Range` header value into a single range spec.
pub fn parse_range(value: &str) -> (out: Result<RangeSpec, RangeError>)
    ensures
        out == range_spec(value@),
        out matches Ok(RangeSpec::FromTo(a, b)) ==> a <= b,
{
    let chars = text::chars_of(value);
    let v = text::trim(chars.as_slice());
    let spec = match text::strip_prefix(v, "bytes=") {
        Some(s) => s,
        None => return Err(RangeError::Malformed),
    };
    let comma: usize = text::find(spec, ',', 0);
    proof {
        text::lemma_find_from(spec@, ',', 0);
    }
    if comma < spec.len() {
        assert(spec@[comma as int] == ',');
        return Err(RangeError::Multiple);
    }
    assert(!spec@.contains(','));
    let (a, b) = match text::split_once(spec, '-') {
        Some(pair) => pair,
        None => return Err(RangeError::Malformed),
    };
    let start = text::trim(a);
    let end = text::trim(b);
    if start.len() == 0 && end.len() == 0 {
        Err(RangeError::Malformed)
    } else if start.len() == 0 {
        match text::parse_u64(end) {
            Some(n) => Ok(RangeSpec::Suffix(n)),
            None => Err(RangeError::Malformed),
        }
    } else if end.len() == 0 {
        match text::parse_u64(start) {
            Some(n) => Ok(RangeSpec::From(n)),
            None => Err(RangeError::Malformed),
        }
    } else {
        match (text::parse_u64(start), text::parse_u64(end)) {
            (Some(from), Some(to)) => if from <= to {
                Ok(RangeSpec::FromTo(from, to))
            } else {
                Err(RangeError::Malformed)
            },
            _ => Err(RangeError::Malformed),
        }
    }
}

pub open spec fn min_of(a: int, b: int) -> int {
    if a <= b {
        a
    } else {
        b
    }
}

/// The bytes of an object of `total` bytes that a spec selects. An end beyond the object is
/// clamped; a start beyond it, an empty suffix and an empty object select nothing.
pub open spec fn resolved(spec: RangeSpec, total: u64) -> Result<ByteRange, RangeError> {
    match spec {
        RangeSpec::FromTo(start, end) => if start < total {
            Ok(ByteRange { start, end: min_of(end as int, total - 1) as u64 })
        } else {
            Err(RangeError::Unsatisfiable)
        },
        RangeSpec::From(start) => if start < total {
            Ok(ByteRange { start, end: (total - 1) as u64 })
        } else {
            Err(RangeError::Unsatisfiable)
        },
        RangeSpec::Suffix(n) => if n > 0 && total > 0 {
            Ok(
                ByteRange {
                    start: (total - min_of(n as int, total as int)) as u64,
                    end: (total - 1) as u64,
                },
            )
        } else {
            Err(RangeError::Unsatisfiable)
        },
    }
}

/// Resolve a spec against a known object length.
///
/// A zero-length object satisfies no range.
pub fn resolve(spec: RangeSpec, total: u64) -> (out: Result<ByteRange, RangeError>)
    ensures
        out == resolved(spec, total),
{
    if total == 0 {
        return Err(RangeError::Unsatisfiable);
    }
    let last: u64 = total - 1;
    match spec {
        RangeSpec::FromTo(start, end) => {
            if start > last {
                Err(RangeError::Unsatisfiable)
            } else {
                let end: u64 = if end < last {
                    end
                } else {
                    last
                };
                Ok(ByteRange { start, end })
            }
        },
        RangeSpec::From(start) => {
            if start > last {
                Err(RangeError::Unsatisfiable)
            } else {
                Ok(ByteRange { start, end: last })
            }
        },
        RangeSpec::Suffix(n) => {
            if n == 0 {
                Err(RangeError::Unsatisfiable)
            } else {
                let n: u64 = if n < total {
                    n
                } else {
                    total
                };
                Ok(ByteRange { start: total - n, end: last })
            }
        },
    }
}

/// A spec that was parsed resolves to bytes that lie inside the object, or not at all.
pub proof fn resolved_range_lies_inside_the_object(value: Seq<char>, total: u64)
    requires
        range_spec(value) is Ok,
        resolved(range_spec(value)->Ok_0, total) is Ok,
    ensures
        resolved(range_spec(value)->Ok_0, total)->Ok_0.start <= resolved(
            range_spec(value)->Ok_0,
            total,
        )->Ok_0.end,
        resolved(range_spec(value)->Ok_0, total)->Ok_0.end < total,
{
}

/// The whole object as a range. Used when there is no `Range` header, or when one is ignored.
pub fn whole(total: u64) -> (out: Option<ByteRange>)
    ensures
        total == 0 ==> out is None,
        total > 0 ==> out == Some(ByteRange { start: 0, end: (total - 1) as u64 }),
{
    if total > 0 {
        Some(ByteRange { start: 0, end: total - 1 })
    } else {
        None
    }
}

/// The inclusive span of slice indices covering a byte range.
#[derive(Debug, Clone, Copy, PartialEq, Eq, Structural)]
pub struct SlicePlan {
    pub first: u32,
    /// Inclusive.
    pub last: u32,
    pub slice_size: u32,
}

impl SlicePlan {
    pub fn count(&self) -> (out: u32)
        requires
            self.first <= self.last,
            self.last - self.first < u32::MAX,
        ensures
            out == self.last - self.first + 1,
    {
        self.last - self.first + 1
    }

    /// The indices of the span, in order.
    pub fn indices(&self) -> (out: Vec<u32>)
        ensures
            self.first <= self.last ==> out@.len() == self.last - self.first + 1,
            self.first > self.last ==> out@.len() == 0,
            forall|i: int| 0 <= i < out@.len() ==> out@[i] == self.first + i,
    {
        let mut out: Vec<u32> = Vec::new();
        let last: u64 = self.last as u64;
        let mut next: u64 = self.first as u64;
        while next <= last
            invariant
                last == self.last,
                self.first <= next,
                self.first <= self.last ==> next <= last + 1,
                self.first > self.last ==> next == self.first,
                out@.len() == next - self.first,
                forall|i: int| 0 <= i < out@.len() ==> out@[i] == self.first + i,
            decreases last + 1 - next,
        {
            out.push(next as u32);
            next = next + 1;
        }
        out
    }
}

/// The span of slices over a range. An index is kept in 32 bits.
pub open spec fn planned(range: ByteRange, slice_size: u32) -> SlicePlan {
    SlicePlan {
        first: (range.start as int / slice_size as int) as u32,
        last: (range.end as int / slice_size as int) as u32,
        slice_size,
    }
}

/// Map a byte range onto slice indices.
pub fn plan(range: ByteRange, slice_size: u32) -> (out: SlicePlan)
    requires
        slice_size > 0,
    ensures
        out == planned(range, slice_size),
{
    let s: u64 = slice_size as u64;
    SlicePlan {
        first: #[verifier::truncate] ((range.start / s) as u32),
        last: #[verifier::truncate] ((range.end / s) as u32),
        slice_size,
    }
}

/// Where slice `index` starts.
pub open spec fn slice_start(index: int, slice_size: int) -> int {
    index * slice_size
}

/// The absolute byte range a slice covers within an object of `total` bytes.
///
/// The final slice of an object is short unless the object is an exact multiple of the slice size.
pub fn slice_extent(index: u32, slice_size: u32, total: u64) -> (out: ByteRange)
    requires
        slice_size > 0,
    ensures
        out.start == slice_start(index as int, slice_size as int),
        out.end == min_of(
            slice_start(index as int, slice_size as int) + slice_size - 1,
            if total > 0 {
                total - 1
            } else {
                0
            },
        ),
{
    let s: u64 = slice_size as u64;
    assert(index as int * slice_size as int <= 0xffff_ffff * 0xffff_ffff) by (nonlinear_arith)
        requires
            0 <= index <= 0xffff_ffff,
            0 <= slice_size <= 0xffff_ffff,
    ;
    let start: u64 = index as u64 * s;
    let full: u64 = start + s - 1;
    let last: u64 = total.saturating_sub(1);
    ByteRange {
        start,
        end: if full < last {
            full
        } else {
            last
        },
    }
}

/// Where in slice `index` the wanted bytes start and end.
pub open spec fn window(index: int, slice_size: int, wanted: ByteRange) -> (int, int) {
    let at = slice_start(index, slice_size);
    (
        if wanted.start >= at {
            wanted.start - at
        } else {
            0
        },
        min_of(wanted.end - at + 1, slice_size),
    )
}

/// The sub-slice of slice `index`'s payload that satisfies `wanted`, as offsets into the payload.
pub fn payload_window(index: u32, slice_size: u32, wanted: ByteRange) -> (out: (usize, usize))
    requires
        0 <= wanted.end - slice_start(index as int, slice_size as int) < u64::MAX,
        wanted.start - slice_start(index as int, slice_size as int) <= usize::MAX,
    ensures
        (out.0 as int, out.1 as int) == window(index as int, slice_size as int, wanted),
{
    let s: u64 = slice_size as u64;
    assert(index as int * slice_size as int <= 0xffff_ffff * 0xffff_ffff) by (nonlinear_arith)
        requires
            0 <= index <= 0xffff_ffff,
            0 <= slice_size <= 0xffff_ffff,
    ;
    let at: u64 = index as u64 * s;
    let from: u64 = wanted.start.saturating_sub(at);
    let rest: u64 = wanted.end - at + 1;
    let to: u64 = if rest < s {
        rest
    } else {
        s
    };
    (from as usize, to as usize)
}

/// The part of an object that slice `index` holds.
pub open spec fn slice_of(object: Seq<u8>, index: int, slice_size: int) -> Seq<u8> {
    object.subrange(
        slice_start(index, slice_size),
        min_of(slice_start(index, slice_size) + slice_size, object.len() as int),
    )
}

/// The windows of the slices `first..next`, put one behind the other.
pub open spec fn joined_windows(
    object: Seq<u8>,
    slice_size: int,
    wanted: ByteRange,
    first: int,
    next: int,
) -> Seq<u8>
    decreases next - first,
{
    if next <= first {
        Seq::empty()
    } else {
        let (from, to) = window(next - 1, slice_size, wanted);
        joined_windows(object, slice_size, wanted, first, next - 1) + slice_of(
            object,
            next - 1,
            slice_size,
        ).subrange(from, to)
    }
}

/// The windows of a plan tile the wanted range: each holds at least one byte of its slice, and all
/// of them together are the wanted bytes, in order, with no gap and no overlap.
///
/// Slice indices are 32 bits wide, so the range has to end within the first 2^32 slices.
pub proof fn windows_tile_the_range(object: Seq<u8>, slice_size: u32, wanted: ByteRange)
    requires
        slice_size > 0,
        wanted.start <= wanted.end < object.len(),
        wanted.end as int / slice_size as int <= u32::MAX,
    ensures
        planned(wanted, slice_size).first <= planned(wanted, slice_size).last,
        forall|i: int|
            planned(wanted, slice_size).first <= i <= planned(wanted, slice_size).last ==> {
                let (from, to) = #[trigger] window(i, slice_size as int, wanted);
                0 <= from < to <= slice_of(object, i, slice_size as int).len()
            },
        joined_windows(
            object,
            slice_size as int,
            wanted,
            planned(wanted, slice_size).first as int,
            planned(wanted, slice_size).last + 1,
        ) == object.subrange(wanted.start as int, wanted.end + 1),
{
    let s = slice_size as int;
    let first = wanted.start as int / s;
    let last = wanted.end as int / s;
    assert(first <= last) by (nonlinear_arith)
        requires
            wanted.start <= wanted.end,
            s > 0,
            first == wanted.start as int / s,
            last == wanted.end as int / s,
    ;
    assert(0 <= first) by (nonlinear_arith)
        requires
            wanted.start >= 0,
            s > 0,
            first == wanted.start as int / s,
    ;
    assert forall|i: int| first <= i <= last implies {
        let (from, to) = #[trigger] window(i, s, wanted);
        0 <= from < to <= slice_of(object, i, s).len()
    } by {
        lemma_slice_overlaps(s, wanted, i);
    }
    lemma_joined_prefix(object, slice_size, wanted, last + 1);
    lemma_slice_overlaps(s, wanted, last);
    assert((last + 1) * s == last * s + s) by (nonlinear_arith);
}

/// A planned slice starts at or before the end of the range and ends behind its start.
proof fn lemma_slice_overlaps(s: int, wanted: ByteRange, i: int)
    requires
        s > 0,
        wanted.start <= wanted.end,
        wanted.start as int / s <= i <= wanted.end as int / s,
    ensures
        0 <= i * s <= wanted.end,
        wanted.start < i * s + s,
        i == wanted.end as int / s ==> wanted.end < i * s + s,
        i < wanted.end as int / s ==> i * s + s <= wanted.end,
        i > wanted.start as int / s ==> wanted.start < i * s,
        i == wanted.start as int / s ==> i * s <= wanted.start,
{
    let a = wanted.start as int;
    let b = wanted.end as int;
    assert(0 <= i * s <= b && a < i * s + s && (i == b / s ==> b < i * s + s) && (i < b / s ==> i
        * s + s <= b) && (i > a / s ==> a < i * s) && (i == a / s ==> i * s <= a))
        by (nonlinear_arith)
        requires
            s > 0,
            0 <= a <= b,
            a / s <= i <= b / s,
    ;
}

/// The windows up to slice `next` are the wanted bytes up to where that slice starts.
proof fn lemma_joined_prefix(object: Seq<u8>, slice_size: u32, wanted: ByteRange, next: int)
    requires
        slice_size > 0,
        wanted.start <= wanted.end < object.len(),
        wanted.start as int / slice_size as int <= next <= wanted.end as int / slice_size as int
            + 1,
    ensures
        joined_windows(
            object,
            slice_size as int,
            wanted,
            wanted.start as int / slice_size as int,
            next,
        ) == object.subrange(
            wanted.start as int,
            if next == wanted.start as int / slice_size as int {
                wanted.start as int
            } else {
                min_of(next * slice_size, wanted.end + 1)
            },
        ),
    decreases next,
{
    let s = slice_size as int;
    let first = wanted.start as int / s;
    assert(0 <= first) by (nonlinear_arith)
        requires
            wanted.start >= 0,
            s > 0,
            first == wanted.start as int / s,
    ;
    if next > first {
        let i = next - 1;
        lemma_joined_prefix(object, slice_size, wanted, i);
        lemma_slice_overlaps(s, wanted, i);
        assert(next * s == i * s + s) by (nonlinear_arith)
            requires
                next == i + 1,
        ;
        let (from, to) = window(i, s, wanted);
        let piece = slice_of(object, i, s).subrange(from, to);
        assert(piece =~= object.subrange(i * s + from, i * s + to));
        if i > first {
            assert(i * s <= wanted.end);
        }
        assert(joined_windows(object, s, wanted, first, next) =~= object.subrange(
            wanted.start as int,
            min_of(next * s, wanted.end + 1),
        ));
    } else {
        assert(joined_windows(object, s, wanted, first, next) =~= object.subrange(
            wanted.start as int,
            wanted.start as int,
        ));
    }
}

/// The slices of an object part it: each byte lies in the extent of exactly one of them, so nothing
/// is fetched twice and nothing is left out.
pub proof fn slices_part_the_object(total: u64, slice_size: u32, byte: int, index: int)
    requires
        slice_size > 0,
        0 <= byte < total,
    ensures
        ({
            let start = slice_start(index, slice_size as int);
            start <= byte <= min_of(start + slice_size - 1, total - 1) <==> index == byte
                / slice_size as int
        }),
{
    let s = slice_size as int;
    assert(index * s <= byte < index * s + s <==> index == byte / s) by (nonlinear_arith)
        requires
            s > 0,
            0 <= byte,
    ;
}

/// A range selects exactly the bytes that it asks for, as far as the object has them. `start-end`
/// can be satisfied where its first byte is there, and an end beyond the object is no obstacle;
/// `start-` takes all from there on; and `-last` takes the last so many bytes, or all there are.
pub proof fn ranges_select_the_bytes_they_ask_for(
    start: u64,
    end: u64,
    last: u64,
    total: u64,
    byte: int,
)
    ensures
        resolved(RangeSpec::FromTo(start, end), total) is Ok <==> start < total,
        resolved(RangeSpec::FromTo(start, end), total) matches Ok(r) ==> (r.start <= byte <= r.end
            <==> start <= byte <= end && byte < total),
        resolved(RangeSpec::From(start), total) is Ok <==> start < total,
        resolved(RangeSpec::From(start), total) matches Ok(r) ==> (r.start <= byte <= r.end
            <==> start <= byte < total),
        resolved(RangeSpec::Suffix(last), total) is Ok <==> last > 0 && total > 0,
        resolved(RangeSpec::Suffix(last), total) matches Ok(r) ==> (r.start <= byte <= r.end
            <==> 0 <= byte < total && total - byte <= last),
        resolved(RangeSpec::FromTo(start, end), total) matches Err(e) ==> e
            == RangeError::Unsatisfiable,
        resolved(RangeSpec::From(start), total) matches Err(e) ==> e == RangeError::Unsatisfiable,
        resolved(RangeSpec::Suffix(last), total) matches Err(e) ==> e == RangeError::Unsatisfiable,
{
}

/// A written range is read by what stands on either side of its dash.
proof fn lemma_written(prefix: Seq<char>, a: Seq<char>, b: Seq<char>)
    requires
        prefix == "bytes="@,
        forall|i: int| 0 <= i < a.len() ==> #[trigger] a[i] != '-' && a[i] != ',',
        forall|i: int| 0 <= i < b.len() ==> #[trigger] b[i] != ',',
        ({
            let all = prefix + (a + seq!['-'] + b);
            !text::is_space(all.last())
        }),
    ensures
        range_spec(prefix + (a + seq!['-'] + b)) == bounds_spec(text::trimmed(a), text::trimmed(b)),
{
    reveal_strlit("bytes=");
    let spec = a + seq!['-'] + b;
    let all = prefix + spec;
    assert(all[0] == 'b');
    text::lemma_trimmed_fixed(all);
    assert(prefix =~= all.subrange(0, 6));
    assert(all.skip(6) =~= spec);
    assert forall|i: int| 0 <= i < spec.len() implies #[trigger] spec[i] != ',' by {
        if i < a.len() {
            assert(spec[i] == a[i]);
        } else if i > a.len() {
            assert(spec[i] == b[i - a.len() - 1]);
        }
    }
    text::texts_part_at_every_separator(a, '-', b);
}

proof fn lemma_number_is_plain(n: u64)
    ensures
        ({
            let d = text::decimal(n as nat);
            &&& d.len() > 0
            &&& text::trimmed(d) == d
            &&& text::parsed_u64(d) == Some(n)
            &&& !text::is_space(d.last())
            &&& forall|i: int| 0 <= i < d.len() ==> #[trigger] d[i] != '-' && d[i] != ','
        }),
{
    let d = text::decimal(n as nat);
    text::lemma_decimal_reads_back(n as nat);
    assert forall|i: int| 0 <= i < d.len() implies #[trigger] d[i] != '-' && d[i] != ','
        && !text::is_space(d[i]) by {
        assert(text::is_digit(d[i]));
    }
    text::lemma_trimmed_fixed(d);
    text::numbers_are_written_in_decimal(n as nat, 0);
}

/// A range that is written is read as it was written: `bytes=a-b`, `bytes=a-` and `bytes=-n`. One
/// that runs backwards is no range, and neither is one without any number.
pub proof fn written_ranges_are_read(a: u64, b: u64)
    ensures
        ({
            let first = text::decimal(a as nat);
            let second = text::decimal(b as nat);
            let none = Seq::<char>::empty();
            let dash = seq!['-'];
            &&& a <= b ==> range_spec("bytes="@ + (first + dash + second)) == Ok::<
                RangeSpec,
                RangeError,
            >(RangeSpec::FromTo(a, b))
            &&& a > b ==> range_spec("bytes="@ + (first + dash + second)) == Err::<
                RangeSpec,
                RangeError,
            >(RangeError::Malformed)
            &&& range_spec("bytes="@ + (first + dash + none)) == Ok::<RangeSpec, RangeError>(
                RangeSpec::From(a),
            )
            &&& range_spec("bytes="@ + (none + dash + second)) == Ok::<RangeSpec, RangeError>(
                RangeSpec::Suffix(b),
            )
            &&& range_spec("bytes="@ + (none + dash + none)) == Err::<RangeSpec, RangeError>(
                RangeError::Malformed,
            )
        }),
{
    let first = text::decimal(a as nat);
    let second = text::decimal(b as nat);
    let none = Seq::<char>::empty();
    lemma_number_is_plain(a);
    lemma_number_is_plain(b);
    text::lemma_trimmed_fixed(none);
    assert(("bytes="@ + (first + seq!['-'] + second)).last() == second.last());
    assert(("bytes="@ + (none + seq!['-'] + second)).last() == second.last());
    assert(("bytes="@ + (first + seq!['-'] + none)).last() == '-');
    assert(("bytes="@ + (none + seq!['-'] + none)).last() == '-');
    lemma_written("bytes="@, first, second);
    lemma_written("bytes="@, first, none);
    lemma_written("bytes="@, none, second);
    lemma_written("bytes="@, none, none);
}

/// White space around a range makes no difference; several ranges are told apart from one by their
/// comma; and what counts anything but bytes is no range.
pub proof fn ranges_are_read_as_one_or_not_at_all(
    before: Seq<char>,
    value: Seq<char>,
    after: Seq<char>,
    comma: int,
)
    requires
        forall|i: int| 0 <= i < before.len() ==> text::is_space(#[trigger] before[i]),
        forall|i: int| 0 <= i < after.len() ==> text::is_space(#[trigger] after[i]),
        value.len() > 0 ==> !text::is_space(value[0]) && !text::is_space(value.last()),
    ensures
        range_spec(before + value + after) == range_spec(value),
        !(value.len() >= 6 && value.take(6) == "bytes="@) ==> range_spec(value) == Err::<
            RangeSpec,
            RangeError,
        >(RangeError::Malformed),
        value.len() >= 6 && value.take(6) == "bytes="@ && 6 <= comma < value.len() && value[comma]
            == ',' ==> range_spec(value) == Err::<RangeSpec, RangeError>(RangeError::Multiple),
{
    reveal_strlit("bytes=");
    text::trimming_takes_the_white_space_around(before, value, after);
    text::lemma_trimmed_fixed(value);
    if value.len() >= 6 {
        assert(value.take(6) =~= value.subrange(0, 6));
        if 6 <= comma < value.len() {
            assert(value.skip(6)[comma - 6] == value[comma]);
        }
    }
}

/// A range is read by the numbers on either side of its dash, whatever white space is around them
/// and however they are written: both have to be numbers where there is anything, one of them has to
/// be there, and the first must not be larger than the second.
pub proof fn ranges_are_read_by_their_numbers(a: Seq<char>, b: Seq<char>)
    requires
        forall|i: int| 0 <= i < a.len() ==> #[trigger] a[i] != '-' && a[i] != ',',
        forall|i: int| 0 <= i < b.len() ==> #[trigger] b[i] != ',',
        b.len() > 0 ==> !text::is_space(b.last()),
    ensures
        ({
            let read = range_spec("bytes="@ + (a + seq!['-'] + b));
            let (start, end) = (text::trimmed(a), text::trimmed(b));
            let (x, y) = (text::parsed_u64(start), text::parsed_u64(end));
            &&& start.len() > 0 && end.len() > 0 && x is Some && y is Some && x->0 <= y->0 ==> read
                == Ok::<RangeSpec, RangeError>(RangeSpec::FromTo(x->0, y->0))
            &&& start.len() > 0 && end.len() == 0 && x is Some ==> read == Ok::<
                RangeSpec,
                RangeError,
            >(RangeSpec::From(x->0))
            &&& start.len() == 0 && end.len() > 0 && y is Some ==> read == Ok::<
                RangeSpec,
                RangeError,
            >(RangeSpec::Suffix(y->0))
            &&& (start.len() > 0 && x is None) || (end.len() > 0 && y is None) || (start.len() == 0
                && end.len() == 0) || (x is Some && y is Some && x->0 > y->0) ==> read == Err::<
                RangeSpec,
                RangeError,
            >(RangeError::Malformed)
        }),
{
    let all = "bytes="@ + (a + seq!['-'] + b);
    if b.len() > 0 {
        assert(all.last() == b.last());
    } else {
        assert(all.last() == '-');
    }
    lemma_written("bytes="@, a, b);
    text::only_digits_make_a_number(seq!['-'], 0);
    assert(text::parsed_u64(Seq::empty()) is None);
    if text::trimmed(a).len() == 0 {
        assert(text::trimmed(a) =~= Seq::empty());
    }
    if text::trimmed(b).len() == 0 {
        assert(text::trimmed(b) =~= Seq::empty());
    }
}

} // verus!
