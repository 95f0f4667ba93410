//! Read-ahead policy.
//!
//! Fetching slices that a client has not asked for is speculation. It is worth doing for a client
//! that is clearly streaming an object, and harmful otherwise: scattered ranges into large files
//! would multiply upstream traffic for content nobody reads.
use crate::store::slice::ObjectId;
use crate::text;
use vstd::prelude::*;

verus! {

/// How many consecutive in-order requests before a client is judged to be streaming.
///
/// Two is too eager: a client fetching a header and then the body looks sequential for one step.
pub const SEQUENTIAL_THRESHOLD: u32 = 3;

/// Forget an access pattern after this many milliseconds.
pub const PATTERN_TTL: u64 = 60_000;

/// Hard cap on tracked objects.
pub const MAX_TRACKED: usize = 1024;

/// What a request's access pattern suggests.
#[derive(Debug, Clone, Copy, PartialEq, Eq, Structural)]
pub enum Access {
    /// First sighting, or a jump. Fetch only what was asked for.
    Random,
    /// Consecutive in-order ranges. Prefetching ahead is likely to pay.
    Sequential,
}

/// The access pattern of one object.
#[derive(Debug, Clone, Copy)]
pub struct Pattern {
    pub object: ObjectId,
    /// The slice index immediately after the last range served.
    pub next_expected: u32,
    pub consecutive: u32,
    /// When it was last seen, in milliseconds.
    pub seen: u64,
}

/// Tracks per-object access patterns.
///
/// Keyed by object rather than by client: a single object being streamed by several clients at
/// once is the case worth prefetching for.
#[derive(Debug)]
pub struct ReadaheadPolicy {
    patterns: Vec<Pattern>,
    window: u32,
}

pub open spec fn elapsed(now: u64, seen: u64) -> int {
    if now >= seen {
        now - seen
    } else {
        0
    }
}

pub open spec fn is_fresh(p: Pattern, now: u64) -> bool {
    elapsed(now, p.seen) < PATTERN_TTL
}

/// Where the pattern stands that was seen longest ago; the first of them where there are several.
pub open spec fn oldest(s: Seq<Pattern>) -> int
    decreases s.len(),
{
    if s.len() <= 1 {
        0
    } else {
        let o = oldest(s.drop_last());
        if s.last().seen < s[o].seen {
            s.len() - 1
        } else {
            o
        }
    }
}

/// Patterns without the `k` that were seen longest ago.
pub open spec fn without_oldest(s: Seq<Pattern>, k: nat) -> Seq<Pattern>
    decreases k,
{
    if k == 0 || s.len() == 0 {
        s
    } else {
        without_oldest(s.remove(oldest(s)), (k - 1) as nat)
    }
}

/// The patterns with room for one more. A full table is cleared of what has expired; where all of
/// it is fresh, the older half goes.
pub open spec fn with_room(s: Seq<Pattern>, now: u64) -> Seq<Pattern> {
    if s.len() < MAX_TRACKED {
        s
    } else {
        let fresh = s.filter(|p: Pattern| is_fresh(p, now));
        if fresh.len() < MAX_TRACKED {
            fresh
        } else {
            without_oldest(fresh, (MAX_TRACKED / 2) as nat)
        }
    }
}

/// Where an object stands among the patterns.
pub open spec fn find_object(s: Seq<Pattern>, object: ObjectId) -> Option<int>
    decreases s.len(),
{
    if s.len() == 0 {
        None
    } else if s.last().object@ == object@ {
        Some(s.len() - 1)
    } else {
        find_object(s.drop_last(), object)
    }
}

pub open spec fn next_after(last: u32) -> u32 {
    if last == u32::MAX {
        last
    } else {
        (last + 1) as u32
    }
}

/// How many requests in a row have continued one another, this one counted.
pub open spec fn run_length(p: Pattern, first: u32, now: u64) -> u32 {
    if !is_fresh(p, now) || first != p.next_expected {
        0
    } else if p.consecutive == u32::MAX {
        p.consecutive
    } else {
        (p.consecutive + 1) as u32
    }
}

/// The patterns once a request for the slices `first..=last` of an object has been seen.
pub open spec fn observed(s: Seq<Pattern>, object: ObjectId, first: u32, last: u32, now: u64) -> Seq<
    Pattern,
> {
    let room = with_room(s, now);
    match find_object(room, object) {
        None => room.push(
            Pattern { object, next_expected: next_after(last), consecutive: 0, seen: now },
        ),
        Some(i) => room.update(
            i,
            Pattern {
                object: room[i].object,
                next_expected: next_after(last),
                consecutive: run_length(room[i], first, now),
                seen: now,
            },
        ),
    }
}

/// What that request's access looks like.
pub open spec fn access_of(s: Seq<Pattern>, object: ObjectId, first: u32, now: u64) -> Access {
    let room = with_room(s, now);
    match find_object(room, object) {
        Some(i) => if run_length(room[i], first, now) >= SEQUENTIAL_THRESHOLD {
            Access::Sequential
        } else {
            Access::Random
        },
        None => Access::Random,
    }
}

/// No object is tracked twice.
pub open spec fn distinct(s: Seq<Pattern>) -> bool {
    forall|i: int, j: int|
        0 <= i < j < s.len() ==> (#[trigger] s[i]).object@ != (#[trigger] s[j]).object@
}

proof fn lemma_oldest(s: Seq<Pattern>)
    requires
        s.len() > 0,
    ensures
        0 <= oldest(s) < s.len(),
        forall|i: int| 0 <= i < s.len() ==> s[oldest(s)].seen <= (#[trigger] s[i]).seen,
    decreases s.len(),
{
    if s.len() > 1 {
        let before = s.drop_last();
        lemma_oldest(before);
        assert forall|i: int| 0 <= i < s.len() implies s[oldest(s)].seen <= (#[trigger] s[i]).seen by {
            if i < before.len() {
                assert(before[i] == s[i]);
            }
        }
    }
}

proof fn lemma_removed_distinct(s: Seq<Pattern>, k: int)
    requires
        distinct(s),
        0 <= k < s.len(),
    ensures
        distinct(s.remove(k)),
{
    let t = s.remove(k);
    assert forall|i: int, j: int| 0 <= i < j < t.len() implies (#[trigger] t[i]).object@ != (
    #[trigger] t[j]).object@ by {
        let a = if i < k {
            i
        } else {
            i + 1
        };
        let b = if j < k {
            j
        } else {
            j + 1
        };
        assert(t[i] == s[a] && t[j] == s[b]);
    }
}

proof fn lemma_without_oldest(s: Seq<Pattern>, k: nat)
    requires
        distinct(s),
    ensures
        distinct(without_oldest(s, k)),
        k <= s.len() ==> without_oldest(s, k).len() == s.len() - k,
    decreases k,
{
    if k > 0 && s.len() > 0 {
        lemma_oldest(s);
        lemma_removed_distinct(s, oldest(s));
        lemma_without_oldest(s.remove(oldest(s)), (k - 1) as nat);
    }
}

proof fn lemma_filter_distinct(s: Seq<Pattern>, keep: spec_fn(Pattern) -> bool)
    requires
        distinct(s),
    ensures
        distinct(s.filter(keep)),
        s.filter(keep).len() <= s.len(),
        forall|i: int|
            0 <= i < s.filter(keep).len() ==> exists|j: int|
                0 <= j < s.len() && s[j] == #[trigger] s.filter(keep)[i],
    decreases s.len(),
{
    reveal(Seq::filter);
    if s.len() > 0 {
        let before = s.drop_last();
        lemma_filter_distinct(before, keep);
        let f = before.filter(keep);
        let g = s.filter(keep);
        assert forall|i: int| 0 <= i < g.len() implies exists|j: int|
            0 <= j < s.len() && s[j] == #[trigger] g[i] by {
            if i < f.len() {
                assert(g[i] == f[i]);
                let j = choose|j: int| 0 <= j < before.len() && before[j] == f[i];
                assert(s[j] == g[i]);
            } else {
                assert(s[s.len() - 1] == g[i]);
            }
        }
        assert forall|i: int, j: int| 0 <= i < j < g.len() implies (#[trigger] g[i]).object@ != (
        #[trigger] g[j]).object@ by {
            assert(g[i] == f[i]);
            if j < f.len() {
                assert(g[j] == f[j]);
            } else {
                let m = choose|m: int| 0 <= m < before.len() && before[m] == f[i];
                assert(s[m] == g[i]);
                assert(s[s.len() - 1] == g[j]);
            }
        }
    }
}

proof fn lemma_with_room(s: Seq<Pattern>, now: u64)
    requires
        distinct(s),
        s.len() <= MAX_TRACKED,
    ensures
        distinct(with_room(s, now)),
        with_room(s, now).len() < MAX_TRACKED,
{
    let keep = |p: Pattern| is_fresh(p, now);
    lemma_filter_distinct(s, keep);
    lemma_without_oldest(s.filter(keep), (MAX_TRACKED / 2) as nat);
}

proof fn lemma_find_object(s: Seq<Pattern>, object: ObjectId)
    ensures
        match find_object(s, object) {
            Some(i) => 0 <= i < s.len() && s[i].object@ == object@,
            None => forall|i: int| 0 <= i < s.len() ==> (#[trigger] s[i]).object@ != object@,
        },
    decreases s.len(),
{
    if s.len() > 0 && s.last().object@ != object@ {
        lemma_find_object(s.drop_last(), object);
        assert forall|i: int|
            0 <= i < s.len() && find_object(s, object) is None implies (#[trigger] s[i]).object@
            != object@ by {
            if i < s.len() - 1 {
                assert(s.drop_last()[i] == s[i]);
            }
        }
    }
}

/// The oldest of some patterns.
fn oldest_index(s: &Vec<Pattern>) -> (out: usize)
    requires
        s@.len() > 0,
    ensures
        out == oldest(s@),
        out < s@.len(),
{
    let n: usize = s.len();
    let mut best: usize = 0;
    assert(s@.take(1).len() == 1);
    for i in 1..n
        invariant
            n == s@.len(),
            best < i,
            best == oldest(s@.take(i as int)),
    {
        assert(s@.take(i + 1).drop_last() =~= s@.take(i as int));
        proof {
            lemma_oldest(s@.take(i as int));
        }
        if s[i].seen < s[best].seen {
            best = i;
        }
    }
    assert(s@.take(n as int) =~= s@);
    best
}

impl ReadaheadPolicy {
    /// What is tracked.
    pub closed spec fn tracked_patterns(self) -> Seq<Pattern> {
        self.patterns@
    }

    pub closed spec fn window_size(self) -> u32 {
        self.window
    }

    /// The table is bounded, and no object is in it twice.
    #[verifier::type_invariant]
    spec fn well_formed(self) -> bool {
        distinct(self.patterns@) && self.patterns@.len() <= MAX_TRACKED
    }

    /// A policy that prefetches `window` slices, kept in 32 bits.
    pub fn new(window: usize) -> (out: Self)
        ensures
            out.tracked_patterns() == tracked_after(Seq::empty()),
            out.tracked_patterns().len() == 0,
            out.window_size() == window as u32,
    {
        ReadaheadPolicy { patterns: Vec::new(), window: #[verifier::truncate] (window as u32) }
    }

    /// Record a request for slices `first..=last` at the time `now`, in milliseconds, and classify
    /// the access.
    pub fn observe(&mut self, object: ObjectId, first: u32, last: u32, now: u64) -> (out: Access)
        ensures
            out == access_of(old(self).tracked_patterns(), object, first, now),
            final(self).tracked_patterns() == observed(
                old(self).tracked_patterns(),
                object,
                first,
                last,
                now,
            ),
            final(self).tracked_patterns().len() <= MAX_TRACKED,
            final(self).window_size() == old(self).window_size(),
    {
        proof {
            use_type_invariant(&*self);
            lemma_with_room(self.patterns@, now);
        }
        let window: u32 = self.window;
        let mut patterns: Vec<Pattern> = Vec::new();
        std::mem::swap(&mut patterns, &mut self.patterns);
        let ghost before = patterns@;
        make_room(&mut patterns, now);
        let ghost room = patterns@;
        proof {
            lemma_find_object(room, object);
        }
        let found: Option<usize> = position(&patterns, &object);
        let next: u32 = last.saturating_add(1);
        match found {
            None => {
                patterns.push(
                    Pattern { object, next_expected: next, consecutive: 0, seen: now },
                );
                assert(distinct(patterns@));
                *self = ReadaheadPolicy { patterns, window };
                Access::Random
            },
            Some(i) => {
                let p = patterns[i];
                let fresh = now.saturating_sub(p.seen) < PATTERN_TTL;
                let consecutive: u32 = if fresh && first == p.next_expected {
                    p.consecutive.saturating_add(1)
                } else {
                    0
                };
                patterns.set(
                    i,
                    Pattern { object: p.object, next_expected: next, consecutive, seen: now },
                );
                proof {
                    let after = patterns@;
                    assert forall|a: int, b: int| 0 <= a < b < after.len() implies (
                    #[trigger] after[a]).object@ != (#[trigger] after[b]).object@ by {
                        assert(after[a].object == room[a].object);
                        assert(after[b].object == room[b].object);
                    }
                }
                *self = ReadaheadPolicy { patterns, window };
                if consecutive >= SEQUENTIAL_THRESHOLD {
                    Access::Sequential
                } else {
                    Access::Random
                }
            },
        }
    }

    /// Slices to prefetch beyond `last`, given the access pattern and the object's last slice.
    ///
    /// Empty for random access, which is the whole point.
    pub fn prefetch(&self, access: Access, last: u32, last_slice: u32) -> (out: std::ops::Range<
        u32,
    >)
        ensures
            (out.start, out.end) == prefetch_span(self.window_size(), access, last, last_slice),
    {
        if access != Access::Sequential || self.window == 0 {
            return 0..0;
        }
        let start: u32 = last.saturating_add(1);
        let ahead: u32 = start.saturating_add(self.window);
        let limit: u32 = last_slice.saturating_add(1);
        let end: u32 = if ahead < limit {
            ahead
        } else {
            limit
        };
        if start >= end {
            return 0..0;
        }
        start..end
    }

    pub fn window(&self) -> (out: u32)
        ensures
            out == self.window_size(),
    {
        self.window
    }

    /// How many objects are tracked.
    pub fn tracked_count(&self) -> (out: usize)
        ensures
            out == self.tracked_patterns().len(),
            out <= MAX_TRACKED,
    {
        proof {
            use_type_invariant(self);
        }
        self.patterns.len()
    }
}

pub open spec fn saturated(n: int) -> u32 {
    if n > u32::MAX {
        u32::MAX
    } else {
        n as u32
    }
}

/// The first slice to prefetch and the one behind the last, both zero where there is none.
pub open spec fn prefetch_span(window: u32, access: Access, last: u32, last_slice: u32) -> (
    u32,
    u32,
) {
    let start = saturated(last + 1);
    let ahead = saturated(start + window);
    let limit = saturated(last_slice + 1);
    let end = if ahead < limit {
        ahead
    } else {
        limit
    };
    if access == Access::Random || window == 0 || start >= end {
        (0, 0)
    } else {
        (start, end)
    }
}

/// Frees room for one more pattern.
fn make_room(patterns: &mut Vec<Pattern>, now: u64)
    requires
        distinct(old(patterns)@),
        old(patterns)@.len() <= MAX_TRACKED,
    ensures
        final(patterns)@ == with_room(old(patterns)@, now),
{
    let n: usize = patterns.len();
    if n < MAX_TRACKED {
        return;
    }
    let ghost all = patterns@;
    let ghost keep = |p: Pattern| is_fresh(p, now);
    proof {
        lemma_filter_distinct(all, keep);
    }
    let mut fresh: Vec<Pattern> = Vec::new();
    assert(all.take(0) =~= Seq::empty());
    assert(all.take(0).filter(keep) =~= Seq::empty()) by {
        reveal(Seq::filter);
    }
    for i in 0..n
        invariant
            n == patterns@.len(),
            all == patterns@,
            keep == (|p: Pattern| is_fresh(p, now)),
            fresh@ == all.take(i as int).filter(keep),
    {
        reveal(Seq::filter);
        assert(all.take(i + 1).drop_last() =~= all.take(i as int));
        let p = patterns[i];
        assert(all.take(i + 1).last() == p);
        if now.saturating_sub(p.seen) < PATTERN_TTL {
            fresh.push(p);
        }
    }
    assert(all.take(n as int) =~= all);
    if fresh.len() >= MAX_TRACKED {
        let ghost start = fresh@;
        let mut left: usize = MAX_TRACKED / 2;
        while left > 0
            invariant
                left <= MAX_TRACKED / 2,
                fresh@.len() == start.len() - (MAX_TRACKED / 2 - left),
                start.len() >= MAX_TRACKED,
                without_oldest(fresh@, left as nat) == without_oldest(
                    start,
                    (MAX_TRACKED / 2) as nat,
                ),
            decreases left,
        {
            let k: usize = oldest_index(&fresh);
            let _ = fresh.remove(k);
            left = left - 1;
        }
    }
    *patterns = fresh;
}

fn position(patterns: &Vec<Pattern>, object: &ObjectId) -> (out: Option<usize>)
    ensures
        match find_object(patterns@, *object) {
            Some(i) => out matches Some(o) && o == i && o < patterns@.len(),
            None => out is None,
        },
{
    let mut n: usize = patterns.len();
    assert(patterns@.take(n as int) =~= patterns@);
    while n > 0
        invariant
            n <= patterns@.len(),
            find_object(patterns@, *object) == find_object(patterns@.take(n as int), *object),
        decreases n,
    {
        if text::same_bytes(patterns[n - 1].object.as_slice(), object.as_slice()) {
            return Some(n - 1);
        }
        assert(patterns@.take(n as int).drop_last() =~= patterns@.take(n - 1));
        n = n - 1;
    }
    None
}

/// Nothing is prefetched for random access, and what is prefetched lies behind what was asked for,
/// inside the object, and within the window.
pub proof fn prefetching_is_bounded(window: u32, access: Access, last: u32, last_slice: u32)
    ensures
        access == Access::Random ==> prefetch_span(window, access, last, last_slice) == (0u32, 0u32),
        ({
            let (start, end) = prefetch_span(window, access, last, last_slice);
            start < end ==> last < start && end <= last_slice + 1 && end - start <= window
        }),
{
}

/// An object is judged to be streamed only once three requests in a row have each continued the
/// one before within the time that a pattern is remembered.
pub proof fn streaming_takes_a_run_of_requests(
    s: Seq<Pattern>,
    object: ObjectId,
    first: u32,
    now: u64,
)
    requires
        access_of(s, object, first, now) == Access::Sequential,
    ensures
        find_object(with_room(s, now), object) matches Some(i) && {
            let p = with_room(s, now)[i];
            first == p.next_expected && is_fresh(p, now) && p.consecutive >= SEQUENTIAL_THRESHOLD
                - 1
        },
{
}

/// A request that does not continue the last one starts the count anew.
pub proof fn jumps_reset_the_run(p: Pattern, first: u32, now: u64)
    requires
        first != p.next_expected,
    ensures
        run_length(p, first, now) == 0,
{
}

/// A request for the slices `first..=last` of an object, at the time `now`.
pub struct Sighting {
    pub object: ObjectId,
    pub first: u32,
    pub last: u32,
    pub now: u64,
}

/// What is tracked once some requests have been observed, starting from nothing.
pub open spec fn tracked_after(seen: Seq<Sighting>) -> Seq<Pattern>
    decreases seen.len(),
{
    if seen.len() == 0 {
        Seq::empty()
    } else {
        let s = seen.last();
        observed(tracked_after(seen.drop_last()), s.object, s.first, s.last, s.now)
    }
}

/// The requests for one object, in order.
pub open spec fn sightings_of(seen: Seq<Sighting>, object: ObjectId) -> Seq<Sighting> {
    seen.filter(|s: Sighting| s.object@ == object@)
}

/// The objects that were requested.
pub open spec fn objects_in(seen: Seq<Sighting>) -> Set<Seq<u8>> {
    seen.map_values(|s: Sighting| s.object@).to_set()
}

/// No request came after another when that was already forgotten.
pub open spec fn close_together(seen: Seq<Sighting>) -> bool {
    forall|i: int, j: int|
        0 <= i < j < seen.len() ==> elapsed((#[trigger] seen[j]).now, (#[trigger] seen[i]).now)
            < PATTERN_TTL
}

/// Whether request `i` starts where the one before it ended.
pub open spec fn continues(seen: Seq<Sighting>, i: int) -> bool {
    0 < i < seen.len() && seen[i].first == next_after(seen[i - 1].last)
}

/// How many requests at the end continue the one before each.
pub open spec fn run_of(seen: Seq<Sighting>) -> u32
    decreases seen.len(),
{
    if !continues(seen, seen.len() - 1) {
        0
    } else {
        saturated(run_of(seen.drop_last()) + 1)
    }
}

/// Whether a pattern says what the requests for its object came to.
spec fn sums_up(p: Pattern, mine: Seq<Sighting>) -> bool {
    &&& mine.len() > 0
    &&& p.next_expected == next_after(mine.last().last)
    &&& p.consecutive == run_of(mine)
    &&& p.seen == mine.last().now
}

proof fn lemma_find_same(s: Seq<Pattern>, t: Seq<Pattern>, object: ObjectId)
    requires
        s.len() == t.len(),
        forall|i: int| 0 <= i < s.len() ==> (#[trigger] s[i]).object == (#[trigger] t[i]).object,
    ensures
        find_object(s, object) == find_object(t, object),
    decreases s.len(),
{
    if s.len() > 0 {
        assert(s[s.len() - 1].object == t[t.len() - 1].object);
        assert forall|i: int| 0 <= i < s.len() - 1 implies (#[trigger] s.drop_last()[i]).object
            == (#[trigger] t.drop_last()[i]).object by {
            assert(s[i].object == t[i].object);
        }
        lemma_find_same(s.drop_last(), t.drop_last(), object);
    }
}

proof fn lemma_sightings_push(seen: Seq<Sighting>, object: ObjectId)
    requires
        seen.len() > 0,
    ensures
        sightings_of(seen, object) == (if seen.last().object@ == object@ {
            sightings_of(seen.drop_last(), object).push(seen.last())
        } else {
            sightings_of(seen.drop_last(), object)
        }),
{
    reveal(Seq::filter);
}

proof fn lemma_objects_push(seen: Seq<Sighting>)
    requires
        seen.len() > 0,
    ensures
        objects_in(seen) == objects_in(seen.drop_last()).insert(seen.last().object@),
        objects_in(seen.drop_last()).finite(),
        objects_in(seen.drop_last()).len() <= objects_in(seen).len(),
{
    let all = seen.map_values(|s: Sighting| s.object@);
    let front = seen.drop_last().map_values(|s: Sighting| s.object@);
    assert(all =~= front.push(seen.last().object@));
    assert(all.to_set() =~= front.to_set().insert(seen.last().object@)) by {
        assert(all[all.len() - 1] == seen.last().object@);
        assert forall|x: Seq<u8>| front.contains(x) implies all.contains(x) by {
            let k = choose|k: int| 0 <= k < front.len() && front[k] == x;
            assert(all[k] == x);
        }
        assert forall|x: Seq<u8>| all.contains(x) implies x == seen.last().object@
            || front.contains(x) by {
            let k = choose|k: int| 0 <= k < all.len() && all[k] == x;
            if k < front.len() {
                assert(front[k] == x);
            }
        }
    }
    vstd::seq_lib::seq_to_set_is_finite(front);
}

/// Something of an object was seen exactly where it is among the objects.
proof fn lemma_objects_hold(seen: Seq<Sighting>, object: ObjectId)
    ensures
        objects_in(seen).contains(object@) <==> sightings_of(seen, object).len() > 0,
    decreases seen.len(),
{
    if seen.len() > 0 {
        lemma_objects_hold(seen.drop_last(), object);
        lemma_objects_push(seen);
        lemma_sightings_push(seen, object);
    } else {
        reveal(Seq::filter);
        assert(objects_in(seen) =~= Set::empty());
    }
}

proof fn lemma_tracked(seen: Seq<Sighting>, object: ObjectId)
    requires
        close_together(seen),
        objects_in(seen).len() < MAX_TRACKED,
    ensures
        distinct(tracked_after(seen)),
        tracked_after(seen).len() == objects_in(seen).len(),
        match find_object(tracked_after(seen), object) {
            Some(i) => sums_up(tracked_after(seen)[i], sightings_of(seen, object)),
            None => sightings_of(seen, object).len() == 0,
        },
    decreases seen.len(),
{
    let after = tracked_after(seen);
    let mine = sightings_of(seen, object);
    if seen.len() == 0 {
        reveal(Seq::filter);
        assert(objects_in(seen) =~= Set::empty());
    } else {
        let front = seen.drop_last();
        let s = seen.last();
        let before = tracked_after(front);
        lemma_objects_push(seen);
        assert(close_together(front)) by {
            assert forall|i: int, j: int| 0 <= i < j < front.len() implies elapsed(
                (#[trigger] front[j]).now,
                (#[trigger] front[i]).now,
            ) < PATTERN_TTL by {
                assert(front[j] == seen[j] && front[i] == seen[i]);
            }
        }
        lemma_tracked(front, object);
        lemma_tracked(front, s.object);
        lemma_find_object(before, object);
        lemma_find_object(before, s.object);
        lemma_find_object(after, object);
        lemma_objects_hold(front, s.object);
        lemma_sightings_push(seen, object);
        lemma_sightings_push(seen, s.object);
        match find_object(before, s.object) {
            None => {
                assert(after.drop_last() =~= before);
                assert(distinct(after));
            },
            Some(k) => {
                assert(objects_in(seen) =~= objects_in(front));
                assert forall|i: int| 0 <= i < before.len() implies (#[trigger] before[i]).object
                    == (#[trigger] after[i]).object by {}
                lemma_find_same(before, after, object);
                lemma_find_same(before, after, s.object);
                assert forall|i: int, j: int| 0 <= i < j < after.len() implies (
                #[trigger] after[i]).object@ != (#[trigger] after[j]).object@ by {
                    assert(before[i].object == after[i].object);
                    assert(before[j].object == after[j].object);
                }
                if object@ == s.object@ {
                    lemma_find_alike(before, object, s.object);
                    lemma_run_step(seen);
                }
            },
        }
    }
}

proof fn lemma_find_alike(s: Seq<Pattern>, a: ObjectId, b: ObjectId)
    requires
        a@ == b@,
    ensures
        find_object(s, a) == find_object(s, b),
    decreases s.len(),
{
    if s.len() > 0 {
        lemma_find_alike(s.drop_last(), a, b);
    }
}

/// The run that a further request of an object gives.
proof fn lemma_run_step(seen: Seq<Sighting>)
    requires
        seen.len() > 0,
        close_together(seen),
    ensures
        ({
            let s = seen.last();
            let mine = sightings_of(seen.drop_last(), s.object);
            forall|p: Pattern| #[trigger]
                sums_up(p, mine) ==> run_length(p, s.first, s.now) == run_of(mine.push(s))
        }),
{
    let front = seen.drop_last();
    let s = seen.last();
    let keep = |c: Sighting| c.object@ == s.object@;
    let mine = sightings_of(front, s.object);
    assert forall|p: Pattern| #[trigger] sums_up(p, mine) implies run_length(p, s.first, s.now)
        == run_of(mine.push(s)) by {
        assert(mine.contains(mine.last()));
        front.lemma_filter_contains_rev(keep, mine.last());
        let k = choose|k: int| 0 <= k < front.len() && front[k] == mine.last();
        assert(seen[k] == front[k]);
        assert(seen[seen.len() - 1] == s);
        assert(elapsed(seen[seen.len() - 1].now, seen[k].now) < PATTERN_TTL);
        let more = mine.push(s);
        assert(more.drop_last() =~= mine);
        assert(more[more.len() - 2] == mine.last());
    }
}

/// An object is judged to be streamed exactly where at least three requests for it have each
/// continued the one before, up to and including this one. Requests for other objects in between
/// make no difference. This holds as long as no pattern has to be forgotten: all requests lie
/// within the time that one is remembered, and they are for fewer objects than can be tracked.
pub proof fn streaming_is_three_continued_requests(seen: Seq<Sighting>)
    requires
        seen.len() > 0,
        close_together(seen),
        objects_in(seen).len() < MAX_TRACKED,
    ensures
        ({
            let s = seen.last();
            let mine = sightings_of(seen, s.object);
            let n = mine.len() - 1;
            &&& n >= 0
            &&& mine[n] == s
            &&& access_of(tracked_after(seen.drop_last()), s.object, s.first, s.now)
                == Access::Sequential <==> n >= 3 && continues(mine, n) && continues(mine, n - 1)
                && continues(mine, n - 2)
        }),
{
    let front = seen.drop_last();
    let s = seen.last();
    let before = tracked_after(front);
    let mine = sightings_of(front, s.object);
    let more = sightings_of(seen, s.object);
    lemma_objects_push(seen);
    lemma_sightings_push(seen, s.object);
    assert(close_together(front)) by {
        assert forall|i: int, j: int| 0 <= i < j < front.len() implies elapsed(
            (#[trigger] front[j]).now,
            (#[trigger] front[i]).now,
        ) < PATTERN_TTL by {
            assert(front[j] == seen[j] && front[i] == seen[i]);
        }
    }
    lemma_tracked(front, s.object);
    lemma_find_object(before, s.object);
    lemma_run_step(seen);
    assert(more == mine.push(s));
    let one = more.drop_last();
    let two = one.drop_last();
    let three = two.drop_last();
    reveal_with_fuel(run_of, 4);
    if find_object(before, s.object) is Some {
        assert(sums_up(before[find_object(before, s.object)->0], mine));
        if more.len() > 1 {
            assert(one.len() > 1 ==> (continues(one, one.len() - 1) <==> continues(
                more,
                more.len() - 2,
            )));
            assert(two.len() > 1 && more.len() > 2 ==> (continues(two, two.len() - 1) <==> continues(
                more,
                more.len() - 3,
            )));
        }
    }
}

/// A slice is prefetched exactly where the client is streaming, and the slice comes behind those
/// that were asked for, within the window, and within the object.
pub proof fn the_next_slices_are_prefetched(
    window: u32,
    access: Access,
    last: u32,
    last_slice: u32,
    slice: u32,
)
    requires
        slice < u32::MAX,
        last_slice < u32::MAX,
    ensures
        ({
            let (start, end) = prefetch_span(window, access, last, last_slice);
            start <= slice < end <==> access == Access::Sequential && last < slice <= last + window
                && slice <= last_slice
        }),
{
}

/// A pattern is remembered for a minute from when it was last seen, and a clock that runs backwards
/// makes it no older. A request that comes later starts over, as one does that jumps.
pub proof fn patterns_are_remembered_for_a_minute(p: Pattern, first: u32, now: u64)
    ensures
        is_fresh(p, now) <==> now < p.seen + 60 * 1000,
        now >= p.seen + 60 * 1000 ==> run_length(p, first, now) == 0,
        now < p.seen + 60 * 1000 && first == p.next_expected && p.consecutive < u32::MAX
            ==> run_length(p, first, now) == p.consecutive + 1,
{
}

/// An object is found where it is tracked, and nowhere else.
pub proof fn objects_are_found_where_they_are_tracked(s: Seq<Pattern>, object: ObjectId, i: int)
    requires
        distinct(s),
        0 <= i < s.len(),
    ensures
        s[i].object@ == object@ ==> find_object(s, object) == Some(i),
        find_object(s, object) matches Some(k) ==> 0 <= k < s.len() && s[k].object@ == object@,
    decreases s.len(),
{
    let front = s.drop_last();
    assert(distinct(front)) by {
        assert forall|a: int, b: int| 0 <= a < b < front.len() implies (
        #[trigger] front[a]).object@ != (#[trigger] front[b]).object@ by {
            assert(s[a].object@ != s[b].object@);
        }
    }
    if i < front.len() {
        assert(s[i].object@ != s[s.len() - 1].object@);
        objects_are_found_where_they_are_tracked(front, object, i);
    } else if front.len() > 0 {
        objects_are_found_where_they_are_tracked(front, object, 0);
    }
}

/// Where some have to go, it is those that were seen longest ago: whatever stays was seen no earlier
/// than whatever went, and just so many went.
pub proof fn the_oldest_go_first(s: Seq<Pattern>, k: nat, kept: Pattern, gone: Pattern)
    requires
        k <= s.len(),
        without_oldest(s, k).contains(kept),
        s.contains(gone),
        !without_oldest(s, k).contains(gone),
    ensures
        without_oldest(s, k).len() == s.len() - k,
        s.contains(kept),
        gone.seen <= kept.seen,
    decreases k,
{
    if k > 0 {
        lemma_oldest(s);
        let o = oldest(s);
        let rest = s.remove(o);
        let left = without_oldest(rest, (k - 1) as nat);
        lemma_kept_were_there(rest, (k - 1) as nat, kept);
        let j = choose|j: int| 0 <= j < rest.len() && rest[j] == kept;
        if j < o {
            assert(s[j] == kept);
        } else {
            assert(s[j + 1] == kept);
        }
        let g = choose|g: int| 0 <= g < s.len() && s[g] == gone;
        if g == o {
            lemma_left(rest, (k - 1) as nat);
        } else {
            if g < o {
                assert(rest[g] == gone);
            } else {
                assert(rest[g - 1] == gone);
            }
            the_oldest_go_first(rest, (k - 1) as nat, kept, gone);
        }
    }
}

proof fn lemma_left(s: Seq<Pattern>, k: nat)
    requires
        k <= s.len(),
    ensures
        without_oldest(s, k).len() == s.len() - k,
    decreases k,
{
    if k > 0 {
        lemma_oldest(s);
        lemma_left(s.remove(oldest(s)), (k - 1) as nat);
    }
}

proof fn lemma_kept_were_there(s: Seq<Pattern>, k: nat, kept: Pattern)
    requires
        without_oldest(s, k).contains(kept),
    ensures
        s.contains(kept),
    decreases k,
{
    if k > 0 && s.len() > 0 {
        lemma_oldest(s);
        let o = oldest(s);
        let rest = s.remove(o);
        lemma_kept_were_there(rest, (k - 1) as nat, kept);
        let j = choose|j: int| 0 <= j < rest.len() && rest[j] == kept;
        if j < o {
            assert(s[j] == kept);
        } else {
            assert(s[j + 1] == kept);
        }
    }
}

/// A table is left alone as long as it has room. A full one is cleared of all that is forgotten, and
/// of nothing else where that makes room; and one that is just full has room in the end.
pub proof fn tables_make_room_by_forgetting(s: Seq<Pattern>, now: u64, p: Pattern)
    ensures
        s.len() < 1024 ==> with_room(s, now) == s,
        s.len() >= 1024 && s.filter(|q: Pattern| now < q.seen + 60 * 1000).len() < 1024 ==> (
        with_room(s, now).contains(p) <==> s.contains(p) && now < p.seen + 60 * 1000),
        s.len() == 1024 && with_room(s, now).contains(p) ==> s.contains(p) && now < p.seen + 60
            * 1000,
        s.len() == 1024 ==> with_room(s, now).len() < 1024,
{
    let keep = |q: Pattern| is_fresh(q, now);
    let young = |q: Pattern| now < q.seen + 60 * 1000;
    assert(keep =~= young);
    let fresh = s.filter(keep);
    lemma_fresh(s, keep, p);
    if s.len() >= 1024 && fresh.len() >= 1024 {
        lemma_left(fresh, 512);
        if without_oldest(fresh, 512).contains(p) {
            lemma_kept_were_there(fresh, 512, p);
        }
        s.lemma_filter_len(keep);
    }
}

proof fn lemma_fresh(s: Seq<Pattern>, keep: spec_fn(Pattern) -> bool, p: Pattern)
    ensures
        s.filter(keep).contains(p) <==> s.contains(p) && keep(p),
{
    broadcast use vstd::seq_lib::group_filter_ensures;

    let kept = s.filter(keep);
    if kept.contains(p) {
        let k = choose|k: int| 0 <= k < kept.len() && kept[k] == p;
        assert(keep(kept[k]));
        s.lemma_filter_contains_rev(keep, p);
    }
    if s.contains(p) && keep(p) {
        assert(kept.contains(p));
    }
}

} // verus!
