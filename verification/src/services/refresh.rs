//! Refresh of the domain list.
//!
//! CDNs move, and the list tracks them. Two things make it safe to refresh unattended: a candidate
//! is validated before it is applied, so a malformed or empty one leaves the previous list
//! serving; and the list and its matcher change together, so nothing is ever half applied.
use crate::config::units::Duration;
use crate::services::domains;
use crate::services::domains::{DomainList, DomainsError, IndexEntry};
use crate::services::matcher;
use crate::services::matcher::Matcher;
use crate::text;
use vstd::prelude::*;
use vstd::slice::slice_subrange;
use vstd::string::*;

verus! {

/// A counter that wraps.
pub open spec fn bumped(n: u64) -> u64 {
    if n == u64::MAX {
        0
    } else {
        (n + 1) as u64
    }
}

#[derive(Debug, Clone, Copy, PartialEq, Eq, Structural)]
pub struct RefreshStats {
    pub attempts: u64,
    pub applied: u64,
    /// Fetched successfully but identical to what was already there.
    pub unchanged: u64,
    /// Fetched but rejected by validation. The previous list is still serving.
    pub rejected: u64,
    /// Not fetched at all.
    pub failed: u64,
}

/// The live domain list and its matcher.
pub struct LiveServices {
    matcher: Matcher,
    list: DomainList,
    stats: RefreshStats,
}

impl LiveServices {
    /// The services that are being served.
    pub closed spec fn listed(self) -> Seq<domains::Listed> {
        self.list@
    }

    /// What hosts are matched by.
    pub closed spec fn table(self) -> matcher::Table {
        self.matcher@
    }

    pub closed spec fn counts(self) -> RefreshStats {
        self.stats
    }

    /// The matcher is always the one of the list.
    #[verifier::type_invariant]
    spec fn well_formed(self) -> bool {
        self.matcher@ == matcher::table_of(self.list@)
    }

    pub fn new(list: DomainList) -> (out: Self)
        ensures
            out.listed() == list@,
            out.table() == matcher::table_of(list@),
            out.counts() == (RefreshStats {
                attempts: 0,
                applied: 0,
                unchanged: 0,
                rejected: 0,
                failed: 0,
            }),
    {
        let matcher = Matcher::build(&list);
        LiveServices {
            matcher,
            list,
            stats: RefreshStats { attempts: 0, applied: 0, unchanged: 0, rejected: 0, failed: 0 },
        }
    }

    pub fn matcher(&self) -> (out: &Matcher)
        ensures
            out@ == self.table(),
            out@ == matcher::table_of(self.listed()),
    {
        proof {
            use_type_invariant(self);
        }
        &self.matcher
    }

    pub fn list(&self) -> (out: &DomainList)
        ensures
            out@ == self.listed(),
    {
        &self.list
    }

    pub fn stats(&self) -> (out: RefreshStats)
        ensures
            out == self.counts(),
    {
        self.stats
    }

    /// Replace the live list, if the candidate is usable and actually different.
    ///
    /// Returns whether anything changed.
    pub fn apply(&mut self, candidate: DomainList) -> (out: bool)
        ensures
            out == (domains::total_patterns(candidate@) > 0 && candidate@ != old(self).listed()),
            final(self).listed() == (if out {
                candidate@
            } else {
                old(self).listed()
            }),
            final(self).table() == matcher::table_of(final(self).listed()),
            !out ==> final(self).table() == old(self).table(),
            final(self).counts() == (if domains::total_patterns(candidate@) == 0 {
                RefreshStats {
                    rejected: bumped(old(self).counts().rejected),
                    ..old(self).counts()
                }
            } else if out {
                RefreshStats { applied: bumped(old(self).counts().applied), ..old(self).counts() }
            } else {
                RefreshStats {
                    unchanged: bumped(old(self).counts().unchanged),
                    ..old(self).counts()
                }
            }),
    {
        proof {
            use_type_invariant(&*self);
        }
        let mut stats = self.stats;
        if !candidate.any_pattern() {
            stats.rejected = stats.rejected.wrapping_add(1);
            self.stats = stats;
            return false;
        }
        if self.list.equals(&candidate) {
            stats.unchanged = stats.unchanged.wrapping_add(1);
            self.stats = stats;
            return false;
        }
        stats.applied = stats.applied.wrapping_add(1);
        let matcher = Matcher::build(&candidate);
        *self = LiveServices { matcher, list: candidate, stats };
        true
    }

    /// Takes the outcome of an attempt to fetch a new list and to read it. A list that could not be
    /// fetched counts as failed, one that was fetched but cannot be used as rejected; neither ever
    /// replaces the live list.
    pub fn refresh(&mut self, fetched: Result<DomainList, RefreshError>) -> (out: bool)
        ensures
            out == (fetched matches Ok(c) && domains::total_patterns(c@) > 0 && c@ != old(
                self,
            ).listed()),
            final(self).listed() == (if out {
                (fetched->Ok_0)@
            } else {
                old(self).listed()
            }),
            final(self).table() == matcher::table_of(final(self).listed()),
            !out ==> final(self).table() == old(self).table(),
            ({
                let tried = RefreshStats {
                    attempts: bumped(old(self).counts().attempts),
                    ..old(self).counts()
                };
                final(self).counts() == (match fetched {
                    Err(RefreshError::Fetch { .. }) => RefreshStats {
                        failed: bumped(tried.failed),
                        ..tried
                    },
                    Err(RefreshError::Invalid(_)) => RefreshStats {
                        rejected: bumped(tried.rejected),
                        ..tried
                    },
                    Ok(c) => if domains::total_patterns(c@) == 0 {
                        RefreshStats { rejected: bumped(tried.rejected), ..tried }
                    } else if out {
                        RefreshStats { applied: bumped(tried.applied), ..tried }
                    } else {
                        RefreshStats { unchanged: bumped(tried.unchanged), ..tried }
                    },
                })
            }),
    {
        proof {
            use_type_invariant(&*self);
        }
        let mut stats = self.stats;
        stats.attempts = stats.attempts.wrapping_add(1);
        match fetched {
            Ok(candidate) => {
                self.stats = stats;
                self.apply(candidate)
            },
            Err(RefreshError::Fetch { .. }) => {
                stats.failed = stats.failed.wrapping_add(1);
                self.stats = stats;
                false
            },
            Err(RefreshError::Invalid(_)) => {
                stats.rejected = stats.rejected.wrapping_add(1);
                self.stats = stats;
                false
            },
        }
    }
}

/// Where a refresh fetches from.
#[derive(Debug, PartialEq, Eq)]
pub struct RefreshSource {
    /// Repository base, e.g. `https://github.com/uklans/cache-domains`.
    pub repo: String,
    pub interval: Duration,
}

/// `s` without as many `suffix`es as it ends in.
pub open spec fn without_suffixes(s: Seq<char>, suffix: Seq<char>) -> Seq<char>
    decreases s.len(),
{
    if suffix.len() > 0 && suffix.len() <= s.len() && s.skip(s.len() - suffix.len()) == suffix {
        without_suffixes(s.take(s.len() - suffix.len()), suffix)
    } else {
        s
    }
}

/// The base of the raw files of a repository. A web address on GitHub cannot be fetched from as it
/// is; a repository hosted elsewhere is used as given.
pub open spec fn raw_base_of(repo: Seq<char>) -> Seq<char> {
    let r = without_suffixes(text::stripped_end(repo, '/'), ".git"@);
    if "https://github.com/"@.is_prefix_of(r) {
        "https://raw.githubusercontent.com/"@ + r.skip("https://github.com/"@.len() as int)
            + "/master"@
    } else {
        r
    }
}

fn strip_suffixes<'a>(s: &'a [char], suffix: &str) -> (out: &'a [char])
    ensures
        out@ == without_suffixes(s@, suffix@),
{
    let tail = text::chars_of(suffix);
    let k: usize = tail.len();
    if k == 0 {
        return s;
    }
    let mut n: usize = s.len();
    assert(s@.take(n as int) =~= s@);
    while n >= k && text::same_chars(slice_subrange(s, n - k, n), tail.as_slice())
        invariant
            n <= s@.len(),
            k == tail@.len(),
            k > 0,
            tail@ == suffix@,
            without_suffixes(s@, suffix@) == without_suffixes(s@.take(n as int), suffix@),
        decreases n,
    {
        let ghost cur = s@.take(n as int);
        assert(cur.skip(cur.len() - k) =~= s@.subrange(n - k, n as int));
        assert(cur.take(cur.len() - k) =~= s@.take(n - k));
        n = n - k;
    }
    let ghost cur = s@.take(n as int);
    if n >= k {
        assert(cur.skip(cur.len() - k) =~= s@.subrange(n - k, n as int));
    }
    assert(s@.subrange(0, n as int) =~= cur);
    slice_subrange(s, 0, n)
}

impl RefreshSource {
    /// Raw-content base URL for the repository.
    pub fn raw_base(&self) -> (out: String)
        ensures
            out@ == raw_base_of(self.repo@),
    {
        let chars = text::chars_of(self.repo.as_str());
        let repo = strip_suffixes(text::strip_end(chars.as_slice(), '/'), ".git");
        match text::strip_prefix(repo, "https://github.com/") {
            Some(path) => {
                let mut out = "https://raw.githubusercontent.com/".to_owned();
                out.append(text::string_of(path).as_str());
                out.append("/master");
                out
            },
            None => text::string_of(repo),
        }
    }

    /// Whether anything is refreshed at all: an interval of zero turns it off.
    pub fn enabled(&self) -> (out: bool)
        ensures
            out == (self.interval.secs != 0),
    {
        self.interval.secs != 0
    }

    /// Where the index, or a file that it names, is fetched from.
    pub fn url_of(&self, file: &str) -> (out: String)
        ensures
            out@ == raw_base_of(self.repo@) + "/"@ + file@,
    {
        let mut out = self.raw_base();
        out.append("/");
        out.append(file);
        out
    }
}

/// The files that some entries name, in order.
pub open spec fn named_files(index: Seq<IndexEntry>) -> Seq<Seq<char>>
    decreases index.len(),
{
    if index.len() == 0 {
        Seq::empty()
    } else {
        named_files(index.drop_last()) + text::texts(index.last().domain_files@)
    }
}

/// Names without those that stand before them already.
pub open spec fn first_named(names: Seq<Seq<char>>) -> Seq<Seq<char>>
    decreases names.len(),
{
    if names.len() == 0 {
        Seq::empty()
    } else {
        let before = first_named(names.drop_last());
        if names.drop_last().contains(names.last()) {
            before
        } else {
            before.push(names.last())
        }
    }
}

/// The files to fetch for an index: each that it names, once, in the order in which they are first
/// named.
pub fn files_to_fetch(index: &Vec<IndexEntry>) -> (out: Vec<String>)
    ensures
        text::texts(out@) == first_named(named_files(index@)),
        text::texts(out@).no_duplicates(),
        text::texts(out@).to_set() == named_files(index@).to_set(),
{
    let mut out: Vec<String> = Vec::new();
    let n: usize = index.len();
    assert(index@.take(0) =~= Seq::empty());
    assert(text::texts(out@) =~= Seq::empty());
    for i in 0..n
        invariant
            n == index@.len(),
            text::texts(out@) == first_named(named_files(index@.take(i as int))),
            text::texts(out@).no_duplicates(),
            text::texts(out@).to_set() == named_files(index@.take(i as int)).to_set(),
    {
        assert(index@.take(i + 1).drop_last() =~= index@.take(i as int));
        let entry = &index[i];
        let k: usize = entry.domain_files.len();
        let ghost names = text::texts(entry.domain_files@);
        let ghost start = named_files(index@.take(i as int));
        assert(start + names.take(0) =~= start);
        for j in 0..k
            invariant
                k == entry.domain_files@.len(),
                names == text::texts(entry.domain_files@),
                text::texts(out@) == first_named(start + names.take(j as int)),
                text::texts(out@).no_duplicates(),
                text::texts(out@).to_set() == (start + names.take(j as int)).to_set(),
        {
            let name = &entry.domain_files[j];
            let ghost have = text::texts(out@);
            let ghost all = start + names.take(j as int);
            let ghost more = start + names.take(j + 1);
            assert(more =~= all.push(name@));
            assert(more.drop_last() =~= all);
            assert(have.contains(name@) <==> all.contains(name@)) by {
                assert(have.to_set().contains(name@) <==> all.to_set().contains(name@));
            }
            proof {
                lemma_pushed_set(all, name@);
            }
            if !text::among(&out, name.as_str()) {
                out.push(name.clone());
                proof {
                    let now = text::texts(out@);
                    assert(now =~= have.push(name@));
                    lemma_pushed_set(have, name@);
                }
            } else {
                assert(have.to_set().contains(name@));
                assert(have.to_set() =~= have.to_set().insert(name@));
            }
        }
        assert(names.take(k as int) =~= names);
    }
    assert(index@.take(n as int) =~= index@);
    out
}

proof fn lemma_pushed_set(s: Seq<Seq<char>>, x: Seq<char>)
    ensures
        s.push(x).to_set() == s.to_set().insert(x),
{
    let p = s.push(x);
    assert forall|y: Seq<char>| p.contains(y) implies s.contains(y) || y == x by {
        let k = choose|k: int| 0 <= k < p.len() && p[k] == y;
        if k < s.len() {
            assert(s[k] == y);
        }
    }
    assert forall|y: Seq<char>| s.contains(y) implies p.contains(y) by {
        let k = choose|k: int| 0 <= k < s.len() && s[k] == y;
        assert(p[k] == y);
    }
    assert(p[s.len() as int] == x);
    assert(p.to_set() =~= s.to_set().insert(x));
}

/// Why a refresh came to nothing.
#[derive(Debug, PartialEq, Eq)]
pub enum RefreshError {
    Fetch { url: String, source: String },
    /// What was fetched cannot be used.
    Invalid(DomainsError),
}

impl RefreshError {
    pub open spec fn message_spec(self) -> Seq<char> {
        match self {
            RefreshError::Fetch { url, source } => "fetching "@ + url@ + ": "@ + source@,
            RefreshError::Invalid(e) => "the fetched list is unusable: "@ + e.message_spec(),
        }
    }

    /// The error in words.
    pub fn message(&self) -> (out: String)
        ensures
            out@ == self.message_spec(),
    {
        match self {
            RefreshError::Fetch { url, source } => {
                let mut out = "fetching ".to_owned();
                out.append(url.as_str());
                out.append(": ");
                out.append(source.as_str());
                out
            },
            RefreshError::Invalid(e) => {
                "the fetched list is unusable: ".to_owned().concat(e.message().as_str())
            },
        }
    }
}

/// A counter goes up by one, and starts over from zero behind the last number it can hold.
pub proof fn counters_go_up_by_one(n: u64)
    ensures
        n < u64::MAX ==> bumped(n) == n + 1,
        bumped(u64::MAX) == 0,
{
}

proof fn lemma_without_git(base: Seq<char>, git: bool)
    requires
        !(base.len() >= 4 && base.skip(base.len() - 4) == ".git"@),
    ensures
        without_suffixes(
            if git {
                base + ".git"@
            } else {
                base
            },
            ".git"@,
        ) == base,
{
    reveal_strlit(".git");
    if git {
        let s = base + ".git"@;
        assert(s.skip(s.len() - 4) =~= ".git"@);
        assert(s.take(s.len() - 4) =~= base);
        assert(without_suffixes(base, ".git"@) == base);
    }
}

/// A repository on GitHub is fetched from where its raw files are, and any other from where it is;
/// slashes at the end of its address, and a `.git` in front of them, make no difference.
pub proof fn repositories_are_fetched_raw(path: Seq<char>, git: bool, slashes: nat, other: Seq<char>)
    requires
        path.len() >= 4,
        path.last() != '/',
        path.skip(path.len() - 4) != ".git"@,
        other.len() >= 19,
        other.last() != '/',
        other.skip(other.len() - 4) != ".git"@,
        other.take(19) != "https://github.com/"@,
    ensures
        ({
            let tail = (if git {
                ".git"@
            } else {
                Seq::empty()
            }) + Seq::new(slashes, |i: int| '/');
            &&& raw_base_of("https://github.com/"@ + path + tail)
                == "https://raw.githubusercontent.com/"@ + path + "/master"@
            &&& raw_base_of(other + tail) == other
        }),
{
    reveal_strlit(".git");
    reveal_strlit("https://github.com/");
    let dotgit = if git {
        ".git"@
    } else {
        Seq::empty()
    };
    let tail = dotgit + Seq::new(slashes, |i: int| '/');
    let hub = "https://github.com/"@;
    let base = hub + path;
    assert(base.skip(base.len() - 4) =~= path.skip(path.len() - 4));
    lemma_without_git(base, git);
    lemma_without_git(other, git);
    let a = base + dotgit;
    let b = other + dotgit;
    if git {
        assert(a.last() == ".git"@[3] && b.last() == ".git"@[3]);
    } else {
        assert(a =~= base && b =~= other);
    }
    assert(hub + path + tail =~= a + Seq::new(slashes, |i: int| '/'));
    assert(other + tail =~= b + Seq::new(slashes, |i: int| '/'));
    text::stripping_takes_one_character_alone(a, '/', slashes);
    text::stripping_takes_one_character_alone(b, '/', slashes);
    assert(hub.is_prefix_of(base)) by {
        assert(base.subrange(0, 19) =~= hub);
    }
    assert(base.skip(19) =~= path);
    if hub.is_prefix_of(other) {
        assert(other.subrange(0, 19) =~= hub);
        assert(other.take(19) =~= other.subrange(0, 19));
    }
}

/// Each file that an index names is fetched once, in the order in which they are first named: what
/// is named later only ever adds to the end, and only what was not named before.
pub proof fn files_are_fetched_once_in_order(a: Seq<Seq<char>>, b: Seq<Seq<char>>, name: Seq<char>)
    ensures
        first_named(a).contains(name) <==> a.contains(name),
        first_named(a).no_duplicates(),
        first_named(a + b).len() >= first_named(a).len(),
        first_named(a + b).take(first_named(a).len() as int) == first_named(a),
    decreases a.len() + b.len(),
{
    if b.len() > 0 {
        files_are_fetched_once_in_order(a, b.drop_last(), name);
        assert((a + b).drop_last() =~= a + b.drop_last());
        let n = first_named(a).len() as int;
        assert(first_named(a + b).take(n) =~= first_named(a + b.drop_last()).take(n));
    } else {
        assert(a + b =~= a);
        assert(first_named(a).take(first_named(a).len() as int) =~= first_named(a));
        if a.len() > 0 {
            let front = a.drop_last();
            let last = a.last();
            files_are_fetched_once_in_order(front, b, name);
            files_are_fetched_once_in_order(front, b, last);
            let before = first_named(front);
            if a.contains(name) {
                let k = choose|k: int| 0 <= k < a.len() && a[k] == name;
                if k < front.len() {
                    assert(front[k] == name);
                }
            }
            if front.contains(name) {
                let k = choose|k: int| 0 <= k < front.len() && front[k] == name;
                assert(a[k] == name);
            }
            assert(a[a.len() - 1] == last);
            if !front.contains(last) {
                let now = before.push(last);
                assert(first_named(a) == now);
                if before.contains(name) {
                    let k = choose|k: int| 0 <= k < before.len() && before[k] == name;
                    assert(now[k] == name);
                }
                if now.contains(name) {
                    let k = choose|k: int| 0 <= k < now.len() && now[k] == name;
                    if k < before.len() {
                        assert(before[k] == name);
                    }
                }
                assert(now[before.len() as int] == last);
                assert(now.no_duplicates()) by {
                    assert forall|i: int, j: int|
                        0 <= i < now.len() && 0 <= j < now.len() && i != j implies now[i]
                        != now[j] by {
                        if i == before.len() {
                            assert(before.contains(before[j]));
                        } else if j == before.len() {
                            assert(before.contains(before[i]));
                        }
                    }
                }
            }
        }
    }
}

/// The files that an index names are those of its entries, one entry behind the other.
pub proof fn entries_name_their_files_in_turn(
    a: Seq<IndexEntry>,
    b: Seq<IndexEntry>,
    entry: IndexEntry,
)
    ensures
        named_files(a + b) == named_files(a) + named_files(b),
        named_files(seq![entry]) == text::texts(entry.domain_files@),
        named_files(Seq::empty()) == Seq::<Seq<char>>::empty(),
    decreases b.len(),
{
    assert(seq![entry].drop_last() =~= Seq::empty());
    assert(named_files(Seq::empty()) =~= Seq::empty());
    assert(seq![entry].last() == entry);
    assert(named_files(seq![entry]) =~= text::texts(entry.domain_files@));
    if b.len() > 0 {
        entries_name_their_files_in_turn(a, b.drop_last(), entry);
        assert((a + b).drop_last() =~= a + b.drop_last());
        assert(named_files(a + b) =~= named_files(a) + named_files(b));
    } else {
        assert(a + b =~= a);
        assert(named_files(a) + named_files(b) =~= named_files(a));
    }
}

} // verus!
