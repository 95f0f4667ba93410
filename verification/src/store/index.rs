//! The object index.
//!
//! An entry holds what is known about an object: its length, validators, current generation, and
//! whether the origin honours ranges. It exists so that a request for a known object skips the
//! probe. Slices describe themselves, so an entry can always be rebuilt; where an entry and a slice
//! disagree, the slice is right.
use crate::store::slice::{clone_text, ObjectId};
use crate::wire;
use crate::text;
use vstd::prelude::*;
use vstd::slice::slice_to_vec;
use vstd::string::*;
use vstd::utf8::*;

verus! {

/// How many seconds old a `last_seen` may get before it is worth another write.
///
/// Updating it on every request would turn every cache hit into a disk write.
pub const LAST_SEEN_GRANULARITY: u64 = 3600;

/// Why the index cannot be read or written. What the database itself reports is kept in its words.
#[derive(Debug, PartialEq, Eq)]
pub enum IndexError {
    Database { source: String },
    Transaction { source: String },
    Table { source: String },
    Storage { source: String },
    Commit { source: String },
    /// An entry cannot be read.
    Corrupt { id: String, reason: String },
}

impl IndexError {
    pub open spec fn message_spec(self) -> Seq<char> {
        match self {
            IndexError::Database { source } => "index database error: "@ + source@,
            IndexError::Transaction { source } => "index transaction error: "@ + source@,
            IndexError::Table { source } => "index table error: "@ + source@,
            IndexError::Storage { source } => "index storage error: "@ + source@,
            IndexError::Commit { source } => "index commit error: "@ + source@,
            IndexError::Corrupt { id, reason } => "index entry for "@ + id@ + " is corrupt: "@
                + reason@,
        }
    }

    /// The error in words.
    pub fn message(&self) -> (out: String)
        ensures
            out@ == self.message_spec(),
    {
        match self {
            IndexError::Database { source } => {
                "index database error: ".to_owned().concat(source.as_str())
            },
            IndexError::Transaction { source } => {
                "index transaction error: ".to_owned().concat(source.as_str())
            },
            IndexError::Table { source } => {
                "index table error: ".to_owned().concat(source.as_str())
            },
            IndexError::Storage { source } => {
                "index storage error: ".to_owned().concat(source.as_str())
            },
            IndexError::Commit { source } => {
                "index commit error: ".to_owned().concat(source.as_str())
            },
            IndexError::Corrupt { id, reason } => {
                let mut out = "index entry for ".to_owned();
                out.append(id.as_str());
                out.append(" is corrupt: ");
                out.append(reason.as_str());
                out
            },
        }
    }
}

/// What the index knows about an object.
#[derive(Debug, PartialEq, Eq)]
pub struct ObjectMeta {
    /// The normalised cache key, kept so an operator can be told what an object is and so purge
    /// by prefix has something to match.
    pub key: String,
    pub total_len: u64,
    pub generation: u32,
    pub etag: Option<String>,
    pub last_modified: Option<String>,
    pub content_type: Option<String>,
    /// The origin ignores `Range` for this object.
    pub no_ranges: bool,
    /// Unix seconds.
    pub created: u64,
    /// Unix seconds, updated at most once per [`LAST_SEEN_GRANULARITY`].
    pub last_seen: u64,
    /// The object's validators changed, so everything recorded here except `generation` is
    /// unreliable and the next request must re-probe.
    ///
    /// The generation survives because it is what makes the previous version's slices
    /// unreachable.
    pub stale: bool,
}

/// An [`ObjectMeta`] with its strings taken as characters.
#[verifier::ext_equal]
pub struct Meta {
    pub key: Seq<char>,
    pub total_len: u64,
    pub generation: u32,
    pub etag: Option<Seq<char>>,
    pub last_modified: Option<Seq<char>>,
    pub content_type: Option<Seq<char>>,
    pub no_ranges: bool,
    pub created: u64,
    pub last_seen: u64,
    pub stale: bool,
}

impl View for ObjectMeta {
    type V = Meta;

    open spec fn view(&self) -> Meta {
        Meta {
            key: self.key@,
            total_len: self.total_len,
            generation: self.generation,
            etag: wire::chars_in(self.etag),
            last_modified: wire::chars_in(self.last_modified),
            content_type: wire::chars_in(self.content_type),
            no_ranges: self.no_ranges,
            created: self.created,
            last_seen: self.last_seen,
            stale: self.stale,
        }
    }
}

impl Clone for ObjectMeta {
    fn clone(&self) -> (out: Self)
        ensures
            out@ == self@,
    {
        ObjectMeta {
            key: self.key.clone(),
            total_len: self.total_len,
            generation: self.generation,
            etag: clone_text(&self.etag),
            last_modified: clone_text(&self.last_modified),
            content_type: clone_text(&self.content_type),
            no_ranges: self.no_ranges,
            created: self.created,
            last_seen: self.last_seen,
            stale: self.stale,
        }
    }
}

pub open spec fn flag(b: bool) -> nat {
    if b {
        1
    } else {
        0
    }
}

/// The numbers at the front of an entry.
pub open spec fn fixed_bytes(m: Meta) -> Seq<u8> {
    wire::le_bytes(m.total_len as nat, 8) + wire::le_bytes(m.generation as nat, 4) + wire::le_bytes(
        flag(m.no_ranges),
        1,
    ) + wire::le_bytes(flag(m.stale), 1) + wire::le_bytes(m.created as nat, 8) + wire::le_bytes(
        m.last_seen as nat,
        8,
    )
}

/// The bytes of an index entry.
pub open spec fn meta_bytes(m: Meta) -> Seq<u8> {
    fixed_bytes(m) + wire::string_bytes(Some(m.key)) + wire::string_bytes(m.etag)
        + wire::string_bytes(m.last_modified) + wire::string_bytes(m.content_type)
}

/// Stored text, where it is there and is text.
pub open spec fn text_or_none(s: Option<Seq<u8>>) -> Option<Seq<char>> {
    match s {
        Some(u) => if valid_utf8(u) {
            Some(decode_utf8(u))
        } else {
            None
        },
        None => None,
    }
}

/// The six numbers at the front of an entry and what follows them.
pub open spec fn fixed_in(b: Seq<u8>) -> Result<((nat, nat, nat, nat, nat, nat), Seq<u8>), Seq<char>> {
    match wire::number_in(b, 8) {
        None => Err("truncated total_len"@),
        Some((total_len, b)) => match wire::number_in(b, 4) {
            None => Err("truncated generation"@),
            Some((generation, b)) => match wire::number_in(b, 1) {
                None => Err("truncated no_ranges"@),
                Some((no_ranges, b)) => match wire::number_in(b, 1) {
                    None => Err("truncated stale"@),
                    Some((stale, b)) => match wire::number_in(b, 8) {
                        None => Err("truncated created"@),
                        Some((created, b)) => match wire::number_in(b, 8) {
                            None => Err("truncated last_seen"@),
                            Some((last_seen, b)) => Ok(
                                ((total_len, generation, no_ranges, stale, created, last_seen), b),
                            ),
                        },
                    },
                },
            },
        },
    }
}

/// The four strings at the end of an entry and what follows them. A key that is absent or is not
/// text is missed; the others are then simply not known.
pub open spec fn strings_in(b: Seq<u8>) -> Result<
    ((Seq<char>, Option<Seq<char>>, Option<Seq<char>>, Option<Seq<char>>), Seq<u8>),
    Seq<char>,
> {
    match wire::string_in(b) {
        None => Err("truncated key"@),
        Some((key, b)) => match text_or_none(key) {
            None => Err("missing key"@),
            Some(key) => match wire::string_in(b) {
                None => Err("truncated etag"@),
                Some((etag, b)) => match wire::string_in(b) {
                    None => Err("truncated last_modified"@),
                    Some((last_modified, b)) => match wire::string_in(b) {
                        None => Err("truncated content_type"@),
                        Some((content_type, b)) => Ok(
                            (
                                (
                                    key,
                                    text_or_none(etag),
                                    text_or_none(last_modified),
                                    text_or_none(content_type),
                                ),
                                b,
                            ),
                        ),
                    },
                },
            },
        },
    }
}

/// The entry that some bytes start with, or what is wrong with them.
pub open spec fn meta_in(b: Seq<u8>) -> Result<(Meta, Seq<u8>), Seq<char>> {
    match fixed_in(b) {
        Err(e) => Err(e),
        Ok(((total_len, generation, no_ranges, stale, created, last_seen), b)) => match strings_in(
            b,
        ) {
            Err(e) => Err(e),
            Ok(((key, etag, last_modified, content_type), b)) => Ok(
                (
                    Meta {
                        key,
                        total_len: total_len as u64,
                        generation: generation as u32,
                        etag,
                        last_modified,
                        content_type,
                        no_ranges: no_ranges != 0,
                        created: created as u64,
                        last_seen: last_seen as u64,
                        stale: stale != 0,
                    },
                    b,
                ),
            ),
        },
    }
}

fn corrupt(id: &ObjectId, reason: &str) -> (out: IndexError)
    ensures
        out matches IndexError::Corrupt { id: i, reason: r } && i@ == text::hex_pairs(id@) && r@
            == reason@,
{
    IndexError::Corrupt { id: text::hex(id.as_slice()), reason: reason.to_owned() }
}

fn text_of(bytes: Option<&[u8]>) -> (out: Option<String>)
    ensures
        wire::chars_in(out) == text_or_none(
            match bytes {
                Some(b) => Some(b@),
                None => None,
            },
        ),
{
    match bytes {
        Some(b) => match wire::utf8_string(slice_to_vec(b)) {
            Ok(s) => Some(s),
            Err(_) => None,
        },
        None => None,
    }
}

impl ObjectMeta {
    pub fn encode(&self) -> (out: Vec<u8>)
        ensures
            out@ == meta_bytes(self@),
    {
        let mut out: Vec<u8> = Vec::new();
        wire::put_le(&mut out, self.total_len, 8);
        wire::put_le(&mut out, self.generation as u64, 4);
        wire::put_le(
            &mut out,
            if self.no_ranges {
                1
            } else {
                0
            },
            1,
        );
        wire::put_le(
            &mut out,
            if self.stale {
                1
            } else {
                0
            },
            1,
        );
        wire::put_le(&mut out, self.created, 8);
        wire::put_le(&mut out, self.last_seen, 8);
        assert(out@ =~= fixed_bytes(self@));
        wire::put_string(&mut out, Some(self.key.as_str()));
        wire::put_string(&mut out, text_ref(&self.etag));
        wire::put_string(&mut out, text_ref(&self.last_modified));
        wire::put_string(&mut out, text_ref(&self.content_type));
        out
    }

    /// Reads the entry of the object `id`. Bytes that cannot be one are reported with the first
    /// field that is not there.
    pub fn decode(bytes: &[u8], id: &ObjectId) -> (out: Result<Self, IndexError>)
        ensures
            match meta_in(bytes@) {
                Ok((m, rest)) => out matches Ok(o) && o@ == m,
                Err(e) => out matches Err(IndexError::Corrupt { id: i, reason: r }) && i@
                    == text::hex_pairs(id@) && r@ == e,
            },
    {
        proof {
            wire::lemma_le_limits();
        }
        let mut cursor = wire::Reader::new(bytes);
        let total_len: u64 = match cursor.number(8) {
            Some(n) => n,
            None => return Err(corrupt(id, "truncated total_len")),
        };
        let generation: u64 = match cursor.number(4) {
            Some(n) => n,
            None => return Err(corrupt(id, "truncated generation")),
        };
        let no_ranges: u64 = match cursor.number(1) {
            Some(n) => n,
            None => return Err(corrupt(id, "truncated no_ranges")),
        };
        let stale: u64 = match cursor.number(1) {
            Some(n) => n,
            None => return Err(corrupt(id, "truncated stale")),
        };
        let created: u64 = match cursor.number(8) {
            Some(n) => n,
            None => return Err(corrupt(id, "truncated created")),
        };
        let last_seen: u64 = match cursor.number(8) {
            Some(n) => n,
            None => return Err(corrupt(id, "truncated last_seen")),
        };
        let key = match cursor.string() {
            Some(s) => s,
            None => return Err(corrupt(id, "truncated key")),
        };
        let key = match text_of(key) {
            Some(s) => s,
            None => return Err(corrupt(id, "missing key")),
        };
        let etag = match cursor.string() {
            Some(s) => text_of(s),
            None => return Err(corrupt(id, "truncated etag")),
        };
        let last_modified = match cursor.string() {
            Some(s) => text_of(s),
            None => return Err(corrupt(id, "truncated last_modified")),
        };
        let content_type = match cursor.string() {
            Some(s) => text_of(s),
            None => return Err(corrupt(id, "truncated content_type")),
        };
        Ok(
            ObjectMeta {
                key,
                total_len,
                generation: generation as u32,
                etag,
                last_modified,
                content_type,
                no_ranges: no_ranges != 0,
                created,
                last_seen,
                stale: stale != 0,
            },
        )
    }

    /// What to write when an object is used: the entry with its new `last_seen`, or nothing where
    /// the object is unknown or was seen recently.
    pub fn touch(found: Option<ObjectMeta>, now: u64) -> (out: Option<ObjectMeta>)
        ensures
            out is Some <==> (found matches Some(m) && m.last_seen + LAST_SEEN_GRANULARITY <= now),
            out matches Some(o) ==> o@ == (Meta { last_seen: now, ..(found->0)@ }),
    {
        match found {
            Some(mut meta) => {
                if now.saturating_sub(meta.last_seen) < LAST_SEEN_GRANULARITY {
                    return None;
                }
                meta.last_seen = now;
                Some(meta)
            },
            None => None,
        }
    }

    /// What an object becomes when its validators have changed: the generation that is valid from
    /// now on, and the stale entry to write. An unknown object starts at generation one, since
    /// slices of generation zero may already be on disk.
    pub fn invalidate(found: Option<ObjectMeta>) -> (out: (u32, Option<ObjectMeta>))
        ensures
            match found {
                None => out.0 == 1 && out.1 is None,
                Some(m) => {
                    &&& out.0 == generation_after(m.generation)
                    &&& out.1 matches Some(o)
                    &&& o@ == (Meta { generation: out.0, stale: true, ..m@ })
                },
            },
    {
        match found {
            None => (1, None),
            Some(mut meta) => {
                let generation: u32 = meta.generation.wrapping_add(1);
                meta.generation = generation;
                meta.stale = true;
                (generation, Some(meta))
            },
        }
    }

    /// The objects not seen within `max_age` seconds, in the order of the entries. An entry that
    /// cannot be read is reported instead.
    #[verifier::spinoff_prover]
    #[verifier::rlimit(40)]
    pub fn prune(entries: &Vec<(ObjectId, Vec<u8>)>, now: u64, max_age: u64) -> (out: Result<
        Vec<ObjectId>,
        IndexError,
    >)
        ensures
            match expired(entries_view(entries@), now - max_age) {
                Ok(ids) => out matches Ok(o) && ids_view(o@) == ids,
                Err((bad, why)) => out matches Err(IndexError::Corrupt { id, reason }) && id@
                    == text::hex_pairs(bad) && reason@ == why,
            },
    {
        let cutoff: u64 = now.saturating_sub(max_age);
        let mut out: Vec<ObjectId> = Vec::new();
        let n: usize = entries.len();
        let mut i: usize = 0;
        let ghost all = entries_view(entries@);
        assert(all.skip(0) =~= all);
        assert(ids_view(out@) =~= Seq::empty());
        while i < n
            invariant
                n == entries@.len(),
                i <= n,
                all == entries_view(entries@),
                cutoff == (if now >= max_age {
                    now - max_age
                } else {
                    0
                }),
                match expired(all.skip(i as int), now - max_age) {
                    Ok(ids) => expired(all, now - max_age) == Ok::<
                        Seq<Seq<u8>>,
                        (Seq<u8>, Seq<char>),
                    >(ids_view(out@) + ids),
                    Err(e) => expired(all, now - max_age) == Err::<
                        Seq<Seq<u8>>,
                        (Seq<u8>, Seq<char>),
                    >(e),
                },
            decreases n - i,
        {
            let ghost rest = all.skip(i as int);
            assert(rest.skip(1) =~= all.skip(i as int + 1));
            assert(rest[0] == (entries@[i as int].0@, entries@[i as int].1@));
            let entry = &entries[i];
            let meta = match ObjectMeta::decode(entry.1.as_slice(), &entry.0) {
                Ok(m) => m,
                Err(e) => return Err(e),
            };
            let ghost before = ids_view(out@);
            if meta.last_seen < cutoff {
                out.push(entry.0);
                assert(ids_view(out@) =~= before.push(entry.0@));
                proof {
                    if let Ok(ids) = expired(all.skip(i as int + 1), now - max_age) {
                        assert(before + (seq![entry.0@] + ids) =~= ids_view(out@) + ids);
                    }
                }
            }
            i = i + 1;
        }
        proof {
            assert(all.skip(n as int) =~= Seq::empty());
            assert(ids_view(out@) + Seq::<Seq<u8>>::empty() =~= ids_view(out@));
        }
        Ok(out)
    }
}

/// How many bytes the indexed objects amount to, at most what 64 bits hold, or the first entry that
/// cannot be read.
pub open spec fn bytes_in(entries: Seq<(Seq<u8>, Seq<u8>)>) -> Result<
    nat,
    (Seq<u8>, Seq<char>),
>
    decreases entries.len(),
{
    if entries.len() == 0 {
        Ok(0)
    } else {
        match bytes_in(entries.drop_last()) {
            Err(e) => Err(e),
            Ok(sum) => match meta_in(entries.last().1) {
                Err(why) => Err((entries.last().0, why)),
                Ok((m, _)) => Ok(sum + m.total_len as nat),
            },
        }
    }
}

#[verifier::spinoff_prover]
#[verifier::rlimit(60)]
proof fn lemma_unreadable_entry(entries: Seq<(Seq<u8>, Seq<u8>)>, k: int)
    requires
        0 <= k <= entries.len(),
        bytes_in(entries.take(k)) is Err,
    ensures
        bytes_in(entries) == bytes_in(entries.take(k)),
    decreases entries.len() - k,
{
    if k < entries.len() {
        assert(entries.take(k + 1).drop_last() =~= entries.take(k));
        lemma_unreadable_entry(entries, k + 1);
    } else {
        assert(entries.take(k) =~= entries);
    }
}

/// How many bytes the indexed objects amount to.
pub fn total_bytes(entries: &Vec<(ObjectId, Vec<u8>)>) -> (out: Result<u64, IndexError>)
    ensures
        match bytes_in(entries_view(entries@)) {
            Ok(sum) => out == Ok::<u64, IndexError>(
                if sum <= u64::MAX {
                    sum as u64
                } else {
                    u64::MAX
                },
            ),
            Err((bad, why)) => out matches Err(IndexError::Corrupt { id, reason }) && id@
                == text::hex_pairs(bad) && reason@ == why,
        },
{
    let n: usize = entries.len();
    let ghost all = entries_view(entries@);
    let mut sum: u64 = 0;
    assert(all.take(0) =~= Seq::empty());
    for i in 0..n
        invariant
            n == entries@.len(),
            all == entries_view(entries@),
            bytes_in(all.take(i as int)) matches Ok(exact) && sum == (if exact <= u64::MAX {
                exact as int
            } else {
                u64::MAX as int
            }),
    {
        let entry = &entries[i];
        assert(all.take(i + 1).drop_last() =~= all.take(i as int));
        assert(all.take(i + 1).last() == (entry.0@, entry.1@));
        match ObjectMeta::decode(entry.1.as_slice(), &entry.0) {
            Ok(meta) => {
                sum = sum.saturating_add(meta.total_len);
            },
            Err(e) => {
                proof {
                    lemma_unreadable_entry(all, i + 1);
                }
                return Err(e);
            },
        }
    }
    assert(all.take(n as int) =~= all);
    Ok(sum)
}

fn text_ref(s: &Option<String>) -> (out: Option<&str>)
    ensures
        (match out {
            Some(v) => Some(v@),
            None => None,
        }) == wire::chars_in(*s),
{
    match s {
        Some(v) => Some(v.as_str()),
        None => None,
    }
}

/// The generation that follows one. It wraps round.
pub open spec fn generation_after(generation: u32) -> u32 {
    if generation == u32::MAX {
        0
    } else {
        (generation + 1) as u32
    }
}

pub open spec fn entries_view(entries: Seq<(ObjectId, Vec<u8>)>) -> Seq<(Seq<u8>, Seq<u8>)> {
    entries.map_values(|e: (ObjectId, Vec<u8>)| (e.0@, e.1@))
}

pub open spec fn ids_view(ids: Seq<ObjectId>) -> Seq<Seq<u8>> {
    ids.map_values(|id: ObjectId| id@)
}

/// The ids of the entries last seen before `cutoff`, or the first entry that cannot be read.
pub open spec fn expired(entries: Seq<(Seq<u8>, Seq<u8>)>, cutoff: int) -> Result<
    Seq<Seq<u8>>,
    (Seq<u8>, Seq<char>),
>
    decreases entries.len(),
{
    if entries.len() == 0 {
        Ok(Seq::empty())
    } else {
        match meta_in(entries[0].1) {
            Err(why) => Err((entries[0].0, why)),
            Ok((m, _)) => match expired(entries.skip(1), cutoff) {
                Err(e) => Err(e),
                Ok(ids) => if m.last_seen < cutoff {
                    Ok(seq![entries[0].0] + ids)
                } else {
                    Ok(ids)
                },
            },
        }
    }
}

/// An entry whose every string can be told apart from an absent one.
pub open spec fn storable_meta(m: Meta) -> bool {
    &&& wire::storable(Some(m.key))
    &&& wire::storable(m.etag)
    &&& wire::storable(m.last_modified)
    &&& wire::storable(m.content_type)
}

proof fn lemma_string_value(s: Option<Seq<char>>, rest: Seq<u8>)
    requires
        wire::storable(s),
    ensures
        wire::string_in(wire::string_bytes(s) + rest) matches Some((u, r)) && text_or_none(u) == s
            && r == rest,
{
    wire::lemma_string_reads_back(s, rest);
    if let Some(c) = s {
        encode_utf8_valid_utf8(c);
        encode_utf8_decode_utf8(c);
    }
}

proof fn lemma_fixed_reads_back(m: Meta, rest: Seq<u8>)
    ensures
        fixed_in(fixed_bytes(m) + rest) == Ok::<
            ((nat, nat, nat, nat, nat, nat), Seq<u8>),
            Seq<char>,
        >(
            (
                (
                    m.total_len as nat,
                    m.generation as nat,
                    flag(m.no_ranges),
                    flag(m.stale),
                    m.created as nat,
                    m.last_seen as nat,
                ),
                rest,
            ),
        ),
{
    wire::lemma_le_limits();
    reveal_with_fuel(wire::le_limit, 2);
    let a = wire::le_bytes(m.total_len as nat, 8);
    let b = wire::le_bytes(m.generation as nat, 4);
    let c = wire::le_bytes(flag(m.no_ranges), 1);
    let d = wire::le_bytes(flag(m.stale), 1);
    let e = wire::le_bytes(m.created as nat, 8);
    let f = wire::le_bytes(m.last_seen as nat, 8);
    crate::store::slice::lemma_grouped(a, b, c, d, e, f, rest);
    crate::store::slice::lemma_number_reads_back(
        m.total_len as nat,
        8,
        b + (c + (d + (e + (f + rest)))),
    );
    crate::store::slice::lemma_number_reads_back(
        m.generation as nat,
        4,
        c + (d + (e + (f + rest))),
    );
    crate::store::slice::lemma_number_reads_back(flag(m.no_ranges), 1, d + (e + (f + rest)));
    crate::store::slice::lemma_number_reads_back(flag(m.stale), 1, e + (f + rest));
    crate::store::slice::lemma_number_reads_back(m.created as nat, 8, f + rest);
    crate::store::slice::lemma_number_reads_back(m.last_seen as nat, 8, rest);
}

/// What [`ObjectMeta::encode`] writes, [`ObjectMeta::decode`] reads back as the same entry.
#[verifier::spinoff_prover]
#[verifier::rlimit(60)]
pub proof fn entries_read_back(m: Meta)
    requires
        storable_meta(m),
    ensures
        meta_in(meta_bytes(m)) == Ok::<(Meta, Seq<u8>), Seq<char>>((m, Seq::empty())),
{
    let none = Seq::<u8>::empty();
    let k = wire::string_bytes(Some(m.key));
    let a = wire::string_bytes(m.etag);
    let b = wire::string_bytes(m.last_modified);
    let c = wire::string_bytes(m.content_type);
    crate::store::slice::lemma_grouped_five(fixed_bytes(m), k, a, b, c, none);
    assert(meta_bytes(m) + none =~= meta_bytes(m));
    lemma_fixed_reads_back(m, k + (a + (b + (c + none))));
    lemma_string_value(Some(m.key), a + (b + (c + none)));
    lemma_string_value(m.etag, b + (c + none));
    lemma_string_value(m.last_modified, c + none);
    lemma_string_value(m.content_type, none);
}

/// A number that can be read from the front of some bytes is read the same when more follow.
proof fn lemma_number_extends(b: Seq<u8>, more: Seq<u8>, width: int)
    requires
        wire::number_in(b, width) is Some,
    ensures
        wire::number_in(b + more, width) == Some(
            ((wire::number_in(b, width)->0).0, (wire::number_in(b, width)->0).1 + more),
        ),
{
    assert((b + more).take(width) =~= b.take(width));
    assert((b + more).skip(width) =~= b.skip(width) + more);
}

proof fn lemma_string_extends(b: Seq<u8>, more: Seq<u8>)
    requires
        wire::string_in(b) is Some,
    ensures
        wire::string_in(b + more) == Some(
            ((wire::string_in(b)->0).0, (wire::string_in(b)->0).1 + more),
        ),
{
    lemma_number_extends(b, more, 4);
    let (len, rest) = wire::number_in(b, 4)->0;
    if len != u32::MAX {
        assert((rest + more).take(len as int) =~= rest.take(len as int));
        assert((rest + more).skip(len as int) =~= rest.skip(len as int) + more);
    }
}

proof fn lemma_fixed_extends(b: Seq<u8>, more: Seq<u8>)
    requires
        fixed_in(b) is Ok,
    ensures
        fixed_in(b + more) == Ok::<((nat, nat, nat, nat, nat, nat), Seq<u8>), Seq<char>>(
            ((fixed_in(b)->Ok_0).0, (fixed_in(b)->Ok_0).1 + more),
        ),
{
    lemma_number_extends(b, more, 8);
    let b = (wire::number_in(b, 8)->0).1;
    lemma_number_extends(b, more, 4);
    let b = (wire::number_in(b, 4)->0).1;
    lemma_number_extends(b, more, 1);
    let b = (wire::number_in(b, 1)->0).1;
    lemma_number_extends(b, more, 1);
    let b = (wire::number_in(b, 1)->0).1;
    lemma_number_extends(b, more, 8);
    let b = (wire::number_in(b, 8)->0).1;
    lemma_number_extends(b, more, 8);
}

proof fn lemma_strings_extend(b: Seq<u8>, more: Seq<u8>)
    requires
        strings_in(b) is Ok,
    ensures
        strings_in(b + more) is Ok,
        (strings_in(b + more)->Ok_0).1 == (strings_in(b)->Ok_0).1 + more,
{
    lemma_string_extends(b, more);
    let b = (wire::string_in(b)->0).1;
    lemma_string_extends(b, more);
    let b = (wire::string_in(b)->0).1;
    lemma_string_extends(b, more);
    let b = (wire::string_in(b)->0).1;
    lemma_string_extends(b, more);
}

proof fn lemma_meta_extends(b: Seq<u8>, more: Seq<u8>)
    requires
        meta_in(b) is Ok,
    ensures
        meta_in(b + more) is Ok,
        (meta_in(b + more)->Ok_0).1 == (meta_in(b)->Ok_0).1 + more,
{
    lemma_fixed_extends(b, more);
    lemma_strings_extend((fixed_in(b)->Ok_0).1, more);
}

proof fn lemma_cut(x: Seq<u8>, len: int)
    requires
        0 <= len < x.len(),
    ensures
        x.take(len) + x.skip(len) == x,
        x.skip(len).len() > 0,
{
    assert(x.take(len) + x.skip(len) =~= x);
}

/// An entry that was cut off anywhere is reported as corrupt, never read as something else.
pub proof fn truncated_entries_are_refused(m: Meta, len: int)
    requires
        storable_meta(m),
        0 <= len < meta_bytes(m).len(),
    ensures
        meta_in(meta_bytes(m).take(len)) is Err,
{
    let x = meta_bytes(m);
    lemma_cut(x, len);
    entries_read_back(m);
    if meta_in(x.take(len)) is Ok {
        lemma_meta_extends(x.take(len), x.skip(len));
        let rest = (meta_in(x.take(len))->Ok_0).1;
        assert((rest + x.skip(len)).len() > 0);
    }
}

/// Entries are judged one by one: what expires of two runs of entries is what expires of the one
/// and then of the other, and an entry that can be read expires exactly where it was last seen
/// before the cutoff. One that cannot be read is reported.
#[verifier::spinoff_prover]
#[verifier::rlimit(60)]
pub proof fn entries_expire_one_by_one(
    a: Seq<(Seq<u8>, Seq<u8>)>,
    b: Seq<(Seq<u8>, Seq<u8>)>,
    id: Seq<u8>,
    m: Meta,
    bytes: Seq<u8>,
    cutoff: int,
)
    requires
        storable_meta(m),
    ensures
        expired(a + b, cutoff) == one_after_another(expired(a, cutoff), expired(b, cutoff)),
        expired(seq![(id, meta_bytes(m))], cutoff) == Ok::<Seq<Seq<u8>>, (Seq<u8>, Seq<char>)>(
            if m.last_seen < cutoff {
                seq![id]
            } else {
                Seq::empty()
            },
        ),
        meta_in(bytes) matches Err(why) ==> expired(seq![(id, bytes)], cutoff) == Err::<
            Seq<Seq<u8>>,
            (Seq<u8>, Seq<char>),
        >((id, why)),
        expired(Seq::empty(), cutoff) == Ok::<Seq<Seq<u8>>, (Seq<u8>, Seq<char>)>(Seq::empty()),
{
    lemma_expiry_joined(a, b, cutoff);
    entries_read_back(m);
    lemma_none_expire(cutoff);
    let one = seq![(id, meta_bytes(m))];
    let other = seq![(id, bytes)];
    lemma_expiry_head(one, cutoff);
    lemma_expiry_head(other, cutoff);
    assert(one.skip(1) =~= Seq::empty());
    assert(other.skip(1) =~= Seq::empty());
    assert(seq![id] + Seq::<Seq<u8>>::empty() =~= seq![id]);
    assert(Seq::<Seq<u8>>::empty() + Seq::<Seq<u8>>::empty() =~= Seq::empty());
    reveal(own_expiry);
    reveal(expiry);
}

/// One run of expired ids, and then another.
pub open spec fn one_after_another(
    x: Result<Seq<Seq<u8>>, (Seq<u8>, Seq<char>)>,
    y: Result<Seq<Seq<u8>>, (Seq<u8>, Seq<char>)>,
) -> Result<Seq<Seq<u8>>, (Seq<u8>, Seq<char>)> {
    match x {
        Err(e) => Err(e),
        Ok(ids) => match y {
            Err(e) => Err(e),
            Ok(more) => Ok(ids + more),
        },
    }
}

#[verifier::opaque]
spec fn own_expiry(entry: (Seq<u8>, Seq<u8>), cutoff: int) -> Result<
    Seq<Seq<u8>>,
    (Seq<u8>, Seq<char>),
> {
    match meta_in(entry.1) {
        Err(why) => Err((entry.0, why)),
        Ok((m, _)) => Ok(
            if m.last_seen < cutoff {
                seq![entry.0]
            } else {
                Seq::empty()
            },
        ),
    }
}

#[verifier::opaque]
spec fn expiry(entries: Seq<(Seq<u8>, Seq<u8>)>, cutoff: int) -> Result<
    Seq<Seq<u8>>,
    (Seq<u8>, Seq<char>),
> {
    expired(entries, cutoff)
}

#[verifier::spinoff_prover]
#[verifier::rlimit(60)]
proof fn lemma_expiry_head(entries: Seq<(Seq<u8>, Seq<u8>)>, cutoff: int)
    requires
        entries.len() > 0,
    ensures
        expiry(entries, cutoff) == one_after_another(
            own_expiry(entries[0], cutoff),
            expiry(entries.skip(1), cutoff),
        ),
{
    reveal(own_expiry);
    reveal(expiry);
    if let Ok(ids) = expired(entries.skip(1), cutoff) {
        assert(Seq::<Seq<u8>>::empty() + ids =~= ids);
    }
}

proof fn lemma_none_expire(cutoff: int)
    ensures
        expiry(Seq::empty(), cutoff) == Ok::<Seq<Seq<u8>>, (Seq<u8>, Seq<char>)>(Seq::empty()),
{
    reveal(expiry);
}

#[verifier::spinoff_prover]
#[verifier::rlimit(60)]
proof fn lemma_expiry_joined(
    a: Seq<(Seq<u8>, Seq<u8>)>,
    b: Seq<(Seq<u8>, Seq<u8>)>,
    cutoff: int,
)
    ensures
        expiry(a + b, cutoff) == one_after_another(expiry(a, cutoff), expiry(b, cutoff)),
    decreases a.len(),
{
    let y = expiry(b, cutoff);
    if a.len() == 0 {
        assert(a =~= Seq::empty());
        lemma_none_expire(cutoff);
        assert(a + b =~= b);
        if let Ok(more) = y {
            assert(Seq::<Seq<u8>>::empty() + more =~= more);
        }
    } else {
        lemma_expiry_joined(a.skip(1), b, cutoff);
        lemma_expiry_head(a, cutoff);
        lemma_expiry_head(a + b, cutoff);
        assert((a + b).skip(1) =~= a.skip(1) + b);
        assert((a + b)[0] == a[0]);
        let own = own_expiry(a[0], cutoff);
        let x = expiry(a.skip(1), cutoff);
        if own is Ok && x is Ok && y is Ok {
            assert(own->Ok_0 + (x->Ok_0 + y->Ok_0) =~= (own->Ok_0 + x->Ok_0) + y->Ok_0);
        }
    }
}

/// The bytes of the indexed objects add up: those of two runs of entries are those of the one and
/// those of the other, and one entry counts for the length of its object.
#[verifier::spinoff_prover]
#[verifier::rlimit(60)]
pub proof fn indexed_bytes_add_up(
    a: Seq<(Seq<u8>, Seq<u8>)>,
    b: Seq<(Seq<u8>, Seq<u8>)>,
    id: Seq<u8>,
    m: Meta,
)
    requires
        storable_meta(m),
        bytes_in(a) is Ok,
        bytes_in(b) is Ok,
    ensures
        bytes_in(a + b) matches Ok(sum) && sum == bytes_in(a)->Ok_0 + bytes_in(b)->Ok_0,
        bytes_in(seq![(id, meta_bytes(m))]) == Ok::<nat, (Seq<u8>, Seq<char>)>(m.total_len as nat),
        bytes_in(Seq::empty()) == Ok::<nat, (Seq<u8>, Seq<char>)>(0),
    decreases b.len(),
{
    entries_read_back(m);
    let none = Seq::<(Seq<u8>, Seq<u8>)>::empty();
    let one = seq![(id, meta_bytes(m))];
    assert(one.drop_last() =~= none);
    assert(one.last() == (id, meta_bytes(m)));
    assert(bytes_in(none) == Ok::<nat, (Seq<u8>, Seq<char>)>(0));
    if b.len() == 0 {
        assert(a + b =~= a);
    } else {
        indexed_bytes_add_up(a, b.drop_last(), id, m);
        assert((a + b).drop_last() =~= a + b.drop_last());
    }
}

/// Where the numbers of an entry stand in its bytes, and that its strings follow them in order.
pub proof fn entries_are_laid_out_in_order(m: Meta)
    ensures
        ({
            let b = meta_bytes(m);
            &&& b.len() >= 30
            &&& b.subrange(0, 8) == wire::le_bytes(m.total_len as nat, 8)
            &&& b.subrange(8, 12) == wire::le_bytes(m.generation as nat, 4)
            &&& b[12] == if m.no_ranges {
                1u8
            } else {
                0u8
            }
            &&& b[13] == if m.stale {
                1u8
            } else {
                0u8
            }
            &&& b.subrange(14, 22) == wire::le_bytes(m.created as nat, 8)
            &&& b.subrange(22, 30) == wire::le_bytes(m.last_seen as nat, 8)
            &&& b.skip(30) == wire::string_bytes(Some(m.key)) + wire::string_bytes(m.etag)
                + wire::string_bytes(m.last_modified) + wire::string_bytes(m.content_type)
        }),
{
    wire::lemma_le_len(m.total_len as nat, 8);
    wire::lemma_le_len(m.generation as nat, 4);
    wire::lemma_le_len(flag(m.no_ranges), 1);
    wire::lemma_le_len(flag(m.stale), 1);
    wire::lemma_le_len(m.created as nat, 8);
    wire::lemma_le_len(m.last_seen as nat, 8);
    lemma_flag_byte(m.no_ranges);
    lemma_flag_byte(m.stale);
    let b = meta_bytes(m);
    assert(b.subrange(0, 8) =~= wire::le_bytes(m.total_len as nat, 8));
    assert(b.subrange(8, 12) =~= wire::le_bytes(m.generation as nat, 4));
    assert(b[12] == wire::le_bytes(flag(m.no_ranges), 1)[0]);
    assert(b[13] == wire::le_bytes(flag(m.stale), 1)[0]);
    assert(b.subrange(14, 22) =~= wire::le_bytes(m.created as nat, 8));
    assert(b.subrange(22, 30) =~= wire::le_bytes(m.last_seen as nat, 8));
    assert(b.skip(30) =~= wire::string_bytes(Some(m.key)) + wire::string_bytes(m.etag)
        + wire::string_bytes(m.last_modified) + wire::string_bytes(m.content_type));
}

proof fn lemma_flag_byte(b: bool)
    ensures
        wire::le_bytes(flag(b), 1)[0] == if b {
            1u8
        } else {
            0u8
        },
{
    reveal_with_fuel(wire::le_bytes, 2);
}

/// Generations count up by one, and start over behind the last.
pub proof fn generations_count_up(generation: u32)
    ensures
        generation < u32::MAX ==> generation_after(generation) == generation + 1,
        generation_after(u32::MAX) == 0,
{
}

/// Everything that is known of an object is part of what is stored of it.
pub proof fn nothing_of_an_entry_is_left_out(m: ObjectMeta)
    ensures
        m@.key == m.key@,
        m@.total_len == m.total_len,
        m@.generation == m.generation,
        m.etag matches Some(t) ==> m@.etag == Some(t@),
        m.etag is None ==> m@.etag is None,
        m.last_modified matches Some(t) ==> m@.last_modified == Some(t@),
        m.last_modified is None ==> m@.last_modified is None,
        m.content_type matches Some(t) ==> m@.content_type == Some(t@),
        m.content_type is None ==> m@.content_type is None,
        m@.no_ranges == m.no_ranges,
        m@.created == m.created,
        m@.last_seen == m.last_seen,
        m@.stale == m.stale,
{
}

/// An entry that ends too early is reported by the first number that is cut off.
#[verifier::spinoff_prover]
#[verifier::rlimit(60)]
pub proof fn cut_entries_are_told_apart(b: Seq<u8>)
    ensures
        b.len() < 8 ==> meta_in(b) == Err::<(Meta, Seq<u8>), Seq<char>>("truncated total_len"@),
        8 <= b.len() < 12 ==> meta_in(b) == Err::<(Meta, Seq<u8>), Seq<char>>(
            "truncated generation"@,
        ),
        b.len() == 12 ==> meta_in(b) == Err::<(Meta, Seq<u8>), Seq<char>>("truncated no_ranges"@),
        b.len() == 13 ==> meta_in(b) == Err::<(Meta, Seq<u8>), Seq<char>>("truncated stale"@),
        14 <= b.len() < 22 ==> meta_in(b) == Err::<(Meta, Seq<u8>), Seq<char>>("truncated created"@),
        22 <= b.len() < 30 ==> meta_in(b) == Err::<(Meta, Seq<u8>), Seq<char>>(
            "truncated last_seen"@,
        ),
        30 <= b.len() < 34 ==> meta_in(b) == Err::<(Meta, Seq<u8>), Seq<char>>("truncated key"@),
{
}

/// Stored text is taken for what it says where it is text, and for absent where it is not.
pub proof fn stored_text_has_to_be_text(u: Seq<u8>, c: Seq<char>)
    ensures
        text_or_none(None) is None,
        !valid_utf8(u) ==> text_or_none(Some(u)) is None,
        text_or_none(Some(encode_utf8(c))) == Some(c),
{
    encode_utf8_valid_utf8(c);
    encode_utf8_decode_utf8(c);
}

/// The numbers of an entry are read from where they are written, whatever else it holds, and a flag
/// is set where its byte is anything but zero.
#[verifier::spinoff_prover]
#[verifier::rlimit(60)]
pub proof fn entries_are_read_in_order(b: Seq<u8>)
    requires
        meta_in(b) is Ok,
    ensures
        ({
            let m = (meta_in(b)->Ok_0).0;
            &&& b.len() >= 34
            &&& m.total_len == wire::le_value(b.subrange(0, 8)) as u64
            &&& m.generation == wire::le_value(b.subrange(8, 12)) as u32
            &&& m.no_ranges <==> b[12] != 0
            &&& m.stale <==> b[13] != 0
            &&& m.created == wire::le_value(b.subrange(14, 22)) as u64
            &&& m.last_seen == wire::le_value(b.subrange(22, 30)) as u64
        }),
{
    let b1 = b.skip(8);
    let b2 = b1.skip(4);
    let b3 = b2.skip(1);
    let b4 = b3.skip(1);
    let b5 = b4.skip(8);
    assert(b.take(8) =~= b.subrange(0, 8));
    assert(b1.take(4) =~= b.subrange(8, 12));
    assert(b2.take(1) =~= seq![b[12]]);
    assert(b3.take(1) =~= seq![b[13]]);
    assert(b4.take(8) =~= b.subrange(14, 22));
    assert(b5.take(8) =~= b.subrange(22, 30));
    lemma_one_byte(b[12]);
    lemma_one_byte(b[13]);
}

proof fn lemma_one_byte(x: u8)
    ensures
        wire::le_value(seq![x]) == x as nat,
{
    wire::numbers_are_written_lowest_byte_first(x, 0, 0, Seq::empty(), 0, 0);
    assert(seq![x] + Seq::<u8>::empty() =~= seq![x]);
}

} // verus!
