//! The admin API: stats, services, purge and drain.
//!
//! When a token is configured, authentication fails closed: a malformed header, a missing header
//! and a wrong token are all rejected identically.
use crate::admin::Readiness;
use crate::proxy::headers;
use crate::proxy::headers::HeaderMap;
use crate::proxy::server;
use crate::proxy::server::Reply;
use crate::proxy::shutdown::Drain;
use crate::store::index;
use crate::store::index::{IndexError, ObjectMeta};
use crate::store::slice::{ObjectId, SliceKey};
use crate::store::space;
use crate::store::space::DiskSpace;
use crate::text;
use vstd::prelude::*;
use vstd::string::*;
use vstd::utf8::*;

verus! {

/// Optional bearer token.
///
/// Absent means the API is unauthenticated. Present means every request must carry it.
#[derive(Debug)]
pub struct AuthToken {
    token: Option<String>,
}

/// Whether two byte strings are equal. Every byte is looked at, so how long it takes says nothing
/// about where they differ.
pub fn constant_time_eq(a: &[u8], b: &[u8]) -> (out: bool)
    ensures
        out == (a@ == b@),
{
    let n: usize = a.len();
    if n != b.len() {
        return false;
    }
    let mut diff: u8 = 0;
    for i in 0..n
        invariant
            n == a@.len(),
            n == b@.len(),
            diff == 0 <==> (forall|j: int| 0 <= j < i ==> a@[j] == b@[j]),
    {
        let x: u8 = a[i];
        let y: u8 = b[i];
        assert((diff | (x ^ y)) == 0 <==> (diff == 0 && x == y)) by (bit_vector);
        diff = diff | (x ^ y);
    }
    assert(diff == 0 <==> a@ =~= b@);
    diff == 0
}

impl Default for AuthToken {
    fn default() -> (out: Self)
        ensures
            out.secret() is None,
    {
        AuthToken { token: None }
    }
}

impl AuthToken {
    pub closed spec fn secret(self) -> Option<Seq<char>> {
        match self.token {
            Some(t) => Some(t@),
            None => None,
        }
    }

    /// Whether a request with these headers is let in.
    pub open spec fn admits(self, lines: Seq<headers::Line>) -> bool {
        match self.secret() {
            Some(secret) => headers::text_value(lines, "authorization"@) == Some(
                "Bearer "@ + secret,
            ),
            None => true,
        }
    }

    pub fn none() -> (out: Self)
        ensures
            out.secret() is None,
    {
        AuthToken { token: None }
    }

    /// An empty token is a configuration mistake that would otherwise mean "no auth" while looking
    /// like "auth". It is treated as absent.
    pub fn new(token: &str) -> (out: Self)
        ensures
            out.secret() == (if token@.len() == 0 {
                None
            } else {
                Some(token@)
            }),
    {
        if token.is_empty() {
            return AuthToken { token: None };
        }
        AuthToken { token: Some(token.to_owned()) }
    }

    pub fn is_set(&self) -> (out: bool)
        ensures
            out == self.secret() is Some,
    {
        self.token.is_some()
    }

    /// Whether a token was configured at all.
    pub fn is_configured(&self) -> (out: bool)
        ensures
            out == self.secret() is Some,
    {
        self.token.is_some()
    }

    /// Whether a request is authorised.
    pub fn permits(&self, lines: &HeaderMap) -> (out: bool)
        ensures
            out == self.admits(lines@),
    {
        let expected = match &self.token {
            Some(token) => token,
            None => return true,
        };
        let value = match lines.get_text("authorization") {
            Some(value) => value,
            None => return false,
        };
        let chars = text::chars_of(value.as_str());
        match text::strip_prefix(chars.as_slice(), "Bearer ") {
            None => {
                proof {
                    if value@ == "Bearer "@ + expected@ {
                        assert(value@.take("Bearer "@.len() as int) =~= "Bearer "@);
                    }
                }
                false
            },
            Some(rest) => {
                let presented = text::string_of(rest);
                proof {
                    encode_utf8_decode_utf8(presented@);
                    encode_utf8_decode_utf8(expected@);
                    assert(value@ =~= "Bearer "@ + presented@);
                    if value@ == "Bearer "@ + expected@ {
                        assert(expected@ =~= value@.skip("Bearer "@.len() as int));
                    }
                }
                constant_time_eq(presented.as_str().as_bytes(), expected.as_str().as_bytes())
            },
        }
    }
}

/// A service as the API lists it.
#[derive(Debug, PartialEq, Eq)]
pub struct ServiceInfo {
    pub name: String,
    pub patterns: usize,
}

/// What the API goes by once the store is open.
#[derive(Debug)]
pub struct ApiState {
    pub token: AuthToken,
    pub services: Vec<ServiceInfo>,
    pub configured_disk_bytes: u64,
    pub min_free_bytes: u64,
    pub slice_size: u32,
    /// The admin API is bound somewhere a client could reach, so the destructive endpoints need a
    /// token rather than relying on the address to confine them.
    pub mutations_need_token: bool,
}

/// The API's state, populated once the store is open.
///
/// The admin port binds before the store, so that a liveness probe is answered while a large cache
/// directory opens. Until the store exists, the operator endpoints report 503 rather than
/// pretending.
#[derive(Debug)]
pub struct LateApiState {
    state: Option<ApiState>,
}

impl Default for LateApiState {
    fn default() -> (out: Self)
        ensures
            out.published() is None,
    {
        LateApiState { state: None }
    }
}

impl LateApiState {
    pub closed spec fn published(self) -> Option<ApiState> {
        self.state
    }

    pub fn new() -> (out: Self)
        ensures
            out.published() is None,
    {
        LateApiState { state: None }
    }

    /// Publish the state. Returns false if it was already set, and then the first one stays.
    pub fn set(&mut self, state: ApiState) -> (out: bool)
        ensures
            out == old(self).published() is None,
            final(self).published() == (if out {
                Some(state)
            } else {
                old(self).published()
            }),
    {
        if self.state.is_some() {
            return false;
        }
        self.state = Some(state);
        true
    }

    pub fn get(&self) -> (out: Option<&ApiState>)
        ensures
            match out {
                Some(state) => self.published() == Some(*state),
                None => self.published() is None,
            },
    {
        match &self.state {
            Some(state) => Some(state),
            None => None,
        }
    }
}

/// Why a request is turned away, if it is. Reads need the token where there is one; what changes
/// state needs one to be configured wherever a client could reach the API.
pub open spec fn refusal(
    published: Option<ApiState>,
    lines: Seq<headers::Line>,
    mutation: bool,
) -> Option<(u16, Seq<char>)> {
    match published {
        None => Some((503, "the store is still opening\n"@)),
        Some(state) => if !state.token.admits(lines) {
            Some((401, "unauthorised\n"@))
        } else if mutation && state.mutations_need_token && state.token.secret() is None {
            Some((403, UNAUTHENTICATED_MUTATION@))
        } else {
            None
        },
    }
}

/// What is answered to a destructive request that nothing authenticates.
pub const UNAUTHENTICATED_MUTATION: &'static str = "refusing: this endpoint changes state, the admin API is not bound to loopback, and ADMIN_TOKEN is not set. Set ADMIN_TOKEN, or bind the admin API to loopback with ADMIN_BIND.\n";

/// Refuse a destructive request that nothing is authenticating.
///
/// Purging empties the cache and draining takes the instance out of service, both in one request.
/// Binding to loopback is what usually confines them; this is the backstop for an operator who
/// binds the API wider without setting a token. Health and metrics are not covered: neither changes
/// anything.
pub fn refuse_unauthenticated_mutation(state: &ApiState) -> (out: Option<Reply>)
    ensures
        match out {
            Some(r) => state.mutations_need_token && state.token.secret() is None && r.says(
                403,
                UNAUTHENTICATED_MUTATION@,
            ),
            None => !(state.mutations_need_token && state.token.secret() is None),
        },
{
    if state.mutations_need_token && !state.token.is_configured() {
        return Some(server::text(403, UNAUTHENTICATED_MUTATION));
    }
    None
}

/// The state, for a request that is let in.
fn admitted<'a>(late: &'a LateApiState, lines: &HeaderMap, mutation: bool) -> (out: Result<
    &'a ApiState,
    Reply,
>)
    ensures
        match refusal(late.published(), lines@, mutation) {
            Some((status, message)) => out matches Err(r) && r.says(status, message),
            None => out matches Ok(state) && late.published() == Some(*state),
        },
{
    let state = match late.get() {
        Some(state) => state,
        None => return Err(server::text(503, "the store is still opening\n")),
    };
    if !state.token.permits(lines) {
        return Err(server::text(401, "unauthorised\n"));
    }
    if mutation {
        if let Some(reply) = refuse_unauthenticated_mutation(state) {
            return Err(reply);
        }
    }
    Ok(state)
}

#[derive(Debug, Clone, Copy, PartialEq, Eq, Structural)]
pub struct Stats {
    pub objects: usize,
    pub indexed_bytes: u64,
    pub configured_disk_bytes: u64,
    pub effective_disk_bytes: u64,
    /// True when the free-space guard is holding the cap below what was configured.
    pub disk_guard_engaged: bool,
    pub filesystem_total_bytes: u64,
    pub filesystem_available_bytes: u64,
    pub min_free_bytes: u64,
    pub slice_size: u32,
    pub draining: bool,
    pub inflight: u64,
}

/// What is read of the disk and the index for [`stats`]; nothing where that failed.
#[derive(Debug, Clone, Copy, PartialEq, Eq, Structural)]
pub struct Readings {
    pub objects: Option<usize>,
    pub indexed_bytes: Option<u64>,
    pub disk: Option<DiskSpace>,
}

impl Readings {
    pub open spec fn disk_or_none(self) -> DiskSpace {
        match self.disk {
            Some(disk) => disk,
            None => DiskSpace { total: 0, available: 0 },
        }
    }

    pub open spec fn bytes_or_zero(self) -> u64 {
        match self.indexed_bytes {
            Some(n) => n,
            None => 0,
        }
    }
}

/// What an operator gets to see. What cannot be read counts as zero.
pub fn stats(
    late: &LateApiState,
    lines: &HeaderMap,
    drain: &Drain,
    readings: Readings,
) -> (out: Result<Stats, Reply>)
    ensures
        match refusal(late.published(), lines@, false) {
            Some((status, message)) => out matches Err(r) && r.says(status, message),
            None => {
                let state = late.published()->0;
                let disk = readings.disk_or_none();
                let effective = space::cap(
                    state.configured_disk_bytes,
                    state.min_free_bytes,
                    readings.bytes_or_zero(),
                    disk,
                );
                out == Ok::<Stats, Reply>(
                    Stats {
                        objects: match readings.objects {
                            Some(n) => n,
                            None => 0,
                        },
                        indexed_bytes: readings.bytes_or_zero(),
                        configured_disk_bytes: state.configured_disk_bytes,
                        effective_disk_bytes: effective as u64,
                        disk_guard_engaged: effective < state.configured_disk_bytes,
                        filesystem_total_bytes: disk.total,
                        filesystem_available_bytes: disk.available,
                        min_free_bytes: state.min_free_bytes,
                        slice_size: state.slice_size,
                        draining: drain.refuses(),
                        inflight: drain.running(),
                    },
                )
            },
        },
{
    let state = match admitted(late, lines, false) {
        Ok(state) => state,
        Err(reply) => return Err(reply),
    };
    let objects: usize = match readings.objects {
        Some(n) => n,
        None => 0,
    };
    let indexed_bytes: u64 = match readings.indexed_bytes {
        Some(n) => n,
        None => 0,
    };
    let disk = match readings.disk {
        Some(disk) => disk,
        None => DiskSpace { total: 0, available: 0 },
    };
    let effective: u64 = space::effective_cap(
        state.configured_disk_bytes,
        state.min_free_bytes,
        indexed_bytes,
        disk,
    );
    Ok(
        Stats {
            objects,
            indexed_bytes,
            configured_disk_bytes: state.configured_disk_bytes,
            effective_disk_bytes: effective,
            disk_guard_engaged: space::is_engaged(state.configured_disk_bytes, effective),
            filesystem_total_bytes: disk.total,
            filesystem_available_bytes: disk.available,
            min_free_bytes: state.min_free_bytes,
            slice_size: state.slice_size,
            draining: drain.is_draining(),
            inflight: drain.inflight(),
        },
    )
}

/// The services that are cached.
pub fn services<'a>(late: &'a LateApiState, lines: &HeaderMap) -> (out: Result<
    &'a Vec<ServiceInfo>,
    Reply,
>)
    ensures
        match refusal(late.published(), lines@, false) {
            Some((status, message)) => out matches Err(r) && r.says(status, message),
            None => out matches Ok(list) && *list == late.published()->0.services,
        },
{
    match admitted(late, lines, false) {
        Ok(state) => Ok(&state.services),
        Err(reply) => Err(reply),
    }
}

/// Begin draining: readiness fails at once so traffic moves away, and what is in flight is still
/// served.
pub fn drain(late: &LateApiState, lines: &HeaderMap, readiness: &mut Readiness) -> (out: Reply)
    ensures
        match refusal(late.published(), lines@, true) {
            Some((status, message)) => out.says(status, message) && *final(readiness) == *old(
                readiness,
            ),
            None => {
                &&& out.says(202, "draining\n"@)
                &&& final(readiness).drains()
                &&& final(readiness).has_store() == old(readiness).has_store()
                &&& final(readiness).has_listeners() == old(readiness).has_listeners()
            },
        },
{
    match admitted(late, lines, true) {
        Ok(_) => {
            readiness.begin_drain();
            server::text(202, "draining\n")
        },
        Err(reply) => reply,
    }
}

#[derive(Debug, PartialEq, Eq)]
pub struct PurgeParams {
    /// Purge every object whose normalised key starts with this.
    pub prefix: Option<String>,
    /// Purge everything. Required explicitly, so a missing prefix cannot silently empty the cache.
    pub all: bool,
}

#[derive(Debug, Clone, Copy, PartialEq, Eq, Structural)]
pub struct PurgeResult {
    pub objects_removed: usize,
    pub slices_removed: u64,
}

/// What is to be purged.
#[derive(Debug, PartialEq, Eq)]
pub enum Scope {
    Prefix(String),
    All,
}

/// What a request is to purge, if it may purge at all.
///
/// A prefix goes first. Without one, `all` must be explicit: a request that meant to carry a
/// prefix and lost it would otherwise empty the entire cache.
pub fn purge(late: &LateApiState, lines: &HeaderMap, params: PurgeParams) -> (out: Result<
    Scope,
    Reply,
>)
    ensures
        match refusal(late.published(), lines@, true) {
            Some((status, message)) => out matches Err(r) && r.says(status, message),
            None => match params.prefix {
                Some(prefix) => out == Ok::<Scope, Reply>(Scope::Prefix(prefix)),
                None => if params.all {
                    out == Ok::<Scope, Reply>(Scope::All)
                } else {
                    out matches Err(r) && r.says(400, "specify ?prefix=... or ?all=true\n"@)
                },
            },
        },
{
    match admitted(late, lines, true) {
        Ok(_) => {},
        Err(reply) => return Err(reply),
    }
    match params.prefix {
        Some(prefix) => Ok(Scope::Prefix(prefix)),
        None => if params.all {
            Ok(Scope::All)
        } else {
            Err(server::text(400, "specify ?prefix=... or ?all=true\n"))
        },
    }
}

/// What is removed by a purge.
#[derive(Debug, PartialEq, Eq)]
pub struct Purge {
    pub objects: Vec<ObjectId>,
    pub slices: Vec<SliceKey>,
}

/// An index entry: an object and what is recorded of it.
pub type Entry = (Seq<u8>, Seq<u8>);

/// A slice: its object, generation and index.
pub type Slice = (Seq<u8>, u32, u32);

pub open spec fn slice_of(key: SliceKey) -> Slice {
    (key.object@, key.generation, key.index)
}

pub open spec fn slices_view(keys: Seq<SliceKey>) -> Seq<Slice> {
    keys.map_values(|k: SliceKey| slice_of(k))
}

/// The entries whose key starts with a prefix, or the first entry that cannot be read.
pub open spec fn with_prefix(entries: Seq<Entry>, prefix: Seq<char>) -> Result<
    Seq<Entry>,
    (Seq<u8>, Seq<char>),
>
    decreases entries.len(),
{
    if entries.len() == 0 {
        Ok(Seq::empty())
    } else {
        match with_prefix(entries.drop_last(), prefix) {
            Err(e) => Err(e),
            Ok(found) => match index::meta_in(entries.last().1) {
                Err(why) => Err((entries.last().0, why)),
                Ok((m, _)) => if prefix.is_prefix_of(m.key) {
                    Ok(found.push(entries.last()))
                } else {
                    Ok(found)
                },
            },
        }
    }
}

/// The entries that a purge is about.
pub open spec fn in_scope(entries: Seq<Entry>, scope: Scope) -> Result<
    Seq<Entry>,
    (Seq<u8>, Seq<char>),
> {
    match scope {
        Scope::Prefix(prefix) => with_prefix(entries, prefix@),
        Scope::All => Ok(entries),
    }
}

/// How many slices an object has.
pub open spec fn slice_count(total_len: u64, slice_size: u32) -> nat {
    if total_len == 0 {
        0
    } else {
        ((total_len - 1) / slice_size as int + 1) as nat
    }
}

/// The slices of an object whose entry can be read.
pub open spec fn slices_of_entry(entry: Entry, slice_size: u32) -> Seq<Slice> {
    match index::meta_in(entry.1) {
        Ok((m, _)) => Seq::new(
            slice_count(m.total_len, slice_size),
            |i: int| (entry.0, m.generation, i as u32),
        ),
        Err(_) => Seq::empty(),
    }
}

pub open spec fn slices_of_entries(entries: Seq<Entry>, slice_size: u32) -> Seq<Slice>
    decreases entries.len(),
{
    if entries.len() == 0 {
        Seq::empty()
    } else {
        slices_of_entries(entries.drop_last(), slice_size) + slices_of_entry(
            entries.last(),
            slice_size,
        )
    }
}

pub open spec fn ids_of(entries: Seq<Entry>) -> Seq<Seq<u8>> {
    entries.map_values(|e: Entry| e.0)
}

/// Adds the slices of an object. An index is kept in 32 bits.
fn add_slices(keys: &mut Vec<SliceKey>, id: ObjectId, meta: &ObjectMeta, slice_size: u32)
    requires
        slice_size > 0,
    ensures
        slices_view(final(keys)@) == slices_view(old(keys)@) + Seq::new(
            slice_count(meta.total_len, slice_size),
            |i: int| (id@, meta.generation, i as u32),
        ),
{
    let count: u64 = if meta.total_len == 0 {
        0
    } else {
        proof {
            let t = meta.total_len - 1;
            let s = slice_size as int;
            assert(t / s <= t) by (nonlinear_arith)
                requires
                    t >= 0,
                    s > 0,
            ;
        }
        (meta.total_len - 1) / slice_size as u64 + 1
    };
    let ghost before = slices_view(keys@);
    let mut i: u64 = 0;
    let ghost added = |i: int| (id@, meta.generation, i as u32);
    assert(before + Seq::new(0, added) =~= before);
    while i < count
        invariant
            i <= count,
            added == (|i: int| (id@, meta.generation, i as u32)),
            slices_view(keys@) == before + Seq::new(i as nat, added),
        decreases count - i,
    {
        let key = SliceKey::new(id, meta.generation, #[verifier::truncate] (i as u32));
        let ghost so_far = slices_view(keys@);
        keys.push(key);
        i = i + 1;
        assert(slices_view(keys@) =~= so_far.push(slice_of(key)));
        assert(so_far.push(slice_of(key)) =~= before + Seq::new(i as nat, added));
    }
}

/// What is removed, out of the entries of the index.
///
/// Slices and the entry of their object go together. Leaving slices behind would waste the space
/// that was to be reclaimed; leaving the entry behind would let a later request believe that the
/// object is known. An entry that cannot be read goes without its slices, unless its key has to be
/// known to tell whether it is meant.
pub fn purge_plan(entries: &Vec<(ObjectId, Vec<u8>)>, scope: &Scope, slice_size: u32) -> (out:
    Result<Purge, IndexError>)
    requires
        slice_size > 0,
    ensures
        match in_scope(index::entries_view(entries@), *scope) {
            Err((bad, why)) => out matches Err(IndexError::Corrupt { id, reason }) && id@
                == text::hex_pairs(bad) && reason@ == why,
            Ok(found) => {
                &&& out matches Ok(p)
                &&& index::ids_view(p.objects@) == ids_of(found)
                &&& slices_view(p.slices@) == slices_of_entries(found, slice_size)
            },
        },
{
    let n: usize = entries.len();
    let ghost all = index::entries_view(entries@);
    let mut objects: Vec<ObjectId> = Vec::new();
    let mut slices: Vec<SliceKey> = Vec::new();
    let mut i: usize = 0;
    let ghost mut found: Seq<Entry> = Seq::empty();
    assert(all.take(0) =~= Seq::empty());
    assert(index::ids_view(objects@) =~= ids_of(found));
    assert(slices_view(slices@) =~= slices_of_entries(found, slice_size));
    while i < n
        invariant
            n == entries@.len(),
            i <= n,
            slice_size > 0,
            all == index::entries_view(entries@),
            in_scope(all.take(i as int), *scope) == Ok::<Seq<Entry>, (Seq<u8>, Seq<char>)>(found),
            index::ids_view(objects@) == ids_of(found),
            slices_view(slices@) == slices_of_entries(found, slice_size),
        decreases n - i,
    {
        let entry = &entries[i];
        let ghost e = (entry.0@, entry.1@);
        assert(all.take(i + 1).drop_last() =~= all.take(i as int));
        assert(all.take(i + 1).last() == e);
        assert(all.take(i + 1) =~= all.take(i as int).push(e));
        let meta = match ObjectMeta::decode(entry.1.as_slice(), &entry.0) {
            Ok(meta) => Some(meta),
            Err(e) => {
                if let Scope::Prefix(prefix) = scope {
                    proof {
                        lemma_prefix_fails(all, i + 1, prefix@);
                    }
                    return Err(e);
                }
                None
            },
        };
        let wanted = match (scope, &meta) {
            (Scope::Prefix(prefix), Some(meta)) => {
                let chars = text::chars_of(meta.key.as_str());
                text::strip_prefix(chars.as_slice(), prefix.as_str()).is_some()
            },
            _ => true,
        };
        if wanted {
            let ghost ids = index::ids_view(objects@);
            objects.push(entry.0);
            assert(index::ids_view(objects@) =~= ids.push(entry.0@));
            if let Some(m) = &meta {
                add_slices(&mut slices, entry.0, m, slice_size);
            }
            proof {
                assert(found.push(e).drop_last() =~= found);
                assert(ids_of(found.push(e)) =~= ids_of(found).push(e.0));
                found = found.push(e);
                assert(slices_view(slices@) =~= slices_of_entries(found, slice_size));
            }
        }
        i = i + 1;
    }
    assert(all.take(n as int) =~= all);
    Ok(Purge { objects, slices })
}

/// An entry that cannot be read spoils everything behind it.
#[verifier::spinoff_prover]
#[verifier::rlimit(60)]
proof fn lemma_prefix_fails(entries: Seq<Entry>, k: int, prefix: Seq<char>)
    requires
        0 <= k <= entries.len(),
        with_prefix(entries.take(k), prefix) is Err,
    ensures
        with_prefix(entries, prefix) == with_prefix(entries.take(k), prefix),
    decreases entries.len() - k,
{
    if k < entries.len() {
        assert(entries.take(k + 1).drop_last() =~= entries.take(k));
        lemma_prefix_fails(entries, k + 1, prefix);
    } else {
        assert(entries.take(k) =~= entries);
    }
}

/// What is answered when a purge cannot read the index.
pub fn unreadable(error: &IndexError) -> (out: Reply)
    ensures
        out.says(500, "cannot read the index: "@ + error.message_spec() + "\n"@),
{
    let mut message = "cannot read the index: ".to_owned();
    message.append(error.message().as_str());
    message.append("\n");
    server::text(500, message.as_str())
}

impl Purge {
    /// What is reported of a purge.
    pub fn result(&self) -> (out: PurgeResult)
        ensures
            out.objects_removed == self.objects@.len(),
            out.slices_removed == self.slices@.len(),
    {
        PurgeResult {
            objects_removed: self.objects.len(),
            slices_removed: self.slices.len() as u64,
        }
    }
}

/// A purge by prefix is about exactly the entries whose key starts with it.
#[verifier::spinoff_prover]
#[verifier::rlimit(60)]
pub proof fn purging_by_prefix_spares_the_rest(
    entries: Seq<Entry>,
    prefix: Seq<char>,
    entry: Entry,
)
    requires
        with_prefix(entries, prefix) is Ok,
    ensures
        with_prefix(entries, prefix)->Ok_0.contains(entry) <==> {
            &&& entries.contains(entry)
            &&& index::meta_in(entry.1) matches Ok((m, _)) && prefix.is_prefix_of(m.key)
        },
    decreases entries.len(),
{
    let found = with_prefix(entries, prefix)->Ok_0;
    if entries.len() > 0 {
        let front = entries.drop_last();
        let before = with_prefix(front, prefix)->Ok_0;
        purging_by_prefix_spares_the_rest(front, prefix, entry);
        assert(entries =~= front.push(entries.last()));
        assert(entries.contains(entry) <==> front.contains(entry) || entry == entries.last()) by {
            if front.contains(entry) {
                let j = choose|j: int| 0 <= j < front.len() && front[j] == entry;
                assert(entries[j] == entry);
            }
            if entry == entries.last() {
                assert(entries[entries.len() - 1] == entry);
            }
        }
        if found != before {
            assert(found == before.push(entries.last()));
            assert(found.contains(entry) <==> before.contains(entry) || entry == entries.last())
                by {
                if before.contains(entry) {
                    let j = choose|j: int| 0 <= j < before.len() && before[j] == entry;
                    assert(found[j] == entry);
                }
                if entry == entries.last() {
                    assert(found[found.len() - 1] == entry);
                }
            }
        }
    }
}

/// A purge leaves no slice of a removed object behind.
#[verifier::spinoff_prover]
#[verifier::rlimit(60)]
pub proof fn purging_leaves_no_slices(
    entries: Seq<Entry>,
    slice_size: u32,
    entry: Entry,
    index: u32,
)
    requires
        slice_size > 0,
        entries.contains(entry),
        index::meta_in(entry.1) matches Ok((m, _)) && index < slice_count(m.total_len, slice_size),
    ensures
        slices_of_entries(entries, slice_size).contains(
            (entry.0, (index::meta_in(entry.1)->Ok_0).0.generation, index),
        ),
    decreases entries.len(),
{
    let slice = (entry.0, (index::meta_in(entry.1)->Ok_0).0.generation, index);
    let front = entries.drop_last();
    let a = slices_of_entries(front, slice_size);
    let b = slices_of_entry(entries.last(), slice_size);
    if entry == entries.last() {
        assert(b[index as int] == slice);
        assert((a + b)[a.len() + index] == slice);
    } else {
        let j = choose|j: int| 0 <= j < entries.len() && entries[j] == entry;
        assert(front[j] == entry);
        purging_leaves_no_slices(front, slice_size, entry, index);
        let k = choose|k: int| 0 <= k < a.len() && a[k] == slice;
        assert((a + b)[k] == slice);
    }
}

/// Where a token is configured, a request is let in exactly where its `Authorization` header is that
/// token behind `Bearer` and a space; without that header, or with any other value in it, it is not.
/// Where none is configured, every request is.
pub proof fn tokens_let_in_their_bearer_alone(
    token: AuthToken,
    before: Seq<headers::Line>,
    value: Seq<u8>,
    after: Seq<headers::Line>,
)
    requires
        forall|i: int| 0 <= i < before.len() ==> (#[trigger] before[i]).0 != "authorization"@,
    ensures
        token.secret() is None ==> token.admits(before),
        token.secret() matches Some(secret) ==> {
            &&& !token.admits(before)
            &&& token.admits(before + seq![("authorization"@, value)] + after) <==> {
                &&& value.len() == 7 + secret.len()
                &&& forall|i: int| 0 <= i < 7 ==> "Bearer "@[i] as int == #[trigger] value[i]
                &&& forall|i: int|
                    7 <= i < value.len() ==> #[trigger] value[i] == secret[i - 7] as int && (0x20
                        <= value[i] <= 0x7e || value[i] == 0x09)
            }
        },
{
    reveal_strlit("authorization");
    reveal_strlit("Bearer ");
    assert(text::lowered("authorization"@) =~= "authorization"@);
    headers::values_are_those_of_the_first_line(before, value, after, "authorization"@);
    if let Some(secret) = token.secret() {
        let found = headers::text_value(
            before + seq![("authorization"@, value)] + after,
            "authorization"@,
        );
        let wanted = "Bearer "@ + secret;
        if found == Some(wanted) {
            assert forall|i: int| 0 <= i < 7 implies "Bearer "@[i] as int == #[trigger] value[i] by {
                assert(wanted[i] == "Bearer "@[i]);
            }
            assert forall|i: int| 7 <= i < value.len() implies #[trigger] value[i] == secret[i
                - 7] as int by {
                assert(wanted[i] == secret[i - 7]);
            }
        }
        if value.len() == 7 + secret.len() && (forall|i: int|
            0 <= i < 7 ==> "Bearer "@[i] as int == #[trigger] value[i]) && (forall|i: int|
            7 <= i < value.len() ==> #[trigger] value[i] == secret[i - 7] as int && (0x20 <= value[i]
                <= 0x7e || value[i] == 0x09)) {
            assert forall|i: int| 0 <= i < value.len() implies 0x20 <= #[trigger] value[i] <= 0x7e
                || value[i] == 0x09 by {
                if i < 7 {
                    assert("Bearer "@[i] as int == value[i]);
                }
            }
            assert(found is Some);
            assert forall|i: int| 0 <= i < value.len() implies found->0[i] == #[trigger] wanted[i] by {
                assert(found->0[i] as int == value[i]);
            }
            assert(found->0 =~= wanted);
        }
    }
}

/// Before the store is open nothing is answered. Then a request is turned away where its token does
/// not let it in; and one that changes something also where nothing could have turned it away.
pub proof fn changes_need_more_than_reads(
    state: ApiState,
    lines: Seq<headers::Line>,
    mutation: bool,
)
    ensures
        refusal(None, lines, mutation) matches Some(r) && r.0 == 503,
        !state.token.admits(lines) <==> (refusal(Some(state), lines, mutation) matches Some(r) && r.0
            == 401),
        state.token.admits(lines) ==> refusal(Some(state), lines, false) is None,
        state.token.secret() is Some && state.token.admits(lines) ==> refusal(
            Some(state),
            lines,
            true,
        ) is None,
        state.token.secret() is None && state.mutations_need_token ==> (refusal(
            Some(state),
            lines,
            true,
        ) matches Some(r) && r.0 == 403),
        state.token.secret() is None && !state.mutations_need_token ==> refusal(
            Some(state),
            lines,
            true,
        ) is None,
{
}

/// An object has just as many slices as are needed to hold it: one fewer would not do.
pub proof fn slices_are_as_many_as_needed(total_len: u64, slice_size: u32)
    requires
        slice_size > 0,
    ensures
        slice_count(total_len, slice_size) * slice_size >= total_len,
        total_len > 0 ==> (slice_count(total_len, slice_size) - 1) * slice_size < total_len,
        total_len == 0 ==> slice_count(total_len, slice_size) == 0,
{
    if total_len > 0 {
        let t = total_len - 1;
        let s = slice_size as int;
        vstd::arithmetic::div_mod::lemma_fundamental_div_mod(t, s);
        vstd::arithmetic::div_mod::lemma_mod_bound(t, s);
        let q = t / s;
        assert(q >= 0) by (nonlinear_arith)
            requires
                q == t / s,
                t >= 0,
                s > 0,
        ;
        assert((q + 1) * s == s * q + s) by (nonlinear_arith);
        assert(q * s == s * q) by (nonlinear_arith);
    }
}

/// The slices that a purge removes are those of each entry in turn: every slice of the generation
/// that the entry records, from the first to the last, and none of an entry that cannot be read.
#[verifier::spinoff_prover]
#[verifier::rlimit(60)]
pub proof fn purges_remove_the_slices_of_each_entry(
    a: Seq<Entry>,
    b: Seq<Entry>,
    id: Seq<u8>,
    m: index::Meta,
    bytes: Seq<u8>,
    slice_size: u32,
    i: int,
)
    requires
        slice_size > 0,
        index::storable_meta(m),
    ensures
        slices_of_entries(a + b, slice_size) == slices_of_entries(a, slice_size)
            + slices_of_entries(b, slice_size),
        index::meta_in(bytes) is Err ==> slices_of_entries(seq![(id, bytes)], slice_size)
            == Seq::<Slice>::empty(),
        ({
            let own = slices_of_entries(seq![(id, index::meta_bytes(m))], slice_size);
            &&& own.len() * slice_size >= m.total_len
            &&& own.len() > 0 ==> (own.len() - 1) * slice_size < m.total_len
            &&& 0 <= i < own.len() && i <= u32::MAX ==> own[i] == (id, m.generation, i as u32)
        }),
        ids_of(a + b) == ids_of(a) + ids_of(b),
        ids_of(seq![(id, bytes)]) == seq![id],
    decreases b.len(),
{
    index::entries_read_back(m);
    slices_are_as_many_as_needed(m.total_len, slice_size);
    let one = seq![(id, index::meta_bytes(m))];
    let other = seq![(id, bytes)];
    assert(one.drop_last() =~= Seq::empty());
    assert(other.drop_last() =~= Seq::empty());
    assert(slices_of_entries(Seq::empty(), slice_size) =~= Seq::empty());
    let own = slices_of_entry(one.last(), slice_size);
    assert(Seq::<Slice>::empty() + own =~= own);
    assert(Seq::<Slice>::empty() + Seq::<Slice>::empty() =~= Seq::empty());
    assert(ids_of(a + b) =~= ids_of(a) + ids_of(b));
    assert(ids_of(other) =~= seq![id]);
    if b.len() > 0 {
        purges_remove_the_slices_of_each_entry(
            a,
            b.drop_last(),
            id,
            m,
            bytes,
            slice_size,
            i,
        );
        assert((a + b).drop_last() =~= a + b.drop_last());
        let x = slices_of_entries(a, slice_size);
        let y = slices_of_entries(b.drop_last(), slice_size);
        let z = slices_of_entry(b.last(), slice_size);
        assert((a + b).last() == b.last());
        assert((x + y) + z =~= x + (y + z));
    } else {
        assert(a + b =~= a);
        assert(slices_of_entries(a, slice_size) + slices_of_entries(b, slice_size)
            =~= slices_of_entries(a, slice_size));
    }
}

/// A purge of everything is about every entry, and one by prefix about those under it. What cannot
/// be read of the disk counts as nothing.
pub proof fn purges_are_about_what_they_name(entries: Seq<Entry>, prefix: String, disk: DiskSpace)
    ensures
        in_scope(entries, Scope::All) == Ok::<Seq<Entry>, (Seq<u8>, Seq<char>)>(entries),
        in_scope(entries, Scope::Prefix(prefix)) == with_prefix(entries, prefix@),
        (Readings { objects: None, indexed_bytes: None, disk: Some(disk) }).disk_or_none() == disk,
        (Readings { objects: None, indexed_bytes: None, disk: None }).disk_or_none() == (DiskSpace {
            total: 0,
            available: 0,
        }),
        (Readings {
            objects: None,
            indexed_bytes: Some(disk.total),
            disk: None,
        }).bytes_or_zero() == disk.total,
{
}

} // verus!
