//! Minimal TLS ClientHello parser: enough to read the SNI host and nothing more.
//!
//! Nothing is decrypted, terminated or negotiated. Every length in the wire format is chosen by
//! the client, so every read is bounds-checked, and anything malformed yields nothing.
use crate::text;
use crate::wire;
use vstd::prelude::*;

verus! {

/// TLS record type for a handshake.
pub const RECORD_HANDSHAKE: u8 = 0x16;

/// Handshake message type for ClientHello.
pub const HANDSHAKE_CLIENT_HELLO: u8 = 0x01;

/// The `server_name` extension.
pub const EXT_SERVER_NAME: u16 = 0x0000;

/// `host_name` name type within it.
pub const NAME_TYPE_HOST: u8 = 0x00;

/// A ClientHello cannot be smaller than this in total.
pub const MIN_CLIENT_HELLO: usize = 43;

/// The largest ClientHello to buffer while looking for SNI.
///
/// A TLS record is capped at 16 KiB by the protocol. Refusing to buffer more means a client
/// cannot hold memory by promising a record it never sends.
pub const MAX_CLIENT_HELLO: usize = 16 * 1024 + 5;

/// Whether a buffer looks like the start of a TLS handshake.
///
/// Cheap enough to run before buffering more, so a non-TLS client is rejected immediately.
pub fn looks_like_tls(bytes: &[u8]) -> (out: bool)
    ensures
        out == (bytes@.len() > 0 && bytes@[0] == RECORD_HANDSHAKE),
{
    bytes.len() > 0 && bytes[0] == RECORD_HANDSHAKE
}

/// How long the record at the front of a buffer says it is, header and all.
pub open spec fn declared_length(bytes: Seq<u8>) -> Option<int> {
    if bytes.len() < 5 {
        None
    } else {
        Some(bytes[3] * 256 + bytes[4] + 5)
    }
}

/// The total record length declared by a TLS record header, if the header is complete.
pub fn record_length(bytes: &[u8]) -> (out: Option<usize>)
    ensures
        out is Some <==> declared_length(bytes@) is Some,
        out matches Some(n) ==> declared_length(bytes@) == Some(n as int),
{
    if bytes.len() < 5 {
        return None;
    }
    Some(bytes[3] as usize * 256 + bytes[4] as usize + 5)
}

/// What follows a field whose length is given by a one-byte prefix.
pub open spec fn behind_u8_vec(b: Seq<u8>) -> Option<Seq<u8>> {
    match wire::byte_in(b) {
        None => None,
        Some((n, rest)) => match wire::taken(rest, n as int) {
            None => None,
            Some((_, rest)) => Some(rest),
        },
    }
}

/// A field whose length is given by a two-byte prefix, and what follows it.
pub open spec fn u16_vec(b: Seq<u8>) -> Option<(Seq<u8>, Seq<u8>)> {
    match wire::be16_in(b) {
        None => None,
        Some((n, rest)) => wire::taken(rest, n as int),
    }
}

/// The first host name in a list of names.
pub open spec fn host_in_names(b: Seq<u8>) -> Option<Seq<u8>>
    decreases b.len(),
{
    match wire::byte_in(b) {
        None => None,
        Some((kind, rest)) => match u16_vec(rest) {
            None => None,
            Some((name, rest)) => if kind == NAME_TYPE_HOST {
                Some(name)
            } else {
                host_in_names(rest)
            },
        },
    }
}

/// The host name in the first `server_name` extension of a list of extensions.
pub open spec fn host_in_extensions(b: Seq<u8>) -> Option<Seq<u8>>
    decreases b.len(),
{
    match wire::be16_in(b) {
        None => None,
        Some((kind, rest)) => match u16_vec(rest) {
            None => None,
            Some((data, rest)) => if kind != EXT_SERVER_NAME {
                host_in_extensions(rest)
            } else {
                match u16_vec(data) {
                    None => None,
                    Some((list, _)) => host_in_names(list),
                }
            },
        },
    }
}

/// The host name in the body of a ClientHello, behind the handshake header.
pub open spec fn host_in_hello(b: Seq<u8>) -> Option<Seq<u8>> {
    // Client version and random.
    match wire::taken(b, 34) {
        None => None,
        // Session id.
        Some((_, b)) => match behind_u8_vec(b) {
            None => None,
            // Cipher suites.
            Some(b) => match u16_vec(b) {
                None => None,
                // Compression methods.
                Some((_, b)) => match behind_u8_vec(b) {
                    None => None,
                    Some(b) => match u16_vec(b) {
                        None => None,
                        Some((extensions, _)) => host_in_extensions(extensions),
                    },
                },
            },
        },
    }
}

pub open spec fn min_of(a: int, b: int) -> int {
    if a <= b {
        a
    } else {
        b
    }
}

/// The host name in a handshake record. The declared length is trusted only as far as the buffer
/// goes.
pub open spec fn host_in_record(b: Seq<u8>) -> Option<Seq<u8>> {
    if b.len() < 5 || b[0] != RECORD_HANDSHAKE {
        None
    } else {
        let body = b.subrange(5, min_of(5 + b[3] * 256 + b[4], b.len() as int));
        if body.len() < 4 || body[0] != HANDSHAKE_CLIENT_HELLO {
            None
        } else {
            host_in_hello(body.skip(4))
        }
    }
}

pub open spec fn ascii(b: Seq<u8>) -> bool {
    forall|i: int| 0 <= i < b.len() ==> #[trigger] b[i] < 0x80
}

/// A host name as text in small letters, where it is not empty and all of it is ASCII.
pub open spec fn host_text(b: Seq<u8>) -> Option<Seq<char>> {
    if b.len() > 0 && ascii(b) {
        Some(text::lowered(b.map_values(|x: u8| x as char)))
    } else {
        None
    }
}

/// The host that a ClientHello record names.
pub open spec fn server_name_spec(record: Seq<u8>) -> Option<Seq<char>> {
    match host_in_record(record) {
        None => None,
        Some(name) => host_text(name),
    }
}

fn skip_u8_vec(r: &mut wire::Reader) -> (out: Option<()>)
    requires
        old(r).valid(),
    ensures
        final(r).valid(),
        match behind_u8_vec(old(r).rest()) {
            Some(rest) => out is Some && final(r).rest() == rest,
            None => out is None,
        },
{
    match r.byte() {
        None => None,
        Some(n) => match r.take(n as usize) {
            None => None,
            Some(_) => Some(()),
        },
    }
}

fn take_u16_vec<'a>(r: &mut wire::Reader<'a>) -> (out: Option<&'a [u8]>)
    requires
        old(r).valid(),
    ensures
        final(r).valid(),
        match u16_vec(old(r).rest()) {
            Some((s, rest)) => out matches Some(o) && o@ == s && final(r).rest() == rest,
            None => out is None,
        },
{
    match r.be16() {
        None => None,
        Some(n) => r.take(n as usize),
    }
}

/// The first host name in a list of names.
fn host_name(list: &[u8]) -> (out: Option<&[u8]>)
    ensures
        match host_in_names(list@) {
            Some(name) => out matches Some(o) && o@ == name,
            None => out is None,
        },
{
    let mut n = wire::Reader::new(list);
    loop
        invariant
            n.valid(),
            host_in_names(n.rest()) == host_in_names(list@),
        decreases n.rest().len(),
    {
        let kind: u8 = match n.byte() {
            Some(k) => k,
            None => return None,
        };
        let name = match take_u16_vec(&mut n) {
            Some(s) => s,
            None => return None,
        };
        if kind == NAME_TYPE_HOST {
            return Some(name);
        }
    }
}

/// The host name in the first `server_name` extension.
fn extension_host(extensions: &[u8]) -> (out: Option<&[u8]>)
    ensures
        match host_in_extensions(extensions@) {
            Some(name) => out matches Some(o) && o@ == name,
            None => out is None,
        },
{
    let mut e = wire::Reader::new(extensions);
    loop
        invariant
            e.valid(),
            host_in_extensions(e.rest()) == host_in_extensions(extensions@),
        decreases e.rest().len(),
    {
        let kind: u16 = match e.be16() {
            Some(k) => k,
            None => return None,
        };
        let data = match take_u16_vec(&mut e) {
            Some(s) => s,
            None => return None,
        };
        if kind == EXT_SERVER_NAME {
            let mut names = wire::Reader::new(data);
            return match take_u16_vec(&mut names) {
                Some(list) => host_name(list),
                None => None,
            };
        }
    }
}

/// A host name as text in small letters.
fn lowercase_host(name: &[u8]) -> (out: Option<String>)
    ensures
        match host_text(name@) {
            Some(s) => out matches Some(o) && o@ == s,
            None => out is None,
        },
{
    let n: usize = name.len();
    if n == 0 {
        return None;
    }
    let mut out = String::new();
    let ghost chars = name@.map_values(|x: u8| x as char);
    for i in 0..n
        invariant
            n == name@.len(),
            chars == name@.map_values(|x: u8| x as char),
            forall|j: int| 0 <= j < i ==> #[trigger] name@[j] < 0x80,
            out@ =~= text::lowered(chars).take(i as int),
    {
        let b: u8 = name[i];
        if b >= 0x80 {
            return None;
        }
        out.push(text::lower_one(b as char));
        assert(text::lowered(chars)[i as int] == text::lower_char(b as char));
    }
    assert(text::lowered(chars).take(n as int) =~= text::lowered(chars));
    Some(out)
}

/// Extract the SNI host name from a ClientHello record.
///
/// Returns `None` for anything that is not a ClientHello carrying a `host_name`, including
/// perfectly valid TLS that simply omits SNI. The caller closes the connection in that case: there
/// is no other way to know where to send the bytes.
pub fn server_name(record: &[u8]) -> (out: Option<String>)
    ensures
        match server_name_spec(record@) {
            Some(s) => out matches Some(o) && o@ == s,
            None => out is None,
        },
{
    let total: usize = record.len();
    if total < 5 || record[0] != RECORD_HANDSHAKE {
        return None;
    }
    let declared: usize = record[3] as usize * 256 + record[4] as usize;
    let end: usize = if declared < total - 5 {
        5 + declared
    } else {
        total
    };
    let body = vstd::slice::slice_subrange(record, 5, end);
    if body.len() < 4 || body[0] != HANDSHAKE_CLIENT_HELLO {
        return None;
    }
    let hello = vstd::slice::slice_subrange(body, 4, body.len());
    assert(hello@ =~= body@.skip(4));
    let mut h = wire::Reader::new(hello);
    if h.take(34).is_none() {
        return None;
    }
    if skip_u8_vec(&mut h).is_none() {
        return None;
    }
    if take_u16_vec(&mut h).is_none() {
        return None;
    }
    if skip_u8_vec(&mut h).is_none() {
        return None;
    }
    let extensions = match take_u16_vec(&mut h) {
        Some(s) => s,
        None => return None,
    };
    match extension_host(extensions) {
        Some(name) => lowercase_host(name),
        None => None,
    }
}

/// What comes out is a name that a resolver can be asked for: not empty, ASCII, and without
/// capitals.
pub proof fn server_names_are_lowercase_ascii(record: Seq<u8>)
    requires
        server_name_spec(record) is Some,
    ensures
        server_name_spec(record)->0.len() > 0,
        forall|i: int|
            #![trigger server_name_spec(record)->0[i]]
            0 <= i < server_name_spec(record)->0.len() ==> {
                let c = server_name_spec(record)->0[i];
                (c as u32) < 0x80 && !('A' <= c <= 'Z')
            },
{
}

pub open spec fn be16(n: int) -> Seq<u8> {
    seq![(n / 256) as u8, (n % 256) as u8]
}

/// A `server_name` extension that names one host.
pub open spec fn name_extension(host: Seq<u8>) -> Seq<u8> {
    be16(EXT_SERVER_NAME as int) + be16(host.len() as int + 5) + be16(host.len() as int + 3) + seq![
        NAME_TYPE_HOST,
    ] + be16(host.len() as int) + host
}

/// A handshake record around a hello. The three bytes of the handshake length are not looked at.
pub open spec fn record_around(hello: Seq<u8>, version: Seq<u8>, length: Seq<u8>) -> Seq<u8> {
    seq![RECORD_HANDSHAKE] + version + be16(hello.len() as int + 4) + seq![HANDSHAKE_CLIENT_HELLO] + length
        + hello
}

/// The hello of a client: version and random, a session id, cipher suites, compression methods,
/// and extensions.
pub open spec fn hello_of(
    opening: Seq<u8>,
    session: Seq<u8>,
    suites: Seq<u8>,
    compression: Seq<u8>,
    extensions: Seq<u8>,
) -> Seq<u8> {
    opening + (seq![session.len() as u8] + (session + (be16(suites.len() as int) + (suites + (seq![
        compression.len() as u8,
    ] + (compression + (be16(extensions.len() as int) + extensions)))))))
}

proof fn lemma_be16(n: int, rest: Seq<u8>)
    requires
        0 <= n < 0x1_0000,
    ensures
        wire::be16_in(be16(n) + rest) == Some((n as nat, rest)),
{
    let b = be16(n) + rest;
    assert(b.skip(2) =~= rest);
    assert((n / 256) < 256);
    assert(b[0] as nat * 256 + b[1] as nat == n);
}

proof fn lemma_u16_vec(field: Seq<u8>, rest: Seq<u8>)
    requires
        field.len() < 0x1_0000,
    ensures
        u16_vec(be16(field.len() as int) + (field + rest)) == Some((field, rest)),
{
    lemma_be16(field.len() as int, field + rest);
    assert((field + rest).take(field.len() as int) =~= field);
    assert((field + rest).skip(field.len() as int) =~= rest);
}

proof fn lemma_u8_vec(field: Seq<u8>, rest: Seq<u8>)
    requires
        field.len() < 256,
    ensures
        behind_u8_vec(seq![field.len() as u8] + (field + rest)) == Some(rest),
{
    let b = seq![field.len() as u8] + (field + rest);
    assert(b.skip(1) =~= field + rest);
    assert((field + rest).skip(field.len() as int) =~= rest);
}

proof fn lemma_name_extension(host: Seq<u8>, after: Seq<u8>)
    requires
        host.len() + 5 < 0x1_0000,
    ensures
        host_in_extensions(name_extension(host) + after) == Some(host),
{
    let name = seq![NAME_TYPE_HOST] + (be16(host.len() as int) + (host + Seq::<u8>::empty()));
    let data = be16(name.len() as int) + (name + Seq::<u8>::empty());
    let b = name_extension(host) + after;
    assert(b =~= be16(EXT_SERVER_NAME as int) + (be16(data.len() as int) + (data + after)));
    lemma_be16(EXT_SERVER_NAME as int, be16(data.len() as int) + (data + after));
    lemma_u16_vec(data, after);
    lemma_u16_vec(name, Seq::empty());
    assert(name.skip(1) =~= be16(host.len() as int) + (host + Seq::<u8>::empty()));
    lemma_u16_vec(host, Seq::empty());
}

proof fn lemma_hello(
    opening: Seq<u8>,
    session: Seq<u8>,
    suites: Seq<u8>,
    compression: Seq<u8>,
    extensions: Seq<u8>,
)
    requires
        opening.len() == 34,
        session.len() < 256,
        suites.len() < 0x1_0000,
        compression.len() < 256,
        extensions.len() < 0x1_0000,
    ensures
        host_in_hello(hello_of(opening, session, suites, compression, extensions))
            == host_in_extensions(extensions),
{
    let none = Seq::<u8>::empty();
    assert(extensions + none =~= extensions);
    let r5 = be16(extensions.len() as int) + extensions;
    let r4 = seq![compression.len() as u8] + (compression + r5);
    let r3 = be16(suites.len() as int) + (suites + r4);
    let r2 = seq![session.len() as u8] + (session + r3);
    assert((opening + r2).skip(34) =~= r2);
    lemma_u8_vec(session, r3);
    lemma_u16_vec(suites, r4);
    lemma_u8_vec(compression, r5);
    lemma_u16_vec(extensions, none);
}

proof fn lemma_record(hello: Seq<u8>, version: Seq<u8>, length: Seq<u8>, trailing: Seq<u8>)
    requires
        version.len() == 2,
        length.len() == 3,
        hello.len() + 4 < 0x1_0000,
    ensures
        host_in_record(record_around(hello, version, length) + trailing) == host_in_hello(hello),
{
    let b = record_around(hello, version, length) + trailing;
    let n = hello.len() as int + 4;
    assert(b[3] == (n / 256) as u8);
    assert(b[4] == (n % 256) as u8);
    assert(b[3] * 256 + b[4] == n);
    let body = b.subrange(5, min_of(5 + b[3] * 256 + b[4], b.len() as int));
    assert(body[0] == HANDSHAKE_CLIENT_HELLO);
    assert(body.skip(4) =~= hello);
}

/// The host that a well-formed hello names is the one that is read out of it, in small letters,
/// whatever else the hello holds and whatever follows the extension or the record.
pub proof fn named_hosts_are_read(
    version: Seq<u8>,
    length: Seq<u8>,
    opening: Seq<u8>,
    session: Seq<u8>,
    suites: Seq<u8>,
    compression: Seq<u8>,
    host: Seq<u8>,
    after: Seq<u8>,
    trailing: Seq<u8>,
)
    requires
        version.len() == 2,
        length.len() == 3,
        opening.len() == 34,
        session.len() < 256,
        suites.len() < 0x1_0000,
        compression.len() < 256,
        hello_of(opening, session, suites, compression, name_extension(host) + after).len() + 4
            < 0x1_0000,
    ensures
        server_name_spec(
            record_around(
                hello_of(opening, session, suites, compression, name_extension(host) + after),
                version,
                length,
            ) + trailing,
        ) == host_text(host),
{
    let extensions = name_extension(host) + after;
    lemma_record(
        hello_of(opening, session, suites, compression, extensions),
        version,
        length,
        trailing,
    );
    lemma_hello(opening, session, suites, compression, extensions);
    lemma_name_extension(host, after);
}

/// An extension, or an entry in a list of names: its kind and what it holds.
pub struct Field {
    pub kind: int,
    pub data: Seq<u8>,
}

/// Extensions as they are written, one behind the other: the kind in two bytes, the length in two
/// bytes, and the data.
pub open spec fn extensions_of(fields: Seq<Field>) -> Seq<u8>
    decreases fields.len(),
{
    if fields.len() == 0 {
        Seq::empty()
    } else {
        be16(fields[0].kind) + be16(fields[0].data.len() as int) + fields[0].data + extensions_of(
            fields.skip(1),
        )
    }
}

/// Names as they are written: the kind in one byte, the length in two bytes, and the name.
pub open spec fn names_of(fields: Seq<Field>) -> Seq<u8>
    decreases fields.len(),
{
    if fields.len() == 0 {
        Seq::empty()
    } else {
        seq![fields[0].kind as u8] + be16(fields[0].data.len() as int) + fields[0].data + names_of(
            fields.skip(1),
        )
    }
}

/// A field of another kind than the one that is looked for.
pub open spec fn passed_over(field: Field, limit: int) -> bool {
    0 < field.kind < limit && field.data.len() < 0x1_0000
}

proof fn lemma_extensions_passed(fields: Seq<Field>, rest: Seq<u8>)
    requires
        forall|i: int| 0 <= i < fields.len() ==> passed_over(#[trigger] fields[i], 0x1_0000),
    ensures
        host_in_extensions(extensions_of(fields) + rest) == host_in_extensions(rest),
    decreases fields.len(),
{
    if fields.len() > 0 {
        let f = fields[0];
        let more = extensions_of(fields.skip(1)) + rest;
        assert(passed_over(fields[0], 0x1_0000));
        assert forall|i: int| 0 <= i < fields.skip(1).len() implies passed_over(
            #[trigger] fields.skip(1)[i],
            0x1_0000,
        ) by {
            assert(fields.skip(1)[i] == fields[i + 1]);
        }
        lemma_extensions_passed(fields.skip(1), rest);
        let b = extensions_of(fields) + rest;
        assert(b =~= be16(f.kind) + (be16(f.data.len() as int) + (f.data + more)));
        lemma_be16(f.kind, be16(f.data.len() as int) + (f.data + more));
        lemma_u16_vec(f.data, more);
    } else {
        assert(extensions_of(fields) + rest =~= rest);
    }
}

proof fn lemma_names_passed(fields: Seq<Field>, rest: Seq<u8>)
    requires
        forall|i: int| 0 <= i < fields.len() ==> passed_over(#[trigger] fields[i], 0x100),
    ensures
        host_in_names(names_of(fields) + rest) == host_in_names(rest),
    decreases fields.len(),
{
    if fields.len() > 0 {
        let f = fields[0];
        let more = names_of(fields.skip(1)) + rest;
        assert(passed_over(fields[0], 0x100));
        assert forall|i: int| 0 <= i < fields.skip(1).len() implies passed_over(
            #[trigger] fields.skip(1)[i],
            0x100,
        ) by {
            assert(fields.skip(1)[i] == fields[i + 1]);
        }
        lemma_names_passed(fields.skip(1), rest);
        let b = names_of(fields) + rest;
        assert(b =~= seq![f.kind as u8] + (be16(f.data.len() as int) + (f.data + more)));
        assert(b.skip(1) =~= be16(f.data.len() as int) + (f.data + more));
        lemma_u16_vec(f.data, more);
    } else {
        assert(names_of(fields) + rest =~= rest);
    }
}

/// A `server_name` extension that lists other names, then a host, then anything.
pub open spec fn listing_extension(others: Seq<Field>, host: Seq<u8>, more: Seq<u8>) -> Seq<u8> {
    let list = names_of(others) + seq![0u8] + be16(host.len() as int) + host + more;
    be16(0) + be16(list.len() as int + 2) + be16(list.len() as int) + list
}

proof fn lemma_listing_extension(
    others: Seq<Field>,
    host: Seq<u8>,
    more: Seq<u8>,
    after: Seq<u8>,
)
    requires
        forall|i: int| 0 <= i < others.len() ==> passed_over(#[trigger] others[i], 0x100),
        names_of(others).len() + host.len() + more.len() + 5 < 0x1_0000,
    ensures
        host_in_extensions(listing_extension(others, host, more) + after) == Some(host),
{
    let none = Seq::<u8>::empty();
    let own = seq![0u8] + (be16(host.len() as int) + (host + more));
    let list = names_of(others) + seq![0u8] + be16(host.len() as int) + host + more;
    assert(list =~= names_of(others) + own);
    let data = be16(list.len() as int) + (list + none);
    let b = listing_extension(others, host, more) + after;
    assert(b =~= be16(0) + (be16(data.len() as int) + (data + after)));
    lemma_be16(0, be16(data.len() as int) + (data + after));
    lemma_u16_vec(data, after);
    lemma_u16_vec(list, none);
    lemma_names_passed(others, own);
    assert(own.skip(1) =~= be16(host.len() as int) + (host + more));
    lemma_u16_vec(host, more);
}

/// The host that a well-formed hello names is read out of it wherever it stands: behind extensions
/// of other kinds, behind names of other kinds, and whatever follows. It comes out in small
/// letters, and not at all where it is empty or holds anything but ASCII.
#[verifier::spinoff_prover]
#[verifier::rlimit(40)]
pub proof fn hosts_are_found_behind_other_extensions(
    version: Seq<u8>,
    length: Seq<u8>,
    opening: Seq<u8>,
    session: Seq<u8>,
    suites: Seq<u8>,
    compression: Seq<u8>,
    before: Seq<Field>,
    others: Seq<Field>,
    host: Seq<u8>,
    more: Seq<u8>,
    after: Seq<u8>,
    trailing: Seq<u8>,
)
    requires
        version.len() == 2,
        length.len() == 3,
        opening.len() == 34,
        session.len() < 256,
        suites.len() < 0x1_0000,
        compression.len() < 256,
        forall|i: int| 0 <= i < before.len() ==> passed_over(#[trigger] before[i], 0x1_0000),
        forall|i: int| 0 <= i < others.len() ==> passed_over(#[trigger] others[i], 0x100),
        hello_of(
            opening,
            session,
            suites,
            compression,
            extensions_of(before) + listing_extension(others, host, more) + after,
        ).len() + 4 < 0x1_0000,
    ensures
        ({
            let extensions = extensions_of(before) + listing_extension(others, host, more) + after;
            let hello = hello_of(opening, session, suites, compression, extensions);
            let name = server_name_spec(record_around(hello, version, length) + trailing);
            &&& name is Some <==> host.len() > 0 && forall|i: int|
                0 <= i < host.len() ==> #[trigger] host[i] < 0x80
            &&& name matches Some(s) ==> s.len() == host.len() && forall|i: int|
                0 <= i < host.len() ==> #[trigger] s[i] as int == (if 0x41 <= host[i] <= 0x5a {
                    host[i] + 0x20
                } else {
                    host[i] as int
                })
        }),
{
    let extensions = extensions_of(before) + listing_extension(others, host, more) + after;
    let hello = hello_of(opening, session, suites, compression, extensions);
    assert(extensions =~= extensions_of(before) + (listing_extension(others, host, more) + after));
    assert(extensions.len() < 0x1_0000 && names_of(others).len() + host.len() + more.len() + 5
        < 0x1_0000);
    lemma_record(hello, version, length, trailing);
    lemma_hello(opening, session, suites, compression, extensions);
    lemma_found_in_extensions(before, others, host, more, after);
    lemma_host_text(host);
}

proof fn lemma_found_in_extensions(
    before: Seq<Field>,
    others: Seq<Field>,
    host: Seq<u8>,
    more: Seq<u8>,
    after: Seq<u8>,
)
    requires
        forall|i: int| 0 <= i < before.len() ==> passed_over(#[trigger] before[i], 0x1_0000),
        forall|i: int| 0 <= i < others.len() ==> passed_over(#[trigger] others[i], 0x100),
        names_of(others).len() + host.len() + more.len() + 5 < 0x1_0000,
    ensures
        host_in_extensions(extensions_of(before) + (listing_extension(others, host, more) + after))
            == Some(host),
{
    lemma_extensions_passed(before, listing_extension(others, host, more) + after);
    lemma_listing_extension(others, host, more, after);
}

proof fn lemma_host_text(host: Seq<u8>)
    ensures
        host_text(host) is Some <==> host.len() > 0 && forall|i: int|
            0 <= i < host.len() ==> #[trigger] host[i] < 0x80,
        host_text(host) matches Some(s) ==> s.len() == host.len() && forall|i: int|
            0 <= i < host.len() ==> #[trigger] s[i] as int == (if 0x41 <= host[i] <= 0x5a {
                host[i] + 0x20
            } else {
                host[i] as int
            }),
{
    if let Some(s) = host_text(host) {
        assert forall|i: int| 0 <= i < host.len() implies #[trigger] s[i] as int == (if 0x41
            <= host[i] <= 0x5a {
            host[i] + 0x20
        } else {
            host[i] as int
        }) by {
            assert(host[i] < 0x80);
            assert(s[i] == text::lower_char(host[i] as char));
        }
    }
}

/// A hello without a `server_name` extension names no host, and neither does anything that is no
/// handshake record or no hello.
pub proof fn no_host_is_made_up(
    version: Seq<u8>,
    length: Seq<u8>,
    opening: Seq<u8>,
    session: Seq<u8>,
    suites: Seq<u8>,
    compression: Seq<u8>,
    fields: Seq<Field>,
    trailing: Seq<u8>,
    other: Seq<u8>,
)
    requires
        version.len() == 2,
        length.len() == 3,
        opening.len() == 34,
        session.len() < 256,
        suites.len() < 0x1_0000,
        compression.len() < 256,
        forall|i: int| 0 <= i < fields.len() ==> passed_over(#[trigger] fields[i], 0x1_0000),
        hello_of(opening, session, suites, compression, extensions_of(fields)).len() + 4
            < 0x1_0000,
        other.len() < 10 || other[0] != 0x16 || other[5] != 0x01,
    ensures
        server_name_spec(
            record_around(
                hello_of(opening, session, suites, compression, extensions_of(fields)),
                version,
                length,
            ) + trailing,
        ) is None,
        server_name_spec(other) is None,
{
    let extensions = extensions_of(fields);
    let hello = hello_of(opening, session, suites, compression, extensions);
    let none = Seq::<u8>::empty();
    lemma_record(hello, version, length, trailing);
    lemma_hello(opening, session, suites, compression, extensions);
    lemma_extensions_passed(fields, none);
    assert(extensions + none =~= extensions);
    assert(host_in_extensions(none) is None);
}

/// Only the record is read: what follows a whole one changes nothing about the name in it. Neither
/// does the version in its header, nor a length in it that reaches beyond what is there.
#[verifier::spinoff_prover]
#[verifier::rlimit(40)]
pub proof fn only_the_record_is_read(record: Seq<u8>, more: Seq<u8>, other: Seq<u8>)
    requires
        record.len() >= 5,
    ensures
        record.len() >= 5 + 256 * record[3] + record[4] ==> server_name_spec(record + more)
            == server_name_spec(record),
        other.len() == record.len() && other[0] == record[0] && other.skip(5) == record.skip(5)
            && record.len() <= 5 + 256 * record[3] + record[4] && record.len() <= 5 + 256 * other[3]
            + other[4] ==> server_name_spec(other) == server_name_spec(record),
{
    let n = 5 + 256 * record[3] + record[4];
    if record.len() >= n {
        let all = record + more;
        assert(all[0] == record[0] && all[3] == record[3] && all[4] == record[4]);
        assert(all.subrange(5, n) =~= record.subrange(5, n));
    }
    if other.len() == record.len() && other.skip(5) == record.skip(5) {
        let end = record.len() as int;
        assert(record.subrange(5, end) =~= record.skip(5));
        assert(other.subrange(5, end) =~= other.skip(5));
    }
}

} // verus!
