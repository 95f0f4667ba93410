//! Slice keys and the self-describing slice value.
//!
//! A slice carries everything that is needed to rebuild the object index, so the index is never
//! the only place that knows something. The checksum is compared on decode: a corrupt slice fails
//! to load rather than being served.
use crate::wire;
use crate::text;
use vstd::prelude::*;
use vstd::slice::{slice_subrange, slice_to_vec};
use vstd::string::*;
use vstd::utf8::*;

verus! {

/// Marks a well-formed slice. A mismatch means the bytes are not ours.
pub const MAGIC: u32 = 0x4341_4331;

/// Identifies an object: the first sixteen bytes of a BLAKE3 digest.
pub type ObjectId = [u8; 16];

/// What `blake3::hash` computes from its input: 32 bytes.
pub uninterp spec fn blake3_digest(input: Seq<u8>) -> Seq<u8>;

/// Calls `blake3::hash`, which depends on the input bytes alone.
#[verifier::external_body]
pub(crate) fn blake3_hash(input: &[u8]) -> (out: [u8; 32])
    ensures
        out@ == blake3_digest(input@),
{
    *blake3::hash(input).as_bytes()
}

/// What `xxhash_rust::xxh3::xxh3_64` computes from its input.
pub uninterp spec fn xxh3_checksum(input: Seq<u8>) -> u64;

/// Calls `xxhash_rust::xxh3::xxh3_64`, which depends on the input bytes alone.
#[verifier::external_body]
pub(crate) fn xxh3(input: &[u8]) -> (out: u64)
    ensures
        out == xxh3_checksum(input@),
{
    xxhash_rust::xxh3::xxh3_64(input)
}

/// The first sixteen bytes as an id.
pub(crate) fn leading_id(bytes: &[u8]) -> (out: ObjectId)
    requires
        bytes@.len() >= 16,
    ensures
        out@ == bytes@.take(16),
{
    let mut out: [u8; 16] = [0u8; 16];
    let mut i: usize = 0;
    while i < 16
        invariant
            i <= 16,
            bytes@.len() >= 16,
            forall|j: int| 0 <= j < i ==> out@[j] == bytes@[j],
        decreases 16 - i,
    {
        out[i] = bytes[i];
        i = i + 1;
    }
    assert(out@ =~= bytes@.take(16));
    out
}

/// Compute an object id from a fully-qualified key.
pub fn object_id(key: &str) -> (out: ObjectId)
    ensures
        out@ == blake3_digest(encode_utf8(key@)).take(16),
{
    let hash = blake3_hash(key.as_bytes());
    leading_id(hash.as_slice())
}

/// Why bytes are not a slice, or a slice cannot be written as bytes.
#[derive(Debug, Clone, PartialEq, Eq)]
pub enum CodeError {
    /// The bytes end too early.
    Short,
    MagicMismatch { found: u32 },
    /// A header string is not UTF-8.
    Parse { source: String },
    ChecksumMismatch { expected: u64, computed: u64 },
    /// A header string whose length does not fit in 32 bits.
    HeaderTooLong { len: usize },
    /// A payload whose length does not fit in 32 bits.
    PayloadTooLarge { len: usize },
}

/// A [`CodeError`] with its text taken as characters.
pub enum Flaw {
    Short,
    MagicMismatch { found: u32 },
    Parse { source: Seq<char> },
    ChecksumMismatch { expected: u64, computed: u64 },
    HeaderTooLong { len: usize },
    PayloadTooLarge { len: usize },
}

impl View for CodeError {
    type V = Flaw;

    open spec fn view(&self) -> Flaw {
        match self {
            CodeError::Short => Flaw::Short,
            CodeError::MagicMismatch { found } => Flaw::MagicMismatch { found: *found },
            CodeError::Parse { source } => Flaw::Parse { source: source@ },
            CodeError::ChecksumMismatch { expected, computed } => Flaw::ChecksumMismatch {
                expected: *expected,
                computed: *computed,
            },
            CodeError::HeaderTooLong { len } => Flaw::HeaderTooLong { len: *len },
            CodeError::PayloadTooLarge { len } => Flaw::PayloadTooLarge { len: *len },
        }
    }
}

impl CodeError {
    pub open spec fn message_spec(self) -> Seq<char> {
        match self {
            CodeError::Short => "failed to fill whole buffer"@,
            CodeError::MagicMismatch { found } => "slice magic mismatch: expected 0x43414331, found 0x"@
                + text::hexadecimal(found as nat),
            CodeError::Parse { source } => "header string is not utf-8: "@ + source@,
            CodeError::ChecksumMismatch { expected, computed } =>
            "slice checksum mismatch: expected 0x"@ + text::hexadecimal(expected as nat)
                + ", computed 0x"@ + text::hexadecimal(computed as nat),
            CodeError::HeaderTooLong { len } => "header string too long: "@ + text::decimal(
                len as nat,
            ) + " bytes"@,
            CodeError::PayloadTooLarge { len } => "slice payload too large: "@ + text::decimal(
                len as nat,
            ),
        }
    }

    /// The error in words.
    pub fn message(&self) -> (out: String)
        ensures
            out@ == self.message_spec(),
    {
        match self {
            CodeError::Short => "failed to fill whole buffer".to_owned(),
            CodeError::MagicMismatch { found } => {
                "slice magic mismatch: expected 0x43414331, found 0x".to_owned().concat(
                    text::hex_string(*found as u64).as_str(),
                )
            },
            CodeError::Parse { source } => {
                "header string is not utf-8: ".to_owned().concat(source.as_str())
            },
            CodeError::ChecksumMismatch { expected, computed } => {
                let mut out = "slice checksum mismatch: expected 0x".to_owned();
                out.append(text::hex_string(*expected).as_str());
                out.append(", computed 0x");
                out.append(text::hex_string(*computed).as_str());
                out
            },
            CodeError::HeaderTooLong { len } => {
                let mut out = "header string too long: ".to_owned();
                out.append(text::decimal_string(*len as u64).as_str());
                out.append(" bytes");
                out
            },
            CodeError::PayloadTooLarge { len } => {
                "slice payload too large: ".to_owned().concat(
                    text::decimal_string(*len as u64).as_str(),
                )
            },
        }
    }
}

/// Addresses one slice of one generation of one object.
#[derive(Debug, Clone, Copy, PartialEq, Eq, Hash, PartialOrd, Ord)]
pub struct SliceKey {
    pub object: ObjectId,
    /// Bumped when an object's validators change, which makes invalidation atomic: slices of an
    /// older generation simply become unreachable.
    pub generation: u32,
    pub index: u32,
}

/// The bytes of a slice key.
pub open spec fn key_bytes(key: SliceKey) -> Seq<u8> {
    key.object@ + wire::le_bytes(key.generation as nat, 4) + wire::le_bytes(key.index as nat, 4)
}

impl SliceKey {
    pub const ENCODED_LEN: usize = 16 + 4 + 4;

    pub fn new(object: ObjectId, generation: u32, index: u32) -> (out: Self)
        ensures
            out == (SliceKey { object, generation, index }),
    {
        Self { object, generation, index }
    }

    pub fn encode(&self) -> (out: Vec<u8>)
        ensures
            out@ == key_bytes(*self),
            out@.len() == Self::ENCODED_LEN,
    {
        let mut out: Vec<u8> = Vec::new();
        wire::put_bytes(&mut out, self.object.as_slice());
        wire::put_le(&mut out, self.generation as u64, 4);
        wire::put_le(&mut out, self.index as u64, 4);
        proof {
            wire::lemma_le_len(self.generation as nat, 4);
            wire::lemma_le_len(self.index as nat, 4);
        }
        assert(out@ =~= key_bytes(*self));
        out
    }

    /// Reads the key that the bytes start with.
    pub fn decode(bytes: &[u8]) -> (out: Result<Self, CodeError>)
        ensures
            bytes@.len() < Self::ENCODED_LEN ==> out == Err::<SliceKey, CodeError>(
                CodeError::Short,
            ),
            bytes@.len() >= Self::ENCODED_LEN ==> (out matches Ok(k) && key_bytes(k) == bytes@.take(
                Self::ENCODED_LEN as int,
            )),
    {
        if bytes.len() < Self::ENCODED_LEN {
            return Err(CodeError::Short);
        }
        proof {
            wire::lemma_le_limits();
            wire::lemma_le_writes_back(bytes@.subrange(16, 20));
            wire::lemma_le_writes_back(bytes@.subrange(20, 24));
        }
        let object = leading_id(bytes);
        let generation: u64 = wire::le_number(slice_subrange(bytes, 16, 20));
        let index: u64 = wire::le_number(slice_subrange(bytes, 20, 24));
        let key = SliceKey { object, generation: generation as u32, index: index as u32 };
        assert(key_bytes(key) =~= bytes@.take(24));
        Ok(key)
    }

    pub fn estimated_size(&self) -> (out: usize)
        ensures
            out == key_bytes(*self).len(),
    {
        proof {
            wire::lemma_le_len(self.generation as nat, 4);
            wire::lemma_le_len(self.index as nat, 4);
        }
        Self::ENCODED_LEN
    }
}

/// Two keys with the same bytes are the same key, so what [`SliceKey::decode`] reads out of what
/// [`SliceKey::encode`] wrote is the key that was written.
pub proof fn slice_keys_read_back(a: SliceKey, b: SliceKey)
    requires
        key_bytes(a) == key_bytes(b),
    ensures
        a == b,
{
    wire::lemma_le_limits();
    wire::lemma_le_reads_back(a.generation as nat, 4);
    wire::lemma_le_reads_back(b.generation as nat, 4);
    wire::lemma_le_reads_back(a.index as nat, 4);
    wire::lemma_le_reads_back(b.index as nat, 4);
    assert(a.object@ =~= key_bytes(a).subrange(0, 16));
    assert(b.object@ =~= key_bytes(b).subrange(0, 16));
    assert(wire::le_bytes(a.generation as nat, 4) =~= key_bytes(a).subrange(16, 20));
    assert(wire::le_bytes(b.generation as nat, 4) =~= key_bytes(b).subrange(16, 20));
    assert(wire::le_bytes(a.index as nat, 4) =~= key_bytes(a).subrange(20, 24));
    assert(wire::le_bytes(b.index as nat, 4) =~= key_bytes(b).subrange(20, 24));
    assert(a.object == b.object);
}

/// Everything a slice knows about the object it belongs to.
#[derive(Debug, PartialEq, Eq)]
pub struct SliceHeader {
    pub slice_size: u32,
    pub total_len: u64,
    pub generation: u32,
    pub etag: Option<String>,
    pub last_modified: Option<String>,
    pub content_type: Option<String>,
}

/// A [`SliceHeader`] with its strings taken as characters.
#[verifier::ext_equal]
pub struct Header {
    pub slice_size: u32,
    pub total_len: u64,
    pub generation: u32,
    pub etag: Option<Seq<char>>,
    pub last_modified: Option<Seq<char>>,
    pub content_type: Option<Seq<char>>,
}

impl View for SliceHeader {
    type V = Header;

    open spec fn view(&self) -> Header {
        Header {
            slice_size: self.slice_size,
            total_len: self.total_len,
            generation: self.generation,
            etag: wire::chars_in(self.etag),
            last_modified: wire::chars_in(self.last_modified),
            content_type: wire::chars_in(self.content_type),
        }
    }
}

pub(crate) fn clone_text(s: &Option<String>) -> (out: Option<String>)
    ensures
        wire::chars_in(out) == wire::chars_in(*s),
{
    match s {
        Some(v) => Some(v.clone()),
        None => None,
    }
}

impl Clone for SliceHeader {
    fn clone(&self) -> (out: Self)
        ensures
            out@ == self@,
    {
        SliceHeader {
            slice_size: self.slice_size,
            total_len: self.total_len,
            generation: self.generation,
            etag: clone_text(&self.etag),
            last_modified: clone_text(&self.last_modified),
            content_type: clone_text(&self.content_type),
        }
    }
}

/// The bytes of a slice header.
pub open spec fn header_bytes(h: Header) -> Seq<u8> {
    wire::le_bytes(h.slice_size as nat, 4) + wire::le_bytes(h.total_len as nat, 8) + wire::le_bytes(
        h.generation as nat,
        4,
    ) + wire::string_bytes(h.etag) + wire::string_bytes(h.last_modified) + wire::string_bytes(
        h.content_type,
    )
}

/// How many bytes a string takes, where there is one.
pub open spec fn text_len(s: Option<Seq<char>>) -> nat {
    match s {
        Some(c) => encode_utf8(c).len(),
        None => 0,
    }
}

/// The first of the header strings whose length does not fit in 32 bits.
pub open spec fn header_overflow(h: Header) -> Option<nat> {
    if text_len(h.etag) > u32::MAX {
        Some(text_len(h.etag))
    } else if text_len(h.last_modified) > u32::MAX {
        Some(text_len(h.last_modified))
    } else if text_len(h.content_type) > u32::MAX {
        Some(text_len(h.content_type))
    } else {
        None
    }
}

/// An optional string, once its bytes are known to be text.
pub open spec fn text_in(b: Seq<u8>) -> Result<(Option<Seq<char>>, Seq<u8>), Flaw> {
    match wire::string_in(b) {
        None => Err(Flaw::Short),
        Some((None, rest)) => Ok((None, rest)),
        Some((Some(u), rest)) => if valid_utf8(u) {
            Ok((Some(decode_utf8(u)), rest))
        } else {
            Err(Flaw::Parse { source: wire::utf8_fault(u) })
        },
    }
}

/// The header that some bytes start with, and what follows it.
pub open spec fn header_in(b: Seq<u8>) -> Result<(Header, Seq<u8>), Flaw> {
    match wire::number_in(b, 4) {
        None => Err(Flaw::Short),
        Some((slice_size, b)) => match wire::number_in(b, 8) {
            None => Err(Flaw::Short),
            Some((total_len, b)) => match wire::number_in(b, 4) {
                None => Err(Flaw::Short),
                Some((generation, b)) => match text_in(b) {
                    Err(e) => Err(e),
                    Ok((etag, b)) => match text_in(b) {
                        Err(e) => Err(e),
                        Ok((last_modified, b)) => match text_in(b) {
                            Err(e) => Err(e),
                            Ok((content_type, b)) => Ok(
                                (
                                    Header {
                                        slice_size: slice_size as u32,
                                        total_len: total_len as u64,
                                        generation: generation as u32,
                                        etag,
                                        last_modified,
                                        content_type,
                                    },
                                    b,
                                ),
                            ),
                        },
                    },
                },
            },
        },
    }
}

/// Appends an optional string whose length has to fit in 32 bits.
fn write_opt_str(out: &mut Vec<u8>, s: &Option<String>) -> (r: Result<(), CodeError>)
    ensures
        text_len(wire::chars_in(*s)) <= u32::MAX ==> r is Ok && final(out)@ == old(out)@
            + wire::string_bytes(wire::chars_in(*s)),
        text_len(wire::chars_in(*s)) > u32::MAX ==> (r matches Err(CodeError::HeaderTooLong { len })
            && len == text_len(wire::chars_in(*s))),
{
    match s {
        None => {
            wire::put_string(out, None);
            Ok(())
        },
        Some(v) => {
            let len: usize = v.as_str().as_bytes().len();
            if len as u64 > u32::MAX as u64 {
                return Err(CodeError::HeaderTooLong { len });
            }
            wire::put_string(out, Some(v.as_str()));
            Ok(())
        },
    }
}

fn read_opt_str(reader: &mut wire::Reader) -> (out: Result<Option<String>, CodeError>)
    requires
        old(reader).valid(),
    ensures
        final(reader).valid(),
        match text_in(old(reader).rest()) {
            Ok((s, rest)) => out matches Ok(o) && wire::chars_in(o) == s && final(reader).rest()
                == rest,
            Err(e) => out matches Err(x) && x@ == e,
        },
{
    match reader.string() {
        None => Err(CodeError::Short),
        Some(None) => Ok(None),
        Some(Some(bytes)) => match wire::utf8_string(slice_to_vec(bytes)) {
            Ok(s) => Ok(Some(s)),
            Err(source) => Err(CodeError::Parse { source }),
        },
    }
}

impl SliceHeader {
    fn encode(&self, out: &mut Vec<u8>) -> (r: Result<(), CodeError>)
        ensures
            match header_overflow(self@) {
                None => r is Ok && final(out)@ == old(out)@ + header_bytes(self@),
                Some(n) => r matches Err(CodeError::HeaderTooLong { len }) && len == n,
            },
    {
        wire::put_le(out, self.slice_size as u64, 4);
        wire::put_le(out, self.total_len, 8);
        wire::put_le(out, self.generation as u64, 4);
        match write_opt_str(out, &self.etag) {
            Ok(()) => {},
            Err(e) => return Err(e),
        }
        match write_opt_str(out, &self.last_modified) {
            Ok(()) => {},
            Err(e) => return Err(e),
        }
        match write_opt_str(out, &self.content_type) {
            Ok(()) => {},
            Err(e) => return Err(e),
        }
        assert(out@ =~= old(out)@ + header_bytes(self@));
        Ok(())
    }

    fn decode(reader: &mut wire::Reader) -> (out: Result<Self, CodeError>)
        requires
            old(reader).valid(),
        ensures
            final(reader).valid(),
            match header_in(old(reader).rest()) {
                Ok((h, rest)) => out matches Ok(o) && o@ == h && final(reader).rest() == rest,
                Err(e) => out matches Err(x) && x@ == e,
            },
    {
        proof {
            wire::lemma_le_limits();
        }
        let slice_size: u64 = match reader.number(4) {
            Some(n) => n,
            None => return Err(CodeError::Short),
        };
        let total_len: u64 = match reader.number(8) {
            Some(n) => n,
            None => return Err(CodeError::Short),
        };
        let generation: u64 = match reader.number(4) {
            Some(n) => n,
            None => return Err(CodeError::Short),
        };
        let etag = match read_opt_str(reader) {
            Ok(s) => s,
            Err(e) => return Err(e),
        };
        let last_modified = match read_opt_str(reader) {
            Ok(s) => s,
            Err(e) => return Err(e),
        };
        let content_type = match read_opt_str(reader) {
            Ok(s) => s,
            Err(e) => return Err(e),
        };
        Ok(
            SliceHeader {
                slice_size: slice_size as u32,
                total_len,
                generation: generation as u32,
                etag,
                last_modified,
                content_type,
            },
        )
    }

    /// How many bytes the header takes.
    pub fn encoded_len(&self) -> (out: usize)
        requires
            header_bytes(self@).len() <= usize::MAX,
        ensures
            out == header_bytes(self@).len(),
    {
        proof {
            lemma_header_len(self@);
        }
        4 + 8 + 4 + opt_str_len(&self.etag) + opt_str_len(&self.last_modified) + opt_str_len(
            &self.content_type,
        )
    }
}

proof fn lemma_header_len(h: Header)
    ensures
        header_bytes(h).len() == 28 + text_len(h.etag) + text_len(h.last_modified) + text_len(
            h.content_type,
        ),
{
    reveal(wire::string_bytes);
    wire::lemma_le_len(h.slice_size as nat, 4);
    wire::lemma_le_len(h.total_len as nat, 8);
    wire::lemma_le_len(h.generation as nat, 4);
    wire::lemma_le_len(u32::MAX as nat, 4);
    wire::lemma_le_len(text_len(h.etag), 4);
    wire::lemma_le_len(text_len(h.last_modified), 4);
    wire::lemma_le_len(text_len(h.content_type), 4);
}

fn opt_str_len(s: &Option<String>) -> (out: usize)
    requires
        4 + text_len(wire::chars_in(*s)) <= usize::MAX,
    ensures
        out == 4 + text_len(wire::chars_in(*s)),
{
    match s {
        Some(v) => 4 + v.as_str().as_bytes().len(),
        None => 4,
    }
}

/// A stored slice: its self-describing header plus the payload bytes.
#[derive(Debug, PartialEq, Eq)]
pub struct SliceValue {
    pub header: SliceHeader,
    pub payload: Vec<u8>,
}

/// A [`SliceValue`] with its strings taken as characters.
#[verifier::ext_equal]
pub struct Slice {
    pub header: Header,
    pub payload: Seq<u8>,
}

impl View for SliceValue {
    type V = Slice;

    open spec fn view(&self) -> Slice {
        Slice { header: self.header@, payload: self.payload@ }
    }
}

impl Clone for SliceValue {
    fn clone(&self) -> (out: Self)
        ensures
            out@ == self@,
    {
        SliceValue {
            header: self.header.clone(),
            payload: slice_to_vec(self.payload.as_slice()),
        }
    }
}

/// The bytes of a slice: the mark, the header, the checksum of the payload, its length, and the
/// payload itself.
pub open spec fn value_bytes(v: Slice) -> Seq<u8> {
    wire::le_bytes(MAGIC as nat, 4) + header_bytes(v.header) + wire::le_bytes(
        xxh3_checksum(v.payload) as nat,
        8,
    ) + wire::le_bytes(v.payload.len(), 4) + v.payload
}

/// The slice that some bytes start with, or what is wrong with them.
pub open spec fn value_in(b: Seq<u8>) -> Result<(Slice, Seq<u8>), Flaw> {
    match wire::number_in(b, 4) {
        None => Err(Flaw::Short),
        Some((magic, b)) => if magic != MAGIC {
            Err(Flaw::MagicMismatch { found: magic as u32 })
        } else {
            match header_in(b) {
                Err(e) => Err(e),
                Ok((header, b)) => match wire::number_in(b, 8) {
                    None => Err(Flaw::Short),
                    Some((expected, b)) => match wire::number_in(b, 4) {
                        None => Err(Flaw::Short),
                        Some((len, b)) => match wire::taken(b, len as int) {
                            None => Err(Flaw::Short),
                            Some((payload, b)) => if xxh3_checksum(payload) == expected {
                                Ok((Slice { header, payload }, b))
                            } else {
                                Err(
                                    Flaw::ChecksumMismatch {
                                        expected: expected as u64,
                                        computed: xxh3_checksum(payload),
                                    },
                                )
                            },
                        },
                    },
                },
            }
        },
    }
}

impl SliceValue {
    pub fn new(header: SliceHeader, payload: Vec<u8>) -> (out: Self)
        ensures
            out == (SliceValue { header, payload }),
    {
        Self { header, payload }
    }

    /// The slice as bytes. A header string is looked at before the payload is.
    pub fn encode(&self) -> (out: Result<Vec<u8>, CodeError>)
        ensures
            match header_overflow(self.header@) {
                Some(n) => out matches Err(CodeError::HeaderTooLong { len }) && len == n,
                None => if self.payload@.len() > u32::MAX {
                    out matches Err(CodeError::PayloadTooLarge { len }) && len == self.payload@.len()
                } else {
                    out matches Ok(bytes) && bytes@ == value_bytes(self@)
                },
            },
    {
        let mut out: Vec<u8> = Vec::new();
        wire::put_le(&mut out, MAGIC as u64, 4);
        match self.header.encode(&mut out) {
            Ok(()) => {},
            Err(e) => return Err(e),
        }
        let checksum: u64 = xxh3(self.payload.as_slice());
        wire::put_le(&mut out, checksum, 8);
        let len: usize = self.payload.len();
        if len as u64 > u32::MAX as u64 {
            return Err(CodeError::PayloadTooLarge { len });
        }
        wire::put_le(&mut out, len as u64, 4);
        wire::put_bytes(&mut out, self.payload.as_slice());
        assert(out@ =~= value_bytes(self@));
        Ok(out)
    }

    /// Reads the slice that the bytes start with. The payload is handed out only where its
    /// checksum is the one stored beside it.
    pub fn decode(bytes: &[u8]) -> (out: Result<Self, CodeError>)
        ensures
            match value_in(bytes@) {
                Ok((v, rest)) => out matches Ok(o) && o@ == v,
                Err(e) => out matches Err(x) && x@ == e,
            },
    {
        proof {
            wire::lemma_le_limits();
        }
        let mut reader = wire::Reader::new(bytes);
        let magic: u64 = match reader.number(4) {
            Some(n) => n,
            None => return Err(CodeError::Short),
        };
        if magic != MAGIC as u64 {
            return Err(CodeError::MagicMismatch { found: magic as u32 });
        }
        let header = match SliceHeader::decode(&mut reader) {
            Ok(h) => h,
            Err(e) => return Err(e),
        };
        let expected: u64 = match reader.number(8) {
            Some(n) => n,
            None => return Err(CodeError::Short),
        };
        let len: u64 = match reader.number(4) {
            Some(n) => n,
            None => return Err(CodeError::Short),
        };
        let payload = match reader.take(len as usize) {
            Some(s) => s,
            None => return Err(CodeError::Short),
        };
        let computed: u64 = xxh3(payload);
        if computed != expected {
            return Err(CodeError::ChecksumMismatch { expected, computed });
        }
        Ok(SliceValue { header, payload: slice_to_vec(payload) })
    }

    /// How many bytes the slice takes once it is encoded.
    pub fn estimated_size(&self) -> (out: usize)
        requires
            value_bytes(self@).len() <= usize::MAX,
        ensures
            out == value_bytes(self@).len(),
    {
        proof {
            lemma_value_len(self@);
        }
        4 + self.header.encoded_len() + 8 + 4 + self.payload.len()
    }
}

proof fn lemma_value_len(v: Slice)
    ensures
        value_bytes(v).len() == 16 + header_bytes(v.header).len() + v.payload.len(),
{
    wire::lemma_le_len(MAGIC as nat, 4);
    wire::lemma_le_len(xxh3_checksum(v.payload) as nat, 8);
    wire::lemma_le_len(v.payload.len(), 4);
}

/// A slice whose every length can be told apart from the mark of an absent string.
pub open spec fn encodable(v: Slice) -> bool {
    &&& wire::storable(v.header.etag)
    &&& wire::storable(v.header.last_modified)
    &&& wire::storable(v.header.content_type)
    &&& v.payload.len() <= u32::MAX
}

/// Six parts and what follows them, grouped from the right.
pub(crate) proof fn lemma_grouped(
    a: Seq<u8>,
    b: Seq<u8>,
    c: Seq<u8>,
    d: Seq<u8>,
    e: Seq<u8>,
    f: Seq<u8>,
    rest: Seq<u8>,
)
    ensures
        (a + b + c + d + e + f) + rest == a + (b + (c + (d + (e + (f + rest))))),
{
    assert((a + b + c + d + e + f) + rest =~= a + (b + (c + (d + (e + (f + rest))))));
}

/// Five parts and what follows them, grouped from the right.
pub(crate) proof fn lemma_grouped_five(
    a: Seq<u8>,
    b: Seq<u8>,
    c: Seq<u8>,
    d: Seq<u8>,
    e: Seq<u8>,
    rest: Seq<u8>,
)
    ensures
        (a + b + c + d + e) + rest == a + (b + (c + (d + (e + rest)))),
{
    assert((a + b + c + d + e) + rest =~= a + (b + (c + (d + (e + rest)))));
}

pub(crate) proof fn lemma_number_reads_back(n: nat, width: nat, rest: Seq<u8>)
    requires
        n < wire::le_limit(width),
    ensures
        wire::number_in(wire::le_bytes(n, width) + rest, width as int) == Some((n, rest)),
{
    wire::lemma_le_reads_back(n, width);
    let b = wire::le_bytes(n, width) + rest;
    assert(b.take(width as int) =~= wire::le_bytes(n, width));
    assert(b.skip(width as int) =~= rest);
}

proof fn lemma_number_writes_back(b: Seq<u8>, width: nat)
    requires
        width <= b.len(),
    ensures
        wire::number_in(b, width as int) matches Some((n, rest)) && n < wire::le_limit(width) && b
            == wire::le_bytes(n, width) + rest,
{
    wire::lemma_le_writes_back(b.take(width as int));
    assert(b =~= b.take(width as int) + b.skip(width as int));
}

proof fn lemma_text_reads_back(s: Option<Seq<char>>, rest: Seq<u8>)
    requires
        wire::storable(s),
    ensures
        text_in(wire::string_bytes(s) + rest) == Ok::<(Option<Seq<char>>, Seq<u8>), Flaw>(
            (s, rest),
        ),
{
    wire::lemma_string_reads_back(s, rest);
    if let Some(c) = s {
        encode_utf8_valid_utf8(c);
        encode_utf8_decode_utf8(c);
    }
}

proof fn lemma_header_reads_back(h: Header, rest: Seq<u8>)
    requires
        wire::storable(h.etag),
        wire::storable(h.last_modified),
        wire::storable(h.content_type),
    ensures
        header_in(header_bytes(h) + rest) == Ok::<(Header, Seq<u8>), Flaw>((h, rest)),
{
    wire::lemma_le_limits();
    let r6 = rest;
    let r5 = wire::string_bytes(h.content_type) + r6;
    let r4 = wire::string_bytes(h.last_modified) + r5;
    let r3 = wire::string_bytes(h.etag) + r4;
    let r2 = wire::le_bytes(h.generation as nat, 4) + r3;
    let r1 = wire::le_bytes(h.total_len as nat, 8) + r2;
    let r0 = wire::le_bytes(h.slice_size as nat, 4) + r1;
    lemma_grouped(
        wire::le_bytes(h.slice_size as nat, 4),
        wire::le_bytes(h.total_len as nat, 8),
        wire::le_bytes(h.generation as nat, 4),
        wire::string_bytes(h.etag),
        wire::string_bytes(h.last_modified),
        wire::string_bytes(h.content_type),
        rest,
    );
    assert(header_bytes(h) + rest == r0);
    lemma_number_reads_back(h.slice_size as nat, 4, r1);
    lemma_number_reads_back(h.total_len as nat, 8, r2);
    lemma_number_reads_back(h.generation as nat, 4, r3);
    lemma_text_reads_back(h.etag, r4);
    lemma_text_reads_back(h.last_modified, r5);
    lemma_text_reads_back(h.content_type, r6);
}

proof fn lemma_header_writes_back(b: Seq<u8>)
    requires
        header_in(b) is Ok,
    ensures
        ({
            let (h, rest) = header_in(b)->Ok_0;
            &&& b == header_bytes(h) + rest
            &&& wire::storable(h.etag)
            &&& wire::storable(h.last_modified)
            &&& wire::storable(h.content_type)
        }),
{
    wire::lemma_le_limits();
    let (h, rest) = header_in(b)->Ok_0;
    lemma_number_writes_back(b, 4);
    let r1 = (wire::number_in(b, 4)->0).1;
    lemma_number_writes_back(r1, 8);
    let r2 = (wire::number_in(r1, 8)->0).1;
    lemma_number_writes_back(r2, 4);
    let r3 = (wire::number_in(r2, 4)->0).1;
    wire::lemma_string_writes_back(r3);
    let r4 = (wire::string_in(r3)->0).1;
    wire::lemma_string_writes_back(r4);
    let r5 = (wire::string_in(r4)->0).1;
    wire::lemma_string_writes_back(r5);
    lemma_grouped(
        wire::le_bytes(h.slice_size as nat, 4),
        wire::le_bytes(h.total_len as nat, 8),
        wire::le_bytes(h.generation as nat, 4),
        wire::string_bytes(h.etag),
        wire::string_bytes(h.last_modified),
        wire::string_bytes(h.content_type),
        rest,
    );
}

/// What [`SliceValue::encode`] writes, [`SliceValue::decode`] reads back as the same slice,
/// whatever follows it.
pub proof fn slices_read_back(v: Slice, rest: Seq<u8>)
    requires
        encodable(v),
    ensures
        value_in(value_bytes(v) + rest) == Ok::<(Slice, Seq<u8>), Flaw>((v, rest)),
{
    wire::lemma_le_limits();
    let r4 = v.payload + rest;
    let r3 = wire::le_bytes(v.payload.len(), 4) + r4;
    let r2 = wire::le_bytes(xxh3_checksum(v.payload) as nat, 8) + r3;
    let r1 = header_bytes(v.header) + r2;
    let r0 = wire::le_bytes(MAGIC as nat, 4) + r1;
    lemma_grouped_five(
        wire::le_bytes(MAGIC as nat, 4),
        header_bytes(v.header),
        wire::le_bytes(xxh3_checksum(v.payload) as nat, 8),
        wire::le_bytes(v.payload.len(), 4),
        v.payload,
        rest,
    );
    assert(value_bytes(v) + rest == r0);
    lemma_number_reads_back(MAGIC as nat, 4, r1);
    lemma_header_reads_back(v.header, r2);
    lemma_number_reads_back(xxh3_checksum(v.payload) as nat, 8, r3);
    lemma_number_reads_back(v.payload.len(), 4, r4);
    assert(r4.take(v.payload.len() as int) =~= v.payload);
    assert(r4.skip(v.payload.len() as int) =~= rest);
}

/// Whatever [`SliceValue::decode`] accepts is exactly what [`SliceValue::encode`] writes for the
/// slice it hands out: no other bytes are ever taken for a slice.
pub proof fn only_encoded_slices_are_read(b: Seq<u8>)
    requires
        value_in(b) is Ok,
    ensures
        encodable((value_in(b)->Ok_0).0),
        b == value_bytes((value_in(b)->Ok_0).0) + (value_in(b)->Ok_0).1,
{
    wire::lemma_le_limits();
    let (v, rest) = value_in(b)->Ok_0;
    lemma_number_writes_back(b, 4);
    let r1 = (wire::number_in(b, 4)->0).1;
    lemma_header_writes_back(r1);
    let r2 = (header_in(r1)->Ok_0).1;
    lemma_number_writes_back(r2, 8);
    let r3 = (wire::number_in(r2, 8)->0).1;
    lemma_number_writes_back(r3, 4);
    let r4 = (wire::number_in(r3, 4)->0).1;
    assert(r4 =~= v.payload + rest);
    lemma_grouped_five(
        wire::le_bytes(MAGIC as nat, 4),
        header_bytes(v.header),
        wire::le_bytes(xxh3_checksum(v.payload) as nat, 8),
        wire::le_bytes(v.payload.len(), 4),
        v.payload,
        rest,
    );
}

/// A slice that was cut off anywhere, as by a torn write, does not decode.
pub proof fn torn_slices_are_refused(v: Slice, len: int)
    requires
        encodable(v),
        0 <= len < value_bytes(v).len(),
    ensures
        value_in(value_bytes(v).take(len)) is Err,
{
    let b = value_bytes(v).take(len);
    if value_in(b) is Ok {
        let (w, rest) = value_in(b)->Ok_0;
        only_encoded_slices_are_read(b);
        let tail = value_bytes(v).skip(len);
        let (x, y) = (value_bytes(v), value_bytes(w));
        assert(x.take(len) == y + rest);
        assert(x =~= x.take(len) + tail);
        assert((y + rest) + tail =~= y + (rest + tail));
        assert(x == y + (rest + tail));
        slices_read_back(w, rest + tail);
        slices_read_back(v, Seq::empty());
        assert(value_bytes(v) + Seq::<u8>::empty() =~= value_bytes(v));
        assert(v == w);
        assert(b.len() == value_bytes(v).len() + rest.len());
    }
}

/// A changed payload does not decode, unless the change keeps the checksum.
pub proof fn corrupt_payloads_are_refused(v: Slice, payload: Seq<u8>)
    requires
        encodable(v),
        payload.len() == v.payload.len(),
        xxh3_checksum(payload) != xxh3_checksum(v.payload),
    ensures
        value_in(
            value_bytes(v).take(value_bytes(v).len() - v.payload.len()) + payload,
        ) == Err::<(Slice, Seq<u8>), Flaw>(
            Flaw::ChecksumMismatch {
                expected: xxh3_checksum(v.payload),
                computed: xxh3_checksum(payload),
            },
        ),
{
    wire::lemma_le_limits();
    lemma_value_len(v);
    let b = value_bytes(v).take(value_bytes(v).len() - v.payload.len()) + payload;
    let r3 = wire::le_bytes(v.payload.len(), 4) + payload;
    let r2 = wire::le_bytes(xxh3_checksum(v.payload) as nat, 8) + r3;
    let r1 = header_bytes(v.header) + r2;
    let r0 = wire::le_bytes(MAGIC as nat, 4) + r1;
    assert(b =~= r0);
    lemma_number_reads_back(MAGIC as nat, 4, r1);
    lemma_header_reads_back(v.header, r2);
    lemma_number_reads_back(xxh3_checksum(v.payload) as nat, 8, r3);
    lemma_number_reads_back(v.payload.len(), 4, payload);
    assert(payload.take(v.payload.len() as int) =~= payload);
}

/// Where the parts of a key stand in its bytes: the object first, then the generation, then the
/// index.
pub proof fn keys_start_with_their_object(key: SliceKey)
    ensures
        key_bytes(key).len() == 24,
        key_bytes(key).subrange(0, 16) == key.object@,
        key_bytes(key).subrange(16, 20) == wire::le_bytes(key.generation as nat, 4),
        key_bytes(key).subrange(20, 24) == wire::le_bytes(key.index as nat, 4),
{
    wire::lemma_le_len(key.generation as nat, 4);
    wire::lemma_le_len(key.index as nat, 4);
    assert(key_bytes(key).subrange(0, 16) =~= key.object@);
    assert(key_bytes(key).subrange(16, 20) =~= wire::le_bytes(key.generation as nat, 4));
    assert(key_bytes(key).subrange(20, 24) =~= wire::le_bytes(key.index as nat, 4));
}

/// Where the parts of a slice stand in its bytes: the mark of the format first, then the sizes and
/// the generation, and at the end the payload behind its length and its checksum.
pub proof fn slices_are_laid_out_in_order(v: Slice)
    ensures
        ({
            let b = value_bytes(v);
            let n = b.len() - v.payload.len();
            &&& b.len() >= 32 + v.payload.len()
            &&& b.subrange(0, 4) == seq![0x31u8, 0x43, 0x41, 0x43]
            &&& b.subrange(4, 8) == wire::le_bytes(v.header.slice_size as nat, 4)
            &&& b.subrange(8, 16) == wire::le_bytes(v.header.total_len as nat, 8)
            &&& b.subrange(16, 20) == wire::le_bytes(v.header.generation as nat, 4)
            &&& b.subrange(20, n - 12) == wire::string_bytes(v.header.etag) + wire::string_bytes(
                v.header.last_modified,
            ) + wire::string_bytes(v.header.content_type)
            &&& b.subrange(n - 12, n - 4) == wire::le_bytes(xxh3_checksum(v.payload) as nat, 8)
            &&& b.subrange(n - 4, n) == wire::le_bytes(v.payload.len(), 4)
            &&& b.skip(n) == v.payload
        }),
{
    wire::lemma_le_len(MAGIC as nat, 4);
    wire::lemma_le_len(v.header.slice_size as nat, 4);
    wire::lemma_le_len(v.header.total_len as nat, 8);
    wire::lemma_le_len(v.header.generation as nat, 4);
    wire::lemma_le_len(xxh3_checksum(v.payload) as nat, 8);
    wire::lemma_le_len(v.payload.len(), 4);
    lemma_mark();
    let b = value_bytes(v);
    let n = b.len() - v.payload.len();
    let strings = wire::string_bytes(v.header.etag) + wire::string_bytes(v.header.last_modified)
        + wire::string_bytes(v.header.content_type);
    assert(b.subrange(0, 4) =~= wire::le_bytes(MAGIC as nat, 4));
    assert(b.subrange(4, 8) =~= wire::le_bytes(v.header.slice_size as nat, 4));
    assert(b.subrange(8, 16) =~= wire::le_bytes(v.header.total_len as nat, 8));
    assert(b.subrange(16, 20) =~= wire::le_bytes(v.header.generation as nat, 4));
    assert(b.subrange(20, n - 12) =~= strings);
    assert(b.subrange(n - 12, n - 4) =~= wire::le_bytes(xxh3_checksum(v.payload) as nat, 8));
    assert(b.subrange(n - 4, n) =~= wire::le_bytes(v.payload.len(), 4));
    assert(b.skip(n) =~= v.payload);
}

proof fn lemma_mark()
    ensures
        wire::le_bytes(MAGIC as nat, 4) == seq![0x31u8, 0x43, 0x41, 0x43],
{
    reveal_with_fuel(wire::le_bytes, 5);
    assert(wire::le_bytes(MAGIC as nat, 4) =~= seq![0x31u8, 0x43, 0x41, 0x43]);
}

/// Everything that a slice holds is part of what is stored of it.
pub proof fn nothing_of_a_slice_is_left_out(v: SliceValue)
    ensures
        v@.payload == v.payload@,
        v@.header == v.header@,
        v.header@.slice_size == v.header.slice_size,
        v.header@.total_len == v.header.total_len,
        v.header@.generation == v.header.generation,
        v.header.etag matches Some(t) ==> v.header@.etag == Some(t@),
        v.header.etag is None ==> v.header@.etag is None,
        v.header.last_modified matches Some(t) ==> v.header@.last_modified == Some(t@),
        v.header.last_modified is None ==> v.header@.last_modified is None,
        v.header.content_type matches Some(t) ==> v.header@.content_type == Some(t@),
        v.header.content_type is None ==> v.header@.content_type is None,
{
}

/// A header can be written where each of its strings has a length that fits in 32 bits; otherwise
/// the length of the first that has not is reported.
pub proof fn long_strings_are_refused(h: Header)
    ensures
        ({
            let fits = |s: Option<Seq<char>>|
                s matches Some(c) ==> encode_utf8(c).len() <= u32::MAX;
            &&& header_overflow(h) is None <==> fits(h.etag) && fits(h.last_modified) && fits(
                h.content_type,
            )
            &&& !fits(h.etag) ==> header_overflow(h) == Some(encode_utf8(h.etag->0).len())
            &&& fits(h.etag) && !fits(h.last_modified) ==> header_overflow(h) == Some(
                encode_utf8(h.last_modified->0).len(),
            )
            &&& fits(h.etag) && fits(h.last_modified) && !fits(h.content_type) ==> header_overflow(h)
                == Some(encode_utf8(h.content_type->0).len())
        }),
{
}

} // verus!
