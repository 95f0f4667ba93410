//! Deterministic object content.
//!
//! Every byte of every mock object is a function of its seed and its offset. So any byte range can
//! be checked without keeping a copy of an object of many gigabytes.
use crate::wire;
use vstd::prelude::*;
use vstd::utf8::*;

verus! {

/// What the generator advances by.
pub const MIX: u64 = 0x9E37_79B9_7F4A_7C15;

/// The output function of the SplitMix64 generator, for a state.
pub open spec fn mixed(state: u64) -> u64 {
    let a = state.wrapping_add(MIX);
    let b = (a ^ (a >> 30)).wrapping_mul(0xBF58_476D_1CE4_E5B9);
    let c = (b ^ (b >> 27)).wrapping_mul(0x94D0_49BB_1331_11EB);
    c ^ (c >> 31)
}

pub fn splitmix64(state: u64) -> (out: u64)
    ensures
        out == mixed(state),
{
    let a: u64 = state.wrapping_add(MIX);
    let b: u64 = (a ^ (a >> 30)).wrapping_mul(0xBF58_476D_1CE4_E5B9);
    let c: u64 = (b ^ (b >> 27)).wrapping_mul(0x94D0_49BB_1331_11EB);
    c ^ (c >> 31)
}

/// A block of eight bytes of an object.
pub open spec fn block(seed: u64, index: u64) -> Seq<u8> {
    wire::le_bytes(mixed(seed ^ index.wrapping_mul(MIX)) as nat, 8)
}

/// The byte of an object at an offset.
pub open spec fn byte_at(seed: u64, offset: int) -> u8 {
    block(seed, (offset / 8) as u64)[offset % 8]
}

/// The bytes of an object from an offset on.
pub open spec fn content(seed: u64, offset: int, len: nat) -> Seq<u8> {
    Seq::new(len, |i: int| byte_at(seed, offset + i))
}

fn block_at(seed: u64, index: u64) -> (out: Vec<u8>)
    ensures
        out@ == block(seed, index),
        out@.len() == 8,
{
    let mut out: Vec<u8> = Vec::new();
    let word: u64 = splitmix64(seed ^ index.wrapping_mul(MIX));
    wire::put_le(&mut out, word, 8);
    proof {
        wire::lemma_le_len(word as nat, 8);
    }
    assert(out@ =~= block(seed, index));
    out
}

/// Fill `buf` with the object's content starting at `offset`.
pub fn fill(seed: u64, offset: u64, buf: &mut [u8])
    requires
        offset + old(buf)@.len() <= u64::MAX,
    ensures
        final(buf)@ == content(seed, offset as int, old(buf)@.len()),
{
    let n: usize = buf.len();
    let mut written: usize = 0;
    while written < n
        invariant
            n == buf@.len(),
            n == old(buf)@.len(),
            written <= n,
            offset + n <= u64::MAX,
            forall|i: int| 0 <= i < written ==> buf@[i] == byte_at(seed, offset + i),
        decreases n - written,
    {
        let pos: u64 = offset + written as u64;
        let within: usize = (pos % 8) as usize;
        let bytes = block_at(seed, pos / 8);
        let start: usize = written;
        let count: usize = if 8 - within < n - start {
            8 - within
        } else {
            n - start
        };
        for k in 0..count
            invariant
                n == buf@.len(),
                n == old(buf)@.len(),
                offset + n <= u64::MAX,
                start + count <= n,
                within + count <= 8,
                pos == offset + start,
                within == pos % 8,
                bytes@ == block(seed, (pos / 8) as u64),
                bytes@.len() == 8,
                forall|i: int| 0 <= i < start + k ==> buf@[i] == byte_at(seed, offset + i),
        {
            assert((pos + k) / 8 == pos / 8 && (pos + k) % 8 == within + k);
            buf[start + k] = bytes[within + k];
            assert(buf@[start + k] == byte_at(seed, offset + (start + k)));
        }
        written = start + count;
    }
    assert(buf@ =~= content(seed, offset as int, n as nat));
}

/// `len` bytes of the object starting at `offset`.
pub fn range(seed: u64, offset: u64, len: usize) -> (out: Vec<u8>)
    requires
        offset + len <= u64::MAX,
    ensures
        out@ == content(seed, offset as int, len as nat),
{
    let mut out: Vec<u8> = vec![0u8; len];
    fill(seed, offset, out.as_mut_slice());
    out
}

/// The FNV-1a hash of some bytes.
pub open spec fn hashed(bytes: Seq<u8>) -> u64
    decreases bytes.len(),
{
    if bytes.len() == 0 {
        0xcbf2_9ce4_8422_2325
    } else {
        (hashed(bytes.drop_last()) ^ bytes.last() as u64).wrapping_mul(0x0000_0100_0000_01B3)
    }
}

/// Derive an object's seed from its name, so that a URL alone identifies its content.
pub fn seed_for(name: &str) -> (out: u64)
    ensures
        out == hashed(encode_utf8(name@)),
{
    let bytes = name.as_bytes();
    let n: usize = bytes.len();
    let mut h: u64 = 0xcbf2_9ce4_8422_2325;
    assert(bytes@.take(0) =~= Seq::empty());
    for i in 0..n
        invariant
            n == bytes@.len(),
            h == hashed(bytes@.take(i as int)),
    {
        assert(bytes@.take(i + 1).drop_last() =~= bytes@.take(i as int));
        h = (h ^ bytes[i] as u64).wrapping_mul(0x0000_0100_0000_01B3);
    }
    assert(bytes@.take(n as int) =~= bytes@);
    h
}

/// Reading a range directly gives what stands there in a larger read. All comparisons rest on
/// this.
pub proof fn content_is_position_independent(
    seed: u64,
    offset: int,
    len: nat,
    skip: int,
    part: nat,
)
    requires
        0 <= skip,
        skip + part <= len,
    ensures
        content(seed, offset + skip, part) == content(seed, offset, len).subrange(
            skip,
            skip + part,
        ),
{
    let direct = content(seed, offset + skip, part);
    let cut = content(seed, offset, len).subrange(skip, skip + part);
    assert forall|i: int| 0 <= i < part implies #[trigger] direct[i] == cut[i] by {
        assert(offset + skip + i == offset + (skip + i));
    }
    assert(direct =~= cut);
}

} // verus!
