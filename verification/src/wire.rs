//! Reading and writing bytes.
//!
//! A reader never goes past the end of its bytes: whatever a length claims, what is not there is
//! not read. In what the cache stores, numbers are little-endian and of fixed width. An optional string is its length in 32 bits
//! followed by its UTF-8 bytes; the largest length stands for a string that is absent, which keeps
//! the empty string apart from none.
use vstd::prelude::*;
use vstd::slice::slice_subrange;
use vstd::string::*;
use vstd::utf8::*;

verus! {

/// `n` in `width` little-endian bytes; what does not fit is dropped.
#[verifier::opaque]
pub open spec fn le_bytes(n: nat, width: nat) -> Seq<u8>
    decreases width,
{
    if width == 0 {
        Seq::empty()
    } else {
        seq![(n % 256) as u8] + le_bytes(n / 256, (width - 1) as nat)
    }
}

/// The number that little-endian bytes stand for.
#[verifier::opaque]
pub open spec fn le_value(s: Seq<u8>) -> nat
    decreases s.len(),
{
    if s.len() == 0 {
        0
    } else {
        s[0] as nat + 256 * le_value(s.skip(1))
    }
}

/// The first number that `width` bytes cannot hold.
#[verifier::opaque]
pub open spec fn le_limit(width: nat) -> nat
    decreases width,
{
    if width == 0 {
        1
    } else {
        256 * le_limit((width - 1) as nat)
    }
}

pub proof fn lemma_le_limits()
    ensures
        le_limit(4) == 0x1_0000_0000,
        le_limit(8) == 0x1_0000_0000_0000_0000,
{
    reveal_with_fuel(le_limit, 9);
}

/// Writing a number and reading it back gives the number.
pub proof fn lemma_le_reads_back(n: nat, width: nat)
    requires
        n < le_limit(width),
    ensures
        le_bytes(n, width).len() == width,
        le_value(le_bytes(n, width)) == n,
    decreases width,
{
    reveal(le_bytes);
    reveal(le_value);
    reveal(le_limit);
    if width > 0 {
        lemma_le_reads_back(n / 256, (width - 1) as nat);
        assert(le_bytes(n, width).skip(1) =~= le_bytes(n / 256, (width - 1) as nat));
    }
}

pub proof fn lemma_le_len(n: nat, width: nat)
    ensures
        le_bytes(n, width).len() == width,
    decreases width,
{
    reveal(le_bytes);
    if width > 0 {
        lemma_le_len(n / 256, (width - 1) as nat);
    }
}

/// Reading bytes and writing the number back gives the bytes.
pub proof fn lemma_le_writes_back(s: Seq<u8>)
    ensures
        le_value(s) < le_limit(s.len()),
        le_bytes(le_value(s), s.len()) == s,
    decreases s.len(),
{
    reveal(le_bytes);
    reveal(le_value);
    reveal(le_limit);
    if s.len() > 0 {
        lemma_le_writes_back(s.skip(1));
        let v = le_value(s.skip(1));
        assert((s[0] as nat + 256 * v) % 256 == s[0] as nat);
        assert((s[0] as nat + 256 * v) / 256 == v);
        assert(le_bytes(le_value(s), s.len()) =~= s);
    } else {
        assert(le_bytes(le_value(s), s.len()) =~= s);
    }
}

/// Appends `n` in `width` little-endian bytes.
pub(crate) fn put_le(out: &mut Vec<u8>, n: u64, width: usize)
    ensures
        final(out)@ == old(out)@ + le_bytes(n as nat, width as nat),
{
    proof {
        reveal(le_bytes);
    }
    let mut rest: u64 = n;
    let mut left: usize = width;
    while left > 0
        invariant
            left <= width,
            out@ + le_bytes(rest as nat, left as nat) == old(out)@ + le_bytes(
                n as nat,
                width as nat,
            ),
        decreases left,
    {
        proof {
            reveal(le_bytes);
        }
        let ghost before = out@;
        out.push((rest % 256) as u8);
        assert(before + le_bytes(rest as nat, left as nat) =~= out@ + le_bytes(
            (rest / 256) as nat,
            (left - 1) as nat,
        ));
        rest = rest / 256;
        left = left - 1;
    }
    assert(out@ =~= out@ + le_bytes(rest as nat, 0));
}

/// Appends some bytes.
pub(crate) fn put_bytes(out: &mut Vec<u8>, bytes: &[u8])
    ensures
        final(out)@ == old(out)@ + bytes@,
{
    out.extend_from_slice(bytes);
    assert(out@ =~= old(out)@ + bytes@);
}

/// How an optional string is written. The length is kept in 32 bits.
#[verifier::opaque]
pub open spec fn string_bytes(s: Option<Seq<char>>) -> Seq<u8> {
    match s {
        None => le_bytes(u32::MAX as nat, 4),
        Some(c) => le_bytes(encode_utf8(c).len(), 4) + encode_utf8(c),
    }
}

/// A string that can be told from an absent one once it is written.
pub open spec fn storable(s: Option<Seq<char>>) -> bool {
    s matches Some(c) ==> encode_utf8(c).len() < u32::MAX
}

pub open spec fn chars_in(s: Option<String>) -> Option<Seq<char>> {
    match s {
        Some(v) => Some(v@),
        None => None,
    }
}

/// What `String::from_utf8` says is wrong with bytes that are not well-formed UTF-8.
pub uninterp spec fn utf8_fault(bytes: Seq<u8>) -> Seq<char>;

/// Calls `String::from_utf8` and keeps the text of its error. It gives the text that the bytes
/// encode, and an error exactly where they are not well-formed UTF-8. What the error says depends
/// on the bytes alone.
#[verifier::external_body]
pub(crate) fn utf8_string(bytes: Vec<u8>) -> (out: Result<String, String>)
    ensures
        match out {
            Ok(s) => valid_utf8(bytes@) && s@ == decode_utf8(bytes@),
            Err(e) => !valid_utf8(bytes@) && e@ == utf8_fault(bytes@),
        },
{
    match String::from_utf8(bytes) {
        Ok(s) => Ok(s),
        Err(e) => Err(e.to_string()),
    }
}

/// The first `n` bytes and what follows them, where there are that many.
pub open spec fn taken(b: Seq<u8>, n: int) -> Option<(Seq<u8>, Seq<u8>)> {
    if 0 <= n <= b.len() {
        Some((b.take(n), b.skip(n)))
    } else {
        None
    }
}

/// A number of `width` bytes and what follows it.
pub open spec fn number_in(b: Seq<u8>, width: int) -> Option<(nat, Seq<u8>)> {
    match taken(b, width) {
        Some((s, rest)) => Some((le_value(s), rest)),
        None => None,
    }
}

/// The bytes of an optional string and what follows them. `None` within is a string stored as
/// absent; `None` without is a buffer that ends too early.
pub open spec fn string_in(b: Seq<u8>) -> Option<(Option<Seq<u8>>, Seq<u8>)> {
    match number_in(b, 4) {
        None => None,
        Some((len, rest)) => if len == u32::MAX {
            Some((None, rest))
        } else {
            match taken(rest, len as int) {
                None => None,
                Some((s, rest)) => Some((Some(s), rest)),
            }
        },
    }
}

/// A big-endian number of two bytes and what follows it.
pub open spec fn be16_in(b: Seq<u8>) -> Option<(nat, Seq<u8>)> {
    if b.len() >= 2 {
        Some((b[0] as nat * 256 + b[1] as nat, b.skip(2)))
    } else {
        None
    }
}

/// One byte and what follows it.
pub open spec fn byte_in(b: Seq<u8>) -> Option<(u8, Seq<u8>)> {
    if b.len() >= 1 {
        Some((b[0], b.skip(1)))
    } else {
        None
    }
}

/// A place in a byte string.
pub(crate) struct Reader<'a> {
    pub(crate) bytes: &'a [u8],
    pub(crate) at: usize,
}

impl<'a> Reader<'a> {
    pub(crate) open spec fn valid(self) -> bool {
        self.at <= self.bytes@.len()
    }

    /// What has not been read yet.
    pub(crate) open spec fn rest(self) -> Seq<u8> {
        self.bytes@.skip(self.at as int)
    }

    pub(crate) fn new(bytes: &'a [u8]) -> (out: Reader<'a>)
        ensures
            out.valid(),
            out.rest() == bytes@,
    {
        assert(bytes@.skip(0) =~= bytes@);
        Reader { bytes, at: 0 }
    }

    pub(crate) fn take(&mut self, n: usize) -> (out: Option<&'a [u8]>)
        requires
            old(self).valid(),
        ensures
            final(self).valid(),
            match taken(old(self).rest(), n as int) {
                Some((s, rest)) => out matches Some(o) && o@ == s && final(self).rest() == rest,
                None => out is None,
            },
    {
        let len: usize = self.bytes.len();
        if n <= len - self.at {
            let out = slice_subrange(self.bytes, self.at, self.at + n);
            proof {
                let rest = self.rest();
                assert(out@ =~= rest.take(n as int));
                assert(self.bytes@.skip(self.at + n) =~= rest.skip(n as int));
            }
            self.at = self.at + n;
            Some(out)
        } else {
            None
        }
    }

    /// Reads one byte.
    pub(crate) fn byte(&mut self) -> (out: Option<u8>)
        requires
            old(self).valid(),
        ensures
            final(self).valid(),
            match byte_in(old(self).rest()) {
                Some((n, rest)) => out == Some(n) && final(self).rest() == rest,
                None => out is None,
            },
    {
        match self.take(1) {
            None => None,
            Some(s) => Some(s[0]),
        }
    }

    /// Reads a big-endian number of two bytes.
    pub(crate) fn be16(&mut self) -> (out: Option<u16>)
        requires
            old(self).valid(),
        ensures
            final(self).valid(),
            match be16_in(old(self).rest()) {
                Some((n, rest)) => out matches Some(o) && o == n && final(self).rest() == rest,
                None => out is None,
            },
    {
        match self.take(2) {
            None => None,
            Some(s) => Some(s[0] as u16 * 256 + s[1] as u16),
        }
    }

    /// Reads a little-endian number of at most eight bytes.
    pub(crate) fn number(&mut self, width: usize) -> (out: Option<u64>)
        requires
            old(self).valid(),
            width <= 8,
        ensures
            final(self).valid(),
            match number_in(old(self).rest(), width as int) {
                Some((n, rest)) => out matches Some(o) && o == n && final(self).rest() == rest,
                None => out is None,
            },
            out matches Some(o) ==> o < le_limit(width as nat),
    {
        match self.take(width) {
            None => None,
            Some(s) => Some(le_number(s)),
        }
    }

    /// Reads an optional string as bytes.
    pub(crate) fn string(&mut self) -> (out: Option<Option<&'a [u8]>>)
        requires
            old(self).valid(),
        ensures
            final(self).valid(),
            match string_in(old(self).rest()) {
                Some((s, rest)) => {
                    &&& out matches Some(o)
                    &&& final(self).rest() == rest
                    &&& s is Some <==> o is Some
                    &&& o matches Some(b) ==> s == Some(b@)
                },
                None => out is None,
            },
    {
        proof {
            lemma_le_limits();
        }
        let len: u64 = match self.number(4) {
            Some(n) => n,
            None => return None,
        };
        if len == u32::MAX as u64 {
            return Some(None);
        }
        match self.take(len as usize) {
            Some(s) => Some(Some(s)),
            None => None,
        }
    }
}

/// The number that at most eight little-endian bytes stand for.
pub(crate) fn le_number(s: &[u8]) -> (out: u64)
    requires
        s@.len() <= 8,
    ensures
        out == le_value(s@),
        out < le_limit(s@.len()),
{
    proof {
        reveal(le_value);
    }
    let n: usize = s.len();
    let mut i: usize = n;
    let mut value: u64 = 0;
    assert(s@.skip(n as int) =~= Seq::empty());
    proof {
        lemma_le_writes_back(s@);
        lemma_le_limits();
        lemma_limit_grows(n as nat, 8);
    }
    while i > 0
        invariant
            n == s@.len(),
            n <= 8,
            i <= n,
            value == le_value(s@.skip(i as int)),
        decreases i,
    {
        proof {
            reveal(le_value);
            let tail = s@.skip(i as int - 1);
            assert(tail.skip(1) =~= s@.skip(i as int));
            lemma_le_writes_back(tail);
            lemma_le_limits();
            lemma_limit_grows(tail.len(), 8);
        }
        i = i - 1;
        value = s[i] as u64 + 256 * value;
    }
    assert(s@.skip(0) =~= s@);
    value
}

proof fn lemma_limit_grows(a: nat, b: nat)
    requires
        a <= b,
    ensures
        le_limit(a) <= le_limit(b),
        le_limit(a) > 0,
    decreases b,
{
    reveal(le_limit);
    if a < b {
        lemma_limit_grows(a, (b - 1) as nat);
    } else if b > 0 {
        lemma_limit_grows((b - 1) as nat, (b - 1) as nat);
    }
}

/// Appends an optional string. A length of 32 bits or more is cut down to 32 bits.
pub(crate) fn put_string(out: &mut Vec<u8>, value: Option<&str>)
    ensures
        final(out)@ == old(out)@ + string_bytes(
            match value {
                Some(v) => Some(v@),
                None => None,
            },
        ),
{
    proof {
        reveal(string_bytes);
    }
    match value {
        None => put_le(out, u32::MAX as u64, 4),
        Some(v) => {
            let bytes = v.as_bytes();
            put_le(out, bytes.len() as u64, 4);
            put_bytes(out, bytes);
            assert(out@ =~= old(out)@ + string_bytes(Some(v@)));
        },
    }
}

/// Reading a storable string that was written gives the string, and leaves what follows it.
pub proof fn lemma_string_reads_back(s: Option<Seq<char>>, rest: Seq<u8>)
    requires
        storable(s),
    ensures
        string_in(string_bytes(s) + rest) == Some(
            (
                match s {
                    Some(c) => Some(encode_utf8(c)),
                    None => None,
                },
                rest,
            ),
        ),
{
    reveal(string_bytes);
    lemma_le_limits();
    let b = string_bytes(s) + rest;
    match s {
        None => {
            lemma_le_reads_back(u32::MAX as nat, 4);
            assert(b.take(4) =~= le_bytes(u32::MAX as nat, 4));
            assert(b.skip(4) =~= rest);
        },
        Some(c) => {
            let u = encode_utf8(c);
            lemma_le_reads_back(u.len(), 4);
            assert(b.take(4) =~= le_bytes(u.len(), 4));
            let r = b.skip(4);
            assert(r =~= u + rest);
            assert(r.take(u.len() as int) =~= u);
            assert(r.skip(u.len() as int) =~= rest);
        },
    }
}

/// Writing a string that was read gives the bytes that it was read from.
pub proof fn lemma_string_writes_back(b: Seq<u8>)
    requires
        string_in(b) is Some,
        (string_in(b)->0).0 matches Some(u) ==> valid_utf8(u),
    ensures
        ({
            let (s, rest) = string_in(b)->0;
            let text = match s {
                Some(u) => Some(decode_utf8(u)),
                None => None,
            };
            b == string_bytes(text) + rest && storable(text)
        }),
{
    reveal(string_bytes);
    lemma_le_limits();
    let (s, rest) = string_in(b)->0;
    let head = b.take(4);
    lemma_le_writes_back(head);
    match s {
        None => {
            assert(b =~= head + rest);
        },
        Some(u) => {
            decode_utf8_encode_utf8(u);
            assert(b =~= (head + u) + rest);
        },
    }
}

/// Numbers are written in base 256 with the lowest digit first, and read so; two bytes of a network
/// header have the highest first.
pub proof fn numbers_are_written_lowest_byte_first(
    low: u8,
    high: nat,
    width: nat,
    rest: Seq<u8>,
    first: u8,
    second: u8,
)
    ensures
        le_bytes(256 * high + low as nat, width + 1) == seq![low] + le_bytes(high, width),
        le_bytes(high, 0) == Seq::<u8>::empty(),
        le_value(seq![low] + rest) == low as nat + 256 * le_value(rest),
        le_value(Seq::empty()) == 0,
        be16_in(seq![first, second] + rest) == Some((256 * first as nat + second as nat, rest)),
{
    reveal(le_bytes);
    reveal(le_value);
    let n = 256 * high + low as nat;
    assert(n % 256 == low as nat);
    assert(n / 256 == high);
    let s = seq![low] + rest;
    assert(s.skip(1) =~= rest);
    assert(s[0] == low);
    let t = seq![first, second] + rest;
    assert(t.skip(2) =~= rest);
}

/// A string is written behind its length in bytes, and an absent one as a length that no string can
/// have.
pub proof fn strings_are_written_behind_their_length(c: Seq<char>)
    ensures
        string_bytes(Some(c)) == le_bytes(encode_utf8(c).len(), 4) + encode_utf8(c),
        string_bytes(None) == seq![0xffu8, 0xff, 0xff, 0xff],
{
    reveal(string_bytes);
    reveal_with_fuel(le_bytes, 5);
    assert(string_bytes(None) =~= seq![0xffu8, 0xff, 0xff, 0xff]);
}

} // verus!
