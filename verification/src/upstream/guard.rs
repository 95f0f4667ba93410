//! Upstream address guard.
//!
//! Requests are accepted for any `Host`. Without a guard that would make the cache an open proxy
//! on its network: anyone could name a router's admin interface or a metadata endpoint and have
//! the result fetched and served.
//!
//! The check is on the resolved address, not on the host name: a name can resolve to anything.
use vstd::prelude::*;

verus! {

/// An internet address: four octets, or eight segments of sixteen bits.
#[derive(Debug, Clone, Copy, PartialEq, Eq)]
pub enum IpAddr {
    V4([u8; 4]),
    V6([u16; 8]),
}

/// Why an upstream address was refused.
#[derive(Debug, Clone, Copy, PartialEq, Eq, Structural)]
pub enum Refusal {
    Loopback,
    Private,
    LinkLocal,
    Unspecified,
    MulticastOrBroadcast,
    Reserved,
}

impl Refusal {
    pub open spec fn message_spec(self) -> Seq<char> {
        match self {
            Refusal::Loopback => "loopback address"@,
            Refusal::Private => "private address"@,
            Refusal::LinkLocal => "link-local address"@,
            Refusal::Unspecified => "unspecified address"@,
            Refusal::MulticastOrBroadcast => "multicast or broadcast address"@,
            Refusal::Reserved => "reserved or otherwise non-global address"@,
        }
    }

    /// The refusal in words.
    pub fn message(&self) -> (out: &'static str)
        ensures
            out@ == self.message_spec(),
    {
        match self {
            Refusal::Loopback => "loopback address",
            Refusal::Private => "private address",
            Refusal::LinkLocal => "link-local address",
            Refusal::Unspecified => "unspecified address",
            Refusal::MulticastOrBroadcast => "multicast or broadcast address",
            Refusal::Reserved => "reserved or otherwise non-global address",
        }
    }
}

/// What an IPv4 address is refused for, if anything.
pub open spec fn refusal_v4(a: Seq<u8>) -> Option<Refusal> {
    if a[0] == 0 && a[1] == 0 && a[2] == 0 && a[3] == 0 {
        Some(Refusal::Unspecified)
    } else if a[0] == 127 {
        Some(Refusal::Loopback)
    } else if a[0] == 10 || (a[0] == 172 && 16 <= a[1] < 32) || (a[0] == 192 && a[1] == 168) {
        Some(Refusal::Private)
    } else if a[0] == 169 && a[1] == 254 {
        Some(Refusal::LinkLocal)
    } else if 224 <= a[0] < 240 || (a[0] == 255 && a[1] == 255 && a[2] == 255 && a[3] == 255) {
        Some(Refusal::MulticastOrBroadcast)
    } else if (a[0] == 100 && 64 <= a[1] < 128)  // carrier-grade NAT
     || a[0] == 0 || a[0] >= 240  // reserved
     || (a[0] == 192 && a[1] == 0 && a[2] == 0)  // protocol assignments
     || (a[0] == 192 && a[1] == 0 && a[2] == 2)  // documentation
     || (a[0] == 198 && a[1] == 51 && a[2] == 100)  // documentation
     || (a[0] == 203 && a[1] == 0 && a[2] == 113)  // documentation
     || (a[0] == 198 && 18 <= a[1] < 20)  // benchmarking
    {
        Some(Refusal::Reserved)
    } else {
        None
    }
}

/// The IPv4 address that an IPv6 address of the form `::ffff:a.b.c.d` stands for.
pub open spec fn mapped_v4(s: Seq<u16>) -> Option<Seq<u8>> {
    if s[0] == 0 && s[1] == 0 && s[2] == 0 && s[3] == 0 && s[4] == 0 && s[5] == 0xffff {
        Some(seq![(s[6] / 256) as u8, (s[6] % 256) as u8, (s[7] / 256) as u8, (s[7] % 256) as u8])
    } else {
        None
    }
}

/// What an IPv6 address is refused for, if anything. One that stands for an IPv4 address is judged
/// as that.
pub open spec fn refusal_v6(s: Seq<u16>) -> Option<Refusal> {
    let low = s[0] == 0 && s[1] == 0 && s[2] == 0 && s[3] == 0 && s[4] == 0 && s[5] == 0 && s[6]
        == 0;
    if low && s[7] == 0 {
        Some(Refusal::Unspecified)
    } else if low && s[7] == 1 {
        Some(Refusal::Loopback)
    } else if s[0] >= 0xff00 {
        Some(Refusal::MulticastOrBroadcast)
    } else if mapped_v4(s) is Some {
        refusal_v4(mapped_v4(s)->0)
    } else if 0xfc00 <= s[0] < 0xfe00 {
        Some(Refusal::Private)
    } else if 0xfe80 <= s[0] < 0xfec0 {
        Some(Refusal::LinkLocal)
    } else if s[0] == 0x2001 && s[1] == 0x0db8 {
        Some(Refusal::Reserved)
    } else {
        None
    }
}

/// What an address is refused for, if anything.
pub open spec fn refusal(addr: IpAddr) -> Option<Refusal> {
    match addr {
        IpAddr::V4(a) => refusal_v4(a@),
        IpAddr::V6(s) => refusal_v6(s@),
    }
}

/// An address that may be fetched from.
pub open spec fn permitted(addr: IpAddr, allow_private: bool) -> bool {
    allow_private || refusal(addr) is None
}

/// Whether an address may be used as an upstream.
///
/// `allow_private` is for pointing the cache at an internal mirror on purpose. It is off by
/// default.
pub fn check(addr: IpAddr, allow_private: bool) -> (out: Result<(), Refusal>)
    ensures
        out is Ok <==> permitted(addr, allow_private),
        out matches Err(r) ==> refusal(addr) == Some(r),
        out is Ok <==> allow_private || refusal(addr) is None,
{
    if allow_private {
        return Ok(());
    }
    match addr {
        IpAddr::V4(a) => check_v4(a),
        IpAddr::V6(s) => check_v6(s),
    }
}

/// Whether an IPv4 address may be used as an upstream.
pub fn check_v4(a: [u8; 4]) -> (out: Result<(), Refusal>)
    ensures
        out == (match refusal_v4(a@) {
            None => Ok::<(), Refusal>(()),
            Some(r) => Err::<(), Refusal>(r),
        }),
{
    let o0: u8 = a[0];
    let o1: u8 = a[1];
    let o2: u8 = a[2];
    let o3: u8 = a[3];
    if o0 == 0 && o1 == 0 && o2 == 0 && o3 == 0 {
        return Err(Refusal::Unspecified);
    }
    if o0 == 127 {
        return Err(Refusal::Loopback);
    }
    if o0 == 10 || (o0 == 172 && 16 <= o1 && o1 < 32) || (o0 == 192 && o1 == 168) {
        return Err(Refusal::Private);
    }
    if o0 == 169 && o1 == 254 {
        return Err(Refusal::LinkLocal);
    }
    if (224 <= o0 && o0 < 240) || (o0 == 255 && o1 == 255 && o2 == 255 && o3 == 255) {
        return Err(Refusal::MulticastOrBroadcast);
    }
    if o0 == 100 && 64 <= o1 && o1 < 128 {
        return Err(Refusal::Reserved);
    }
    if o0 == 0 || o0 >= 240 {
        return Err(Refusal::Reserved);
    }
    if o0 == 192 && o1 == 0 && (o2 == 0 || o2 == 2) {
        return Err(Refusal::Reserved);
    }
    if (o0 == 198 && o1 == 51 && o2 == 100) || (o0 == 203 && o1 == 0 && o2 == 113) {
        return Err(Refusal::Reserved);
    }
    if o0 == 198 && 18 <= o1 && o1 < 20 {
        return Err(Refusal::Reserved);
    }
    Ok(())
}

/// Whether an IPv6 address may be used as an upstream.
pub fn check_v6(s: [u16; 8]) -> (out: Result<(), Refusal>)
    ensures
        out == (match refusal_v6(s@) {
            None => Ok::<(), Refusal>(()),
            Some(r) => Err::<(), Refusal>(r),
        }),
{
    let low = s[0] == 0 && s[1] == 0 && s[2] == 0 && s[3] == 0 && s[4] == 0 && s[5] == 0 && s[6]
        == 0;
    if low && s[7] == 0 {
        return Err(Refusal::Unspecified);
    }
    if low && s[7] == 1 {
        return Err(Refusal::Loopback);
    }
    if s[0] >= 0xff00 {
        return Err(Refusal::MulticastOrBroadcast);
    }
    if s[0] == 0 && s[1] == 0 && s[2] == 0 && s[3] == 0 && s[4] == 0 && s[5] == 0xffff {
        let v4: [u8; 4] = [
            (s[6] / 256) as u8,
            (s[6] % 256) as u8,
            (s[7] / 256) as u8,
            (s[7] % 256) as u8,
        ];
        assert(v4@ =~= mapped_v4(s@)->0);
        return check_v4(v4);
    }
    if 0xfc00 <= s[0] && s[0] < 0xfe00 {
        return Err(Refusal::Private);
    }
    if 0xfe80 <= s[0] && s[0] < 0xfec0 {
        return Err(Refusal::LinkLocal);
    }
    if s[0] == 0x2001 && s[1] == 0x0db8 {
        return Err(Refusal::Reserved);
    }
    Ok(())
}

/// The IPv6 address `::ffff:a.b.c.d` that stands for an IPv4 address.
pub open spec fn mapped_from(a: Seq<u8>) -> Seq<u16> {
    seq![
        0u16,
        0,
        0,
        0,
        0,
        0xffff,
        (a[0] * 256 + a[1]) as u16,
        (a[2] * 256 + a[3]) as u16,
    ]
}

/// Writing an IPv4 address as an IPv6 one does not get it past the guard: it is refused, and for
/// the same reason, exactly where the IPv4 address is.
pub proof fn mapped_addresses_are_judged_as_ipv4(a: [u8; 4], s: [u16; 8], allow_private: bool)
    requires
        s@ == mapped_from(a@),
    ensures
        mapped_v4(s@) == Some(a@),
        refusal_v6(s@) == refusal_v4(a@),
        refusal(IpAddr::V6(s)) == refusal(IpAddr::V4(a)),
        permitted(IpAddr::V6(s), allow_private) == permitted(IpAddr::V4(a), allow_private),
{
    assert(mapped_v4(s@)->0 =~= a@);
}

/// Whether an IPv6 address lies in the block that starts with the segment `start`, of which the
/// first `bits` are fixed.
pub open spec fn in_block(s: Seq<u16>, start: u16, bits: nat) -> bool {
    let free = vstd::arithmetic::power2::pow2((16 - bits) as nat);
    start <= s[0] < start + free
}

/// An IPv6 address is refused for the block that it lies in, and for nothing else: `::`, `::1`,
/// `ff00::/8`, `fc00::/7`, `fe80::/10` and `2001:db8::/32`, or where it stands for an IPv4 address,
/// as that one is.
pub proof fn ipv6_addresses_are_judged_by_their_block(s: [u16; 8])
    ensures
        ({
            let unspecified = s@ == seq![0u16, 0, 0, 0, 0, 0, 0, 0];
            let loopback = s@ == seq![0u16, 0, 0, 0, 0, 0, 0, 1];
            let multicast = in_block(s@, 0xff00, 8);
            let unique_local = in_block(s@, 0xfc00, 7);
            let link_local = in_block(s@, 0xfe80, 10);
            let documentation = s@[0] == 0x2001 && s@[1] == 0x0db8;
            &&& unspecified ==> refusal_v6(s@) == Some(Refusal::Unspecified)
            &&& loopback ==> refusal_v6(s@) == Some(Refusal::Loopback)
            &&& multicast ==> refusal_v6(s@) == Some(Refusal::MulticastOrBroadcast)
            &&& unique_local ==> refusal_v6(s@) == Some(Refusal::Private)
            &&& link_local ==> refusal_v6(s@) == Some(Refusal::LinkLocal)
            &&& documentation ==> refusal_v6(s@) == Some(Refusal::Reserved)
            &&& mapped_v4(s@) matches Some(a) ==> refusal_v6(s@) == refusal_v4(a)
            &&& !unspecified && !loopback && !multicast && !unique_local && !link_local
                && !documentation && mapped_v4(s@) is None ==> refusal_v6(s@) is None
        }),
{
    vstd::arithmetic::power2::lemma2_to64();
    if refusal_v6(s@) == Some(Refusal::Unspecified) && mapped_v4(s@) is None {
        assert(s@ =~= seq![0u16, 0, 0, 0, 0, 0, 0, 0]);
    }
    if refusal_v6(s@) == Some(Refusal::Loopback) && mapped_v4(s@) is None {
        assert(s@ =~= seq![0u16, 0, 0, 0, 0, 0, 0, 1]);
    }
}

/// An IPv4 address as a number.
pub open spec fn value_v4(a: Seq<u8>) -> int {
    a[0] * 0x100_0000 + a[1] * 0x1_0000 + a[2] * 0x100 + a[3]
}

/// Whether an IPv4 address lies in the block that starts at `start`, of which the first `bits` are
/// fixed.
pub open spec fn in_v4_block(a: Seq<u8>, start: Seq<u8>, bits: nat) -> bool {
    let free = vstd::arithmetic::power2::pow2((32 - bits) as nat);
    value_v4(start) <= value_v4(a) < value_v4(start) + free
}

/// An IPv4 address is refused for the block that it lies in, and for nothing else.
#[verifier::spinoff_prover]
#[verifier::rlimit(30)]
pub proof fn ipv4_addresses_are_judged_by_their_block(a: [u8; 4])
    ensures
        ({
            let unspecified = in_v4_block(a@, seq![0u8, 0, 0, 0], 32);
            let broadcast = in_v4_block(a@, seq![255u8, 255, 255, 255], 32);
            let loopback = in_v4_block(a@, seq![127u8, 0, 0, 0], 8);
            let private = in_v4_block(a@, seq![10u8, 0, 0, 0], 8) || in_v4_block(
                a@,
                seq![172u8, 16, 0, 0],
                12,
            ) || in_v4_block(a@, seq![192u8, 168, 0, 0], 16);
            let link_local = in_v4_block(a@, seq![169u8, 254, 0, 0], 16);
            let multicast = in_v4_block(a@, seq![224u8, 0, 0, 0], 4);
            let reserved = in_v4_block(a@, seq![0u8, 0, 0, 0], 8) || in_v4_block(
                a@,
                seq![240u8, 0, 0, 0],
                4,
            ) || in_v4_block(a@, seq![100u8, 64, 0, 0], 10) || in_v4_block(
                a@,
                seq![192u8, 0, 0, 0],
                24,
            ) || in_v4_block(a@, seq![192u8, 0, 2, 0], 24) || in_v4_block(
                a@,
                seq![198u8, 51, 100, 0],
                24,
            ) || in_v4_block(a@, seq![203u8, 0, 113, 0], 24) || in_v4_block(
                a@,
                seq![198u8, 18, 0, 0],
                15,
            );
            &&& refusal_v4(a@) == Some(Refusal::Unspecified) <==> unspecified
            &&& refusal_v4(a@) == Some(Refusal::Loopback) <==> loopback
            &&& refusal_v4(a@) == Some(Refusal::Private) <==> private
            &&& refusal_v4(a@) == Some(Refusal::LinkLocal) <==> link_local
            &&& refusal_v4(a@) == Some(Refusal::MulticastOrBroadcast) <==> multicast || broadcast
            &&& refusal_v4(a@) == Some(Refusal::Reserved) <==> reserved && !unspecified
                && !broadcast
        }),
{
    vstd::arithmetic::power2::lemma2_to64();
}

/// An IPv6 address stands for an IPv4 address only where it is that address written as IPv6.
pub proof fn only_mapped_addresses_stand_for_ipv4(s: [u16; 8])
    ensures
        mapped_v4(s@) matches Some(a) ==> a.len() == 4 && mapped_from(a) == s@,
{
    if let Some(a) = mapped_v4(s@) {
        assert(a[0] * 256 + a[1] == s@[6]);
        assert(a[2] * 256 + a[3] == s@[7]);
        assert(mapped_from(a) =~= s@);
    }
}

} // verus!
