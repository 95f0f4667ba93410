//! SNI pass-through.
//!
//! Clients resolve a name to this host and then speak TLS. The name is read out of the hello,
//! resolved properly, and bytes are spliced in both directions. Nothing is decrypted, terminated
//! or cached.
use crate::config::units::Duration;
use crate::sni::clienthello;
use crate::text;
use crate::upstream::resolver::{ResolveError, SocketAddr};
use vstd::prelude::*;
use vstd::string::*;

verus! {

/// How long a client has to send its hello, in seconds. A connection that opens and says nothing
/// costs a socket and a task.
pub const HELLO_TIMEOUT: u64 = 10;

/// How long one address has to accept a connection, in seconds.
pub const CONNECT_TIMEOUT: u64 = 10;

/// What happened to the connections so far. Counts start over where 64 bits do not suffice.
#[derive(Debug, Clone, Copy, PartialEq, Eq, Structural)]
pub struct SniStats {
    pub accepted: u64,
    pub spliced: u64,
    /// Closed because the hello carried no usable name.
    pub no_sni: u64,
    /// Closed because the guard refused every address that the host resolved to.
    pub refused: u64,
    pub upstream_failed: u64,
    pub bytes_client_to_origin: u64,
    pub bytes_origin_to_client: u64,
}

/// The sum in 64 bits.
pub open spec fn counted(n: u64, more: int) -> int {
    (n + more) % 0x1_0000_0000_0000_0000
}

impl Default for SniStats {
    fn default() -> (out: Self)
        ensures
            out == (SniStats {
                accepted: 0,
                spliced: 0,
                no_sni: 0,
                refused: 0,
                upstream_failed: 0,
                bytes_client_to_origin: 0,
                bytes_origin_to_client: 0,
            }),
    {
        SniStats {
            accepted: 0,
            spliced: 0,
            no_sni: 0,
            refused: 0,
            upstream_failed: 0,
            bytes_client_to_origin: 0,
            bytes_origin_to_client: 0,
        }
    }
}

impl SniStats {
    /// A client connected.
    pub fn accept(&mut self)
        ensures
            *final(self) == (SniStats {
                accepted: counted(old(self).accepted, 1) as u64,
                ..*old(self)
            }),
    {
        self.accepted = self.accepted.wrapping_add(1);
    }

    /// A client was turned away on account of its hello.
    pub fn turned_away(&mut self, error: &SniError)
        ensures
            *final(self) == (if *error is NoServerName {
                SniStats { no_sni: counted(old(self).no_sni, 1) as u64, ..*old(self) }
            } else {
                *old(self)
            }),
    {
        if let SniError::NoServerName = error {
            self.no_sni = self.no_sni.wrapping_add(1);
        }
    }

    /// The origin was reached, and what had been read of the client was replayed to it.
    pub fn established(&mut self, replayed: usize)
        ensures
            *final(self) == (SniStats {
                spliced: counted(old(self).spliced, 1) as u64,
                bytes_client_to_origin: counted(
                    old(self).bytes_client_to_origin,
                    replayed as int,
                ) as u64,
                ..*old(self)
            }),
    {
        self.bytes_client_to_origin = self.bytes_client_to_origin.wrapping_add(replayed as u64);
        self.spliced = self.spliced.wrapping_add(1);
    }

    /// Both sides are done.
    pub fn finished(&mut self, to_origin: u64, to_client: u64)
        ensures
            *final(self) == (SniStats {
                bytes_client_to_origin: counted(
                    old(self).bytes_client_to_origin,
                    to_origin as int,
                ) as u64,
                bytes_origin_to_client: counted(
                    old(self).bytes_origin_to_client,
                    to_client as int,
                ) as u64,
                ..*old(self)
            }),
    {
        self.bytes_client_to_origin = self.bytes_client_to_origin.wrapping_add(to_origin);
        self.bytes_origin_to_client = self.bytes_origin_to_client.wrapping_add(to_client);
    }
}

#[derive(Debug, PartialEq, Eq)]
#[allow(inconsistent_fields)]
pub enum SniError {
    HelloTimeout(Duration),
    NotTls,
    NoServerName,
    HelloTooLarge(usize),
    Refused { host: String, source: ResolveError },
    Upstream { host: String, source: String },
    Io(String),
}

impl SniError {
    pub open spec fn message_spec(self) -> Seq<char> {
        match self {
            SniError::HelloTimeout(d) => "client sent no ClientHello within "@ + text::decimal(
                d.secs as nat,
            ) + "s"@,
            SniError::NotTls => "client did not send a TLS handshake"@,
            SniError::NoServerName => "ClientHello carried no server name"@,
            SniError::HelloTooLarge(n) => "ClientHello exceeded "@ + text::decimal(n as nat)
                + " bytes"@,
            SniError::Refused { host, source } => "refusing "@ + host@ + ": "@
                + source.message_spec(),
            SniError::Upstream { host, source } => "cannot reach "@ + host@ + ": "@ + source@,
            SniError::Io(source) => source@,
        }
    }

    /// The error in words.
    pub fn message(&self) -> (out: String)
        ensures
            out@ == self.message_spec(),
    {
        match self {
            SniError::HelloTimeout(d) => {
                let mut out = "client sent no ClientHello within ".to_owned();
                out.append(text::decimal_string(d.secs).as_str());
                out.append("s");
                out
            },
            SniError::NotTls => "client did not send a TLS handshake".to_owned(),
            SniError::NoServerName => "ClientHello carried no server name".to_owned(),
            SniError::HelloTooLarge(n) => {
                let mut out = "ClientHello exceeded ".to_owned();
                out.append(text::decimal_string(*n as u64).as_str());
                out.append(" bytes");
                out
            },
            SniError::Refused { host, source } => {
                let mut out = "refusing ".to_owned();
                out.append(host.as_str());
                out.append(": ");
                out.append(source.message().as_str());
                out
            },
            SniError::Upstream { host, source } => {
                let mut out = "cannot reach ".to_owned();
                out.append(host.as_str());
                out.append(": ");
                out.append(source.as_str());
                out
            },
            SniError::Io(source) => source.clone(),
        }
    }
}

/// The hello as far as it was read. It is replayed to the origin, which needs the bytes that were
/// consumed to read it.
#[derive(Debug)]
pub struct Hello {
    buffer: Vec<u8>,
}

/// What is known after another read.
#[derive(Debug, PartialEq, Eq)]
pub enum HelloStep {
    /// The record is not complete. A partial hello cannot be told from one without a name, so
    /// nothing is concluded from it.
    More,
    Host(String),
    Close(SniError),
}

/// What is known of a client that has sent these bytes.
pub enum Reading {
    More,
    Host(Seq<char>),
    NotTls,
    TooLarge,
    NoName,
}

pub open spec fn reading(bytes: Seq<u8>) -> Reading {
    if bytes.len() == 0 || bytes[0] != clienthello::RECORD_HANDSHAKE {
        Reading::NotTls
    } else if bytes.len() > clienthello::MAX_CLIENT_HELLO {
        Reading::TooLarge
    } else {
        match clienthello::declared_length(bytes) {
            Some(needed) => if bytes.len() >= needed {
                match clienthello::server_name_spec(bytes) {
                    Some(host) => Reading::Host(host),
                    None => Reading::NoName,
                }
            } else {
                Reading::More
            },
            None => Reading::More,
        }
    }
}

impl Hello {
    /// Everything that was read.
    pub closed spec fn bytes(self) -> Seq<u8> {
        self.buffer@
    }

    pub fn new() -> (out: Self)
        ensures
            out.bytes() == Seq::<u8>::empty(),
    {
        Hello { buffer: Vec::new() }
    }

    /// Takes what a read returned; nothing means that the client closed the connection.
    ///
    /// A client that does not speak TLS is turned away as soon as its first byte proves it, rather
    /// than waiting for a record that will never come.
    pub fn push(&mut self, chunk: &[u8]) -> (out: HelloStep)
        ensures
            final(self).bytes() == old(self).bytes() + chunk@,
            if chunk@.len() == 0 {
                out == HelloStep::Close(SniError::NotTls)
            } else {
                match reading(old(self).bytes() + chunk@) {
                    Reading::More => out is More,
                    Reading::Host(host) => out matches HelloStep::Host(h) && h@ == host,
                    Reading::NotTls => out == HelloStep::Close(SniError::NotTls),
                    Reading::TooLarge => out == HelloStep::Close(
                        SniError::HelloTooLarge(clienthello::MAX_CLIENT_HELLO),
                    ),
                    Reading::NoName => out == HelloStep::Close(SniError::NoServerName),
                }
            },
    {
        if chunk.len() == 0 {
            assert(self.buffer@ =~= old(self).buffer@ + chunk@);
            return HelloStep::Close(SniError::NotTls);
        }
        self.buffer.extend_from_slice(chunk);
        assert(self.buffer@ =~= old(self).buffer@ + chunk@);
        if !clienthello::looks_like_tls(self.buffer.as_slice()) {
            return HelloStep::Close(SniError::NotTls);
        }
        if self.buffer.len() > clienthello::MAX_CLIENT_HELLO {
            return HelloStep::Close(SniError::HelloTooLarge(clienthello::MAX_CLIENT_HELLO));
        }
        if let Some(needed) = clienthello::record_length(self.buffer.as_slice()) {
            if self.buffer.len() >= needed {
                return match clienthello::server_name(self.buffer.as_slice()) {
                    Some(host) => HelloStep::Host(host),
                    None => HelloStep::Close(SniError::NoServerName),
                };
            }
        }
        HelloStep::More
    }

    /// What the origin gets to see first.
    pub fn replay(&self) -> (out: &[u8])
        ensures
            out@ == self.bytes(),
    {
        self.buffer.as_slice()
    }
}

/// A hello that did not come in time.
pub fn hello_timed_out() -> (out: SniError)
    ensures
        out == SniError::HelloTimeout(Duration { secs: HELLO_TIMEOUT }),
{
    SniError::HelloTimeout(Duration { secs: HELLO_TIMEOUT })
}

/// The addresses of an origin, and how trying them went.
#[derive(Debug)]
pub struct Dial {
    host: String,
    addresses: Vec<SocketAddr>,
    next: usize,
    last_error: Option<String>,
}

impl Dial {
    pub closed spec fn origin(self) -> Seq<char> {
        self.host@
    }

    /// The addresses that are still to be tried, in order.
    pub closed spec fn left(self) -> Seq<SocketAddr> {
        self.addresses@.skip(self.next as int)
    }

    /// How the last attempt failed, if there was one.
    pub closed spec fn last_failure(self) -> Option<Seq<char>> {
        match self.last_error {
            Some(e) => Some(e@),
            None => None,
        }
    }

    #[verifier::type_invariant]
    spec fn well_formed(self) -> bool {
        self.next <= self.addresses@.len()
    }

    /// What follows once a host was resolved. The guard runs there, as it does for HTTP: without
    /// it, anyone on the network could name an internal host and be spliced to it. Only what the
    /// guard refused counts as refused; a lookup that failed does not.
    pub fn resolved(
        host: String,
        result: Result<Vec<SocketAddr>, ResolveError>,
        stats: &mut SniStats,
    ) -> (out: Result<Self, SniError>)
        ensures
            match result {
                Ok(addresses) => {
                    &&& out matches Ok(dial)
                    &&& dial.origin() == host@
                    &&& dial.left() == addresses@
                    &&& dial.last_failure() is None
                    &&& *final(stats) == *old(stats)
                },
                Err(source) => {
                    &&& out == Err::<Self, SniError>(SniError::Refused { host, source })
                    &&& *final(stats) == (if source is Refused {
                        SniStats { refused: counted(old(stats).refused, 1) as u64, ..*old(stats) }
                    } else {
                        *old(stats)
                    })
                },
            },
    {
        match result {
            Ok(addresses) => {
                assert(addresses@.skip(0) =~= addresses@);
                Ok(Dial { host, addresses, next: 0, last_error: None })
            },
            Err(source) => {
                if let ResolveError::Refused { .. } = &source {
                    stats.refused = stats.refused.wrapping_add(1);
                }
                Err(SniError::Refused { host, source })
            },
        }
    }

    /// The address to try now.
    pub fn address(&self) -> (out: Option<SocketAddr>)
        ensures
            out == (if self.left().len() > 0 {
                Some(self.left()[0])
            } else {
                None
            }),
    {
        proof {
            use_type_invariant(self);
        }
        if self.next < self.addresses.len() {
            Some(self.addresses[self.next])
        } else {
            None
        }
    }

    /// An attempt failed; without a reason, it timed out. The next address is tried.
    pub fn failed(self, reason: Option<String>) -> (out: Self)
        requires
            self.left().len() > 0,
        ensures
            out.origin() == self.origin(),
            out.left() == self.left().skip(1),
            out.last_failure() == Some(
                match reason {
                    Some(r) => r@,
                    None => "connect timed out"@,
                },
            ),
    {
        proof {
            use_type_invariant(&self);
        }
        let count: usize = self.addresses.len();
        assert(self.next < count);
        let last_error = match reason {
            Some(r) => r,
            None => "connect timed out".to_owned(),
        };
        let out = Dial {
            host: self.host,
            addresses: self.addresses,
            next: self.next + 1,
            last_error: Some(last_error),
        };
        assert(out.left() =~= self.left().skip(1));
        out
    }

    /// No address could be reached.
    pub fn give_up(self, stats: &mut SniStats) -> (out: SniError)
        ensures
            out matches SniError::Upstream { host, source } && host@ == self.origin() && source@
                == (match self.last_failure() {
                Some(e) => e,
                None => "no addresses"@,
            }),
            *final(stats) == (SniStats {
                upstream_failed: counted(old(stats).upstream_failed, 1) as u64,
                ..*old(stats)
            }),
    {
        stats.upstream_failed = stats.upstream_failed.wrapping_add(1);
        SniError::Upstream {
            host: self.host,
            source: match self.last_error {
                Some(e) => e,
                None => "no addresses".to_owned(),
            },
        }
    }
}

/// A count in 64 bits differs from the true one by a multiple of what 64 bits can tell apart, and
/// is the true one as long as that fits.
pub proof fn counts_are_true_as_long_as_they_fit(n: u64, more: int)
    requires
        more >= 0,
    ensures
        0 <= counted(n, more) <= u64::MAX,
        n + more <= u64::MAX ==> counted(n, more) == n + more,
        (n + more - counted(n, more)) % 0x1_0000_0000_0000_0000 == 0,
{
}

/// A client is turned away at its first byte where that starts no handshake, and as soon as it has
/// sent more than any record may hold. Otherwise nothing is concluded before the whole record is
/// there, whose length its header gives; and then the name in it decides.
pub proof fn hellos_are_awaited_whole(bytes: Seq<u8>)
    requires
        bytes.len() > 0,
    ensures
        reading(bytes) is NotTls <==> bytes[0] != 0x16,
        reading(bytes) is TooLarge <==> bytes[0] == 0x16 && bytes.len() > 5 + 16 * 1024,
        reading(bytes) is More <==> {
            &&& bytes[0] == 0x16
            &&& bytes.len() <= 5 + 16 * 1024
            &&& bytes.len() < 5 || bytes.len() < 5 + 256 * bytes[3] + bytes[4]
        },
        bytes[0] == 0x16 && 5 <= bytes.len() <= 5 + 16 * 1024 && bytes.len() >= 5 + 256 * bytes[3]
            + bytes[4] ==> reading(bytes) == (match clienthello::server_name_spec(bytes) {
            Some(host) => Reading::Host(host),
            None => Reading::NoName,
        }),
{
}

} // verus!
