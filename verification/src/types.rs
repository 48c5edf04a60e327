//! Core data model of the rendezvous service: peer identities, namespaces,
//! multiaddresses, registrations and the service configuration.

use vstd::prelude::*;

verus! {

/// Longest namespace accepted by the service, in bytes.
pub const MAX_NAMESPACE_LEN: usize = 255;

/// Longest multiaddress text accepted by the service, in bytes.
pub const MAX_MULTIADDR_LEN: usize = 1024;

/// Identity of a peer, established by the transport handshake.
///
/// The identifier is opaque to the protocol engine: nothing but equality is
/// ever read from it, and it is never taken from a message payload — only
/// from the verified connection.
#[derive(Clone, Copy, PartialEq, Eq, Structural, Debug, Hash)]
pub struct PeerId {
    pub id: u64,
}

/// A namespace: a bounded, printable, case-sensitive byte string that scopes
/// registrations.
#[derive(Debug)]
pub struct Namespace {
    pub bytes: Vec<u8>,
}

/// A multiaddress: the textual form of a structured network endpoint
/// descriptor, such as a protocol stack with host and port.
#[derive(Debug)]
pub struct Multiaddr {
    pub bytes: Vec<u8>,
}

/// An ordered, deduplicated list of multiaddresses held by a registration.
#[derive(Debug)]
pub struct Addresses {
    pub items: Vec<Multiaddr>,
}

/// Pagination token: discovery resumes strictly after this ordinal.
#[derive(Clone, Copy, PartialEq, Eq, Structural, Debug)]
pub struct Cursor {
    pub last_ordinal: u64,
}

/// One active registration of a peer under a namespace.
#[derive(Debug)]
pub struct Registration {
    pub peer_id: PeerId,
    pub namespace: Namespace,
    pub addresses: Addresses,
    pub ttl_seconds: u64,
    pub registered_at: u64,
    pub ordinal: u64,
}

/// Mathematical model of a registration.
pub ghost struct RegV {
    pub peer: u64,
    pub ns: Seq<u8>,
    pub addrs: Seq<Seq<u8>>,
    pub ttl: u64,
    pub registered_at: u64,
    pub ordinal: u64,
}

impl View for Namespace {
    type V = Seq<u8>;

    open spec fn view(&self) -> Seq<u8> {
        self.bytes@
    }
}

impl View for Multiaddr {
    type V = Seq<u8>;

    open spec fn view(&self) -> Seq<u8> {
        self.bytes@
    }
}

/// The models of a sequence of multiaddresses.
pub open spec fn addr_views(s: Seq<Multiaddr>) -> Seq<Seq<u8>> {
    s.map_values(|a: Multiaddr| a@)
}

impl View for Addresses {
    type V = Seq<Seq<u8>>;

    open spec fn view(&self) -> Seq<Seq<u8>> {
        addr_views(self.items@)
    }
}

impl View for Registration {
    type V = RegV;

    open spec fn view(&self) -> RegV {
        RegV {
            peer: self.peer_id.id,
            ns: self.namespace@,
            addrs: self.addresses@,
            ttl: self.ttl_seconds,
            registered_at: self.registered_at,
            ordinal: self.ordinal,
        }
    }
}

/// A byte is printable ASCII (space through tilde).
pub open spec fn printable_byte(b: u8) -> bool {
    0x20 <= b <= 0x7e
}

/// A namespace is valid when non-empty, within the length bound, and printable.
pub open spec fn valid_namespace(ns: Seq<u8>) -> bool {
    &&& 0 < ns.len() <= MAX_NAMESPACE_LEN
    &&& forall|i: int| 0 <= i < ns.len() ==> printable_byte(#[trigger] ns[i])
}

/// A multiaddress text is valid when non-empty, within the length bound,
/// printable without spaces, and rooted at a path separator.
pub open spec fn valid_multiaddr(a: Seq<u8>) -> bool {
    &&& 0 < a.len() <= MAX_MULTIADDR_LEN
    &&& a[0] == 0x2fu8
    &&& forall|i: int| 0 <= i < a.len() ==> 0x21 <= #[trigger] a[i] <= 0x7e
}

impl Namespace {
    /// Whether this namespace passes registration validation.
    pub fn is_valid(&self) -> (r: bool)
        ensures
            r == valid_namespace(self@),
    {
        if self.bytes.len() == 0 || self.bytes.len() > MAX_NAMESPACE_LEN {
            return false;
        }
        let mut i: usize = 0;
        while i < self.bytes.len()
            invariant
                0 <= i <= self.bytes@.len(),
                forall|j: int| 0 <= j < i ==> printable_byte(#[trigger] self.bytes@[j]),
            decreases self.bytes@.len() - i,
        {
            let b = self.bytes[i];
            if b < 0x20 || b > 0x7e {
                return false;
            }
            i = i + 1;
        }
        true
    }

    /// An identical namespace value.
    pub fn duplicate(&self) -> (r: Self)
        ensures
            r@ == self@,
    {
        let bytes = self.bytes.clone();
        assert(bytes@ =~= self.bytes@);
        Namespace { bytes }
    }

    /// Byte-for-byte equality with another namespace.
    pub fn matches(&self, other: &Namespace) -> (r: bool)
        ensures
            r == (self@ == other@),
    {
        bytes_eq(&self.bytes, &other.bytes)
    }
}

impl Multiaddr {
    /// Whether this multiaddress passes registration validation.
    pub fn is_valid(&self) -> (r: bool)
        ensures
            r == valid_multiaddr(self@),
    {
        if self.bytes.len() == 0 || self.bytes.len() > MAX_MULTIADDR_LEN {
            return false;
        }
        if self.bytes[0] != 0x2f {
            return false;
        }
        let mut i: usize = 0;
        while i < self.bytes.len()
            invariant
                0 <= i <= self.bytes@.len(),
                forall|j: int| 0 <= j < i ==> 0x21 <= #[trigger] self.bytes@[j] <= 0x7e,
            decreases self.bytes@.len() - i,
        {
            let b = self.bytes[i];
            if b < 0x21 || b > 0x7e {
                return false;
            }
            i = i + 1;
        }
        true
    }

    /// An identical multiaddress value.
    pub fn duplicate(&self) -> (r: Self)
        ensures
            r@ == self@,
    {
        let bytes = self.bytes.clone();
        assert(bytes@ =~= self.bytes@);
        Multiaddr { bytes }
    }

    /// Byte-for-byte equality with another multiaddress.
    pub fn matches(&self, other: &Multiaddr) -> (r: bool)
        ensures
            r == (self@ == other@),
    {
        bytes_eq(&self.bytes, &other.bytes)
    }
}

/// Address texts joined with a comma between neighbours, as observers log a
/// registration's addresses.
pub open spec fn joined_with_commas(addrs: Seq<Seq<u8>>) -> Seq<u8>
    decreases addrs.len(),
{
    if addrs.len() == 0 {
        Seq::empty()
    } else if addrs.len() == 1 {
        addrs[0]
    } else {
        joined_with_commas(addrs.drop_last()) + seq![44u8] + addrs.last()
    }
}

impl Addresses {
    /// The address texts as one comma-separated byte string.
    pub fn joined(&self) -> (out: Vec<u8>)
        ensures
            out@ == joined_with_commas(self@),
    {
        let mut out: Vec<u8> = Vec::new();
        let mut i: usize = 0;
        while i < self.items.len()
            invariant
                0 <= i <= self.items@.len(),
                out@ == joined_with_commas(self@.take(i as int)),
            decreases self.items@.len() - i,
        {
            proof {
                assert(self@.take(i + 1).drop_last() =~= self@.take(i as int));
                assert(self@.take(i + 1).last() == self@[i as int]);
                assert(self@[i as int] == self.items@[i as int]@);
            }
            if i > 0 {
                out.push(44);
            }
            out.extend_from_slice(self.items[i].bytes.as_slice());
            proof {
                if i == 0 {
                    assert(out@ =~= joined_with_commas(self@.take(i + 1)));
                } else {
                    assert(out@ =~= joined_with_commas(self@.take(i as int)) + seq![44u8]
                        + self@[i as int]);
                }
            }
            i = i + 1;
        }
        proof {
            assert(self@.take(self.items@.len() as int) =~= self@);
        }
        out
    }

    /// An identical address list.
    pub fn duplicate(&self) -> (r: Self)
        ensures
            r@ == self@,
    {
        let mut items: Vec<Multiaddr> = Vec::new();
        let mut i: usize = 0;
        while i < self.items.len()
            invariant
                0 <= i <= self.items@.len(),
                items@.len() == i,
                forall|j: int| 0 <= j < i ==> (#[trigger] items@[j])@ == self.items@[j]@,
            decreases self.items@.len() - i,
        {
            items.push(self.items[i].duplicate());
            i = i + 1;
        }
        let r = Addresses { items };
        proof {
            assert(r@ =~= self@);
        }
        r
    }
}

impl Registration {
    /// An identical registration record.
    pub fn duplicate(&self) -> (r: Self)
        ensures
            r@ == self@,
    {
        Registration {
            peer_id: self.peer_id,
            namespace: self.namespace.duplicate(),
            addresses: self.addresses.duplicate(),
            ttl_seconds: self.ttl_seconds,
            registered_at: self.registered_at,
            ordinal: self.ordinal,
        }
    }
}

/// Why a registration request was rejected.
#[derive(Clone, Copy, PartialEq, Eq, Structural, Debug)]
pub enum RegisterError {
    /// The namespace failed validation.
    InvalidNamespace,
    /// The address list was empty or held a malformed multiaddress.
    InvalidAddress,
    /// The per-peer registration cap was reached.
    Throttled,
}

impl RegisterError {
    /// Whether the rejection came from input validation rather than from the
    /// registration cap.
    pub open spec fn spec_is_validation(self) -> bool {
        self != RegisterError::Throttled
    }

    /// A short human-readable reason, as reported to observers.
    pub fn reason(&self) -> (r: &'static str)
    {
        match self {
            RegisterError::InvalidNamespace => "invalid namespace",
            RegisterError::InvalidAddress => "invalid address",
            RegisterError::Throttled => "registration cap exceeded",
        }
    }
}

/// Service policy: TTL clamping bounds, the default TTL, and resource caps.
#[derive(Clone, Copy, PartialEq, Eq, Structural, Debug)]
pub struct Config {
    /// Shortest TTL granted, in seconds.
    pub min_ttl: u64,
    /// TTL granted when a request names none, in seconds.
    pub default_ttl: u64,
    /// Longest TTL granted, in seconds; longer requests are clamped, not rejected.
    pub max_ttl: u64,
    /// Most simultaneous registrations a single peer may hold.
    pub max_registrations_per_peer: u64,
    /// Most registrations one discovery response may carry.
    pub max_discover_limit: u64,
    /// Whether registrations outlive their originating connection. When
    /// `false`, a peer's registrations are dropped as soon as its connection
    /// closes instead of surviving until their TTL elapses.
    pub keep_registrations_on_disconnect: bool,
}

impl Config {
    /// The TTL bounds are ordered and the default lies between them.
    pub open spec fn wf(self) -> bool {
        &&& self.min_ttl <= self.default_ttl <= self.max_ttl
        &&& self.max_discover_limit > 0
    }
}

impl Default for Config {
    /// Two-hour default TTL, clamped between zero and seventy-two hours,
    /// moderate resource caps, and registrations that survive their
    /// originating connection.
    fn default() -> (c: Config)
        ensures
            c == (Config {
                min_ttl: 0u64,
                default_ttl: 7200u64,
                max_ttl: 259200u64,
                max_registrations_per_peer: 100u64,
                max_discover_limit: 100u64,
                keep_registrations_on_disconnect: true,
            }),
            c.wf(),
    {
        Config {
            min_ttl: 0,
            default_ttl: 7200,
            max_ttl: 259200,
            max_registrations_per_peer: 100,
            max_discover_limit: 100,
            keep_registrations_on_disconnect: true,
        }
    }
}

/// The TTL granted for a request: the requested value, or the configured
/// default when absent, clamped into the configured bounds.
pub open spec fn clamped_ttl(requested: Option<u64>, c: Config) -> u64 {
    let wanted = match requested {
        Some(t) => t,
        None => c.default_ttl,
    };
    if wanted < c.min_ttl {
        c.min_ttl
    } else if wanted > c.max_ttl {
        c.max_ttl
    } else {
        wanted
    }
}

/// Byte-for-byte equality of two byte vectors.
pub fn bytes_eq(a: &Vec<u8>, b: &Vec<u8>) -> (r: bool)
    ensures
        r == (a@ == b@),
{
    if a.len() != b.len() {
        assert(a@ != b@);
        return false;
    }
    let mut i: usize = 0;
    while i < a.len()
        invariant
            a@.len() == b@.len(),
            0 <= i <= a@.len(),
            forall|j: int| 0 <= j < i ==> a@[j] == b@[j],
        decreases a@.len() - i,
    {
        if a[i] != b[i] {
            return false;
        }
        i = i + 1;
    }
    assert(a@ =~= b@);
    true
}

} // verus!
