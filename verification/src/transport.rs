//! Decision logic of the secure transport composition.
//!
//! A raw connection is upgraded by a mutual authenticated key exchange and a
//! stream multiplexer negotiation before any protocol message flows. The
//! cryptographic work — the key exchange itself, the derived session keys,
//! the encrypted framing — is the transport collaborator's; what is decided
//! here, and verified, is the composition: the handshake deadline is
//! enforced, the verified peer identity is bound to the connection as the
//! sole source of identity, and one multiplexing scheme is fixed for the
//! connection's whole lifetime by deterministic preference-order
//! negotiation.

use vstd::prelude::*;

use crate::types::PeerId;

verus! {

/// How long a handshake may take before the connection is refused, in
/// seconds.
pub const HANDSHAKE_TIMEOUT_SECS: u64 = 20;

/// A stream-multiplexing scheme the transport can speak.
#[derive(Clone, Copy, PartialEq, Eq, Structural, Debug)]
pub enum Multiplexer {
    Yamux,
    Mplex,
}

/// Why securing a connection failed. The failure refuses only this
/// connection and is never retried by the engine.
#[derive(Clone, Copy, PartialEq, Eq, Structural, Debug)]
pub enum HandshakeError {
    /// The handshake outlived its deadline.
    Timeout,
    /// The key exchange did not verify the remote's identity.
    AuthenticationFailed,
    /// The two sides support no multiplexing scheme in common.
    NoCommonMultiplexer,
}

/// An authenticated, multiplexed connection: the verified peer identity and
/// the multiplexer fixed at handshake time, immutable for the connection's
/// lifetime.
#[derive(Clone, Copy, PartialEq, Eq, Structural, Debug)]
pub struct SecureConnection {
    pub peer: PeerId,
    pub multiplexer: Multiplexer,
    pub established_at: u64,
}

/// The first scheme of `local`, taken in preference order from position
/// `at`, that `remote` also supports.
pub open spec fn first_common_from(
    local: Seq<Multiplexer>,
    remote: Seq<Multiplexer>,
    at: int,
) -> Option<Multiplexer>
    decreases local.len() - at,
{
    if at < 0 || at >= local.len() {
        None
    } else if remote.contains(local[at]) {
        Some(local[at])
    } else {
        first_common_from(local, remote, at + 1)
    }
}

/// The multiplexer a negotiation fixes: the first of the local preference
/// list that the remote also offers.
pub open spec fn negotiated(local: Seq<Multiplexer>, remote: Seq<Multiplexer>) -> Option<
    Multiplexer,
> {
    first_common_from(local, remote, 0)
}

/// Pick the multiplexer for a connection: the first scheme of the local
/// preference list that the remote offers, or `None` when the two sides
/// share none.
pub fn negotiate_multiplexer(local: &Vec<Multiplexer>, remote: &Vec<Multiplexer>) -> (r: Option<
    Multiplexer,
>)
    ensures
        r == negotiated(local@, remote@),
{
    let mut i: usize = 0;
    while i < local.len()
        invariant
            0 <= i <= local@.len(),
            negotiated(local@, remote@) == first_common_from(local@, remote@, i as int),
        decreases local@.len() - i,
    {
        let candidate = local[i];
        let mut offered = false;
        let mut j: usize = 0;
        while j < remote.len()
            invariant
                0 <= j <= remote@.len(),
                i < local@.len(),
                candidate == local@[i as int],
                offered == exists|k: int| 0 <= k < j && #[trigger] remote@[k] == candidate,
            decreases remote@.len() - j,
        {
            if remote[j] == candidate {
                offered = true;
                proof {
                    assert(remote@[j as int] == candidate);
                }
            }
            j = j + 1;
        }
        proof {
            if offered {
                let k = choose|k: int| 0 <= k < remote@.len() && #[trigger] remote@[k] == candidate;
                assert(remote@.contains(candidate));
            } else {
                if remote@.contains(candidate) {
                    let k = choose|k: int|
                        0 <= k < remote@.len() && remote@[k] == candidate;
                }
            }
        }
        if offered {
            return Some(candidate);
        }
        i = i + 1;
    }
    None
}

/// Conclude a handshake from its observed outcome: the instant it started,
/// the instant it finished, the identity the key exchange verified (if it
/// did), and the two sides' multiplexer preference lists.
///
/// A handshake past its deadline is refused with a timeout whatever else
/// happened; an unverified remote is refused; otherwise the connection is
/// fixed once with the verified peer and the negotiated multiplexer. The
/// transport collaborator performs the exchange itself and feeds every
/// outcome through this decision, so no unauthenticated identity can reach
/// the protocol engine.
pub fn complete_handshake(
    started_at: u64,
    now: u64,
    verified_peer: Option<PeerId>,
    local_muxers: &Vec<Multiplexer>,
    remote_muxers: &Vec<Multiplexer>,
) -> (r: Result<SecureConnection, HandshakeError>)
    requires
        started_at <= now,
    ensures
        now - started_at > HANDSHAKE_TIMEOUT_SECS ==> r == Result::<
            SecureConnection,
            HandshakeError,
        >::Err(HandshakeError::Timeout),
        now - started_at <= HANDSHAKE_TIMEOUT_SECS && verified_peer is None ==> r == Result::<
            SecureConnection,
            HandshakeError,
        >::Err(HandshakeError::AuthenticationFailed),
        now - started_at <= HANDSHAKE_TIMEOUT_SECS && verified_peer is Some && negotiated(
            local_muxers@,
            remote_muxers@,
        ) is None ==> r == Result::<SecureConnection, HandshakeError>::Err(
            HandshakeError::NoCommonMultiplexer,
        ),
        now - started_at <= HANDSHAKE_TIMEOUT_SECS && verified_peer is Some && negotiated(
            local_muxers@,
            remote_muxers@,
        ) is Some ==> r == Result::<SecureConnection, HandshakeError>::Ok(
            SecureConnection {
                peer: verified_peer->0,
                multiplexer: negotiated(local_muxers@, remote_muxers@)->0,
                established_at: now,
            },
        ),
{
    if now - started_at > HANDSHAKE_TIMEOUT_SECS {
        return Err(HandshakeError::Timeout);
    }
    let peer = match verified_peer {
        Some(p) => p,
        None => {
            return Err(HandshakeError::AuthenticationFailed);
        },
    };
    match negotiate_multiplexer(local_muxers, remote_muxers) {
        Some(multiplexer) => Ok(SecureConnection { peer, multiplexer, established_at: now }),
        None => Err(HandshakeError::NoCommonMultiplexer),
    }
}

} // verus!
