//! Lifecycle events emitted by the registration store.
//!
//! Every mutation of the store appends to a typed event stream which an
//! observability collaborator drains; the engine makes no assumption about
//! how the events are consumed.

use vstd::prelude::*;

use crate::types::{Namespace, PeerId, RegisterError, Registration, RegV};

verus! {

/// A structured lifecycle event.
#[derive(Debug)]
pub enum Event {
    /// A registration was created or renewed.
    PeerRegistered { peer: PeerId, registration: Registration },
    /// A registration request was rejected; the store is unchanged.
    PeerNotRegistered { peer: PeerId, namespace: Namespace, reason: RegisterError },
    /// A peer asked for its registration under a namespace to be removed.
    PeerUnregistered { peer: PeerId, namespace: Namespace },
    /// A registration reached its TTL and was evicted; carries the evicted record.
    RegistrationExpired { registration: Registration },
    /// A discovery query was answered.
    DiscoverServed { enquirer: PeerId },
}

/// Mathematical model of an event.
pub ghost enum EventV {
    PeerRegistered { peer: u64, registration: RegV },
    PeerNotRegistered { peer: u64, ns: Seq<u8>, reason: RegisterError },
    PeerUnregistered { peer: u64, ns: Seq<u8> },
    RegistrationExpired { registration: RegV },
    DiscoverServed { enquirer: u64 },
}

impl View for Event {
    type V = EventV;

    open spec fn view(&self) -> EventV {
        match self {
            Event::PeerRegistered { peer, registration } => EventV::PeerRegistered {
                peer: peer.id,
                registration: registration@,
            },
            Event::PeerNotRegistered { peer, namespace, reason } => EventV::PeerNotRegistered {
                peer: peer.id,
                ns: namespace@,
                reason: *reason,
            },
            Event::PeerUnregistered { peer, namespace } => EventV::PeerUnregistered {
                peer: peer.id,
                ns: namespace@,
            },
            Event::RegistrationExpired { registration } => EventV::RegistrationExpired {
                registration: registration@,
            },
            Event::DiscoverServed { enquirer } => EventV::DiscoverServed { enquirer: enquirer.id },
        }
    }
}

/// The models of a sequence of events.
pub open spec fn events_view(s: Seq<Event>) -> Seq<EventV> {
    s.map_values(|e: Event| e@)
}

} // verus!
