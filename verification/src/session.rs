//! Per-stream protocol dispatch.
//!
//! Each logical stream of a secured connection carries one request/response
//! exchange: the stream is opened, one frame is decoded by the codec
//! collaborator, the request is dispatched to the registration store under
//! the connection's verified peer identity, the response goes back on the
//! same stream, and the stream closes. A malformed or oversized frame closes
//! only that stream with a protocol error; the connection, its sibling
//! streams and the store are untouched.

use vstd::prelude::*;

use crate::events::{events_view, EventV};
use crate::store::{
    cursor_start, discoverable, effective_limit, page_of, regs_view, valid_addr_list,
    without_pair, Store,
};
use crate::types::{
    addr_views, clamped_ttl, valid_namespace, Cursor, Multiaddr, Namespace, PeerId,
    RegisterError, Registration,
};

verus! {

/// Largest frame a stream accepts, in bytes.
pub const MAX_FRAME_SIZE: usize = 1048576;

/// One decoded protocol request.
#[derive(Debug)]
pub enum Request {
    Register { namespace: Namespace, addresses: Vec<Multiaddr>, ttl: Option<u64> },
    Unregister { namespace: Namespace },
    Discover { namespace: Option<Namespace>, cursor: Option<Cursor>, limit: Option<u64> },
}

/// The response returned on the stream the request arrived on.
#[derive(Debug)]
pub enum Response {
    /// The registration was accepted; carries the granted (clamped) TTL.
    Registered { ttl: u64 },
    /// The registration was rejected; the store is unchanged.
    RegisterFailed { error: RegisterError },
    /// The unregistration was processed.
    Unregistered,
    /// One page of matching registrations and the cursor to resume after.
    Discovered { registrations: Vec<Registration>, next_cursor: Cursor },
}

/// Why a stream was closed without a response.
#[derive(Clone, Copy, PartialEq, Eq, Structural, Debug)]
pub enum ProtocolError {
    /// The frame exceeded the size bound.
    OversizedFrame,
    /// The frame did not decode to a request.
    MalformedFrame,
}

/// The lifecycle of one logical stream.
#[derive(Clone, Copy, PartialEq, Eq, Structural, Debug)]
pub enum StreamPhase {
    Idle,
    AwaitingRequest,
    Processing,
    ResponseSent,
    Closed,
}

/// One logical stream of a connection, carrying one exchange.
#[derive(Debug)]
pub struct LogicalStream {
    pub phase: StreamPhase,
}

/// What dispatching `request` for `peer` at `now` does to the store and
/// answers: the exact relation between the store before, the store after,
/// and the response.
pub open spec fn dispatch_effect(
    pre: Store,
    post: Store,
    peer: PeerId,
    request: Request,
    now: u64,
    resp: Response,
) -> bool {
    match request {
        Request::Register { namespace, addresses, ttl } => {
            if valid_namespace(namespace@) && valid_addr_list(addr_views(addresses@))
                && pre.admits(peer.id, namespace@) {
                let nr = pre.fresh_record(peer.id, namespace@, addr_views(addresses@), ttl, now);
                &&& resp == Response::Registered { ttl: clamped_ttl(ttl, pre.config) }
                &&& post.regs() == without_pair(pre.regs(), peer.id, namespace@).push(nr)
                &&& post.next_ordinal == pre.next_ordinal + 1
                &&& events_view(post.events@) == events_view(pre.events@).push(
                    EventV::PeerRegistered { peer: peer.id, registration: nr },
                )
            } else {
                let err = if !valid_namespace(namespace@) {
                    RegisterError::InvalidNamespace
                } else if !valid_addr_list(addr_views(addresses@)) {
                    RegisterError::InvalidAddress
                } else {
                    RegisterError::Throttled
                };
                &&& resp == Response::RegisterFailed { error: err }
                &&& post.regs() == pre.regs()
                &&& post.next_ordinal == pre.next_ordinal
                &&& events_view(post.events@) == events_view(pre.events@).push(
                    EventV::PeerNotRegistered { peer: peer.id, ns: namespace@, reason: err },
                )
            }
        },
        Request::Unregister { namespace } => {
            &&& resp == Response::Unregistered
            &&& post.regs() == without_pair(pre.regs(), peer.id, namespace@)
            &&& post.next_ordinal == pre.next_ordinal
            &&& events_view(post.events@) == events_view(pre.events@).push(
                EventV::PeerUnregistered { peer: peer.id, ns: namespace@ },
            )
        },
        Request::Discover { namespace, cursor, limit } => {
            let nsv = match namespace {
                Some(n) => Some(n@),
                None => None,
            };
            let found = discoverable(pre.regs(), nsv, now, cursor_start(cursor));
            let page = page_of(found, effective_limit(limit, pre.config) as int);
            &&& resp matches Response::Discovered { registrations, next_cursor }
                && regs_view(registrations@) == page && next_cursor == (Cursor {
                last_ordinal: if page.len() == 0 {
                    cursor_start(cursor)
                } else {
                    page.last().ordinal
                },
            })
            &&& post.regs() == pre.regs()
            &&& post.next_ordinal == pre.next_ordinal
            &&& events_view(post.events@) == events_view(pre.events@).push(
                EventV::DiscoverServed { enquirer: peer.id },
            )
        },
    }
}

/// Dispatch one decoded request to the store as a single atomic operation,
/// under the connection-verified peer identity, and build the response.
pub fn handle_request(store: &mut Store, peer: PeerId, request: Request, now: u64) -> (resp:
    Response)
    requires
        old(store).wf(),
        old(store).next_ordinal < u64::MAX,
    ensures
        final(store).wf(),
        final(store).config == old(store).config,
        dispatch_effect(*old(store), *final(store), peer, request, now, resp),
{
    match request {
        Request::Register { namespace, addresses, ttl } => {
            let outcome = store.register(peer, namespace, addresses, ttl, now);
            match outcome {
                Ok(record) => Response::Registered { ttl: record.ttl_seconds },
                Err(error) => Response::RegisterFailed { error },
            }
        },
        Request::Unregister { namespace } => {
            store.unregister(peer, &namespace);
            Response::Unregistered
        },
        Request::Discover { namespace, cursor, limit } => {
            let answer = match &namespace {
                Some(ns) => store.discover(Some(ns), cursor, limit, now, peer),
                None => store.discover(None, cursor, limit, now, peer),
            };
            Response::Discovered { registrations: answer.0, next_cursor: answer.1 }
        },
    }
}

impl LogicalStream {
    /// A freshly allocated stream that is not yet ready for a request.
    pub fn idle() -> (s: LogicalStream)
        ensures
            s.phase == StreamPhase::Idle,
    {
        LogicalStream { phase: StreamPhase::Idle }
    }

    /// Make the stream ready to receive its one request.
    pub fn open(&mut self)
        requires
            old(self).phase == StreamPhase::Idle,
        ensures
            final(self).phase == StreamPhase::AwaitingRequest,
    {
        self.phase = StreamPhase::AwaitingRequest;
    }

    /// Carry one frame through the stream's whole lifecycle.
    ///
    /// An oversized frame, or one the codec could not decode (`None`), closes
    /// the stream with a protocol error and leaves the store untouched.
    /// Otherwise the request is processed as one atomic store operation and
    /// the response is returned for this stream; the stream is closed either
    /// way, one exchange per stream.
    pub fn serve_frame(
        &mut self,
        store: &mut Store,
        peer: PeerId,
        frame_len: usize,
        decoded: Option<Request>,
        now: u64,
    ) -> (out: Result<Response, ProtocolError>)
        requires
            old(self).phase == StreamPhase::AwaitingRequest,
            old(store).wf(),
            old(store).next_ordinal < u64::MAX,
        ensures
            final(self).phase == StreamPhase::Closed,
            final(store).wf(),
            final(store).config == old(store).config,
            frame_len > MAX_FRAME_SIZE ==> out == Result::<Response, ProtocolError>::Err(
                ProtocolError::OversizedFrame,
            ) && *final(store) == *old(store),
            frame_len <= MAX_FRAME_SIZE && decoded is None ==> out == Result::<
                Response,
                ProtocolError,
            >::Err(ProtocolError::MalformedFrame) && *final(store) == *old(store),
            frame_len <= MAX_FRAME_SIZE && decoded is Some ==> out is Ok && dispatch_effect(
                *old(store),
                *final(store),
                peer,
                decoded->0,
                now,
                out->Ok_0,
            ),
    {
        if frame_len > MAX_FRAME_SIZE {
            self.phase = StreamPhase::Closed;
            return Err(ProtocolError::OversizedFrame);
        }
        let request = match decoded {
            Some(request) => request,
            None => {
                self.phase = StreamPhase::Closed;
                return Err(ProtocolError::MalformedFrame);
            },
        };
        self.phase = StreamPhase::Processing;
        let resp = handle_request(store, peer, request, now);
        self.phase = StreamPhase::ResponseSent;
        self.phase = StreamPhase::Closed;
        Ok(resp)
    }
}

/// One connection's session: the verified peer and the stream budget.
///
/// A session is owned by its connection and released on disconnect;
/// registrations do not depend on it and survive until their TTL elapses.
#[derive(Debug)]
pub struct Session {
    pub peer: PeerId,
    pub open_streams: u64,
    pub max_streams: u64,
}

impl Session {
    /// A fresh session for a connection verified as `peer`, allowing at most
    /// `max_streams` concurrent streams.
    pub fn new(peer: PeerId, max_streams: u64) -> (s: Session)
        ensures
            s.peer == peer,
            s.open_streams == 0,
            s.max_streams == max_streams,
    {
        Session { peer, open_streams: 0, max_streams }
    }

    /// Open a logical stream, unless the per-connection cap is reached.
    pub fn try_open_stream(&mut self) -> (r: Option<LogicalStream>)
        ensures
            final(self).peer == old(self).peer,
            final(self).max_streams == old(self).max_streams,
            old(self).open_streams < old(self).max_streams ==> (r matches Some(stream)
                && stream.phase == StreamPhase::AwaitingRequest) && final(self).open_streams
                == old(self).open_streams + 1,
            old(self).open_streams >= old(self).max_streams ==> r is None
                && final(self).open_streams == old(self).open_streams,
    {
        if self.open_streams < self.max_streams {
            self.open_streams = self.open_streams + 1;
            let mut stream = LogicalStream::idle();
            stream.open();
            Some(stream)
        } else {
            None
        }
    }

    /// Record that one of this session's streams closed.
    pub fn stream_closed(&mut self)
        requires
            old(self).open_streams > 0,
        ensures
            final(self).peer == old(self).peer,
            final(self).max_streams == old(self).max_streams,
            final(self).open_streams == old(self).open_streams - 1,
    {
        self.open_streams = self.open_streams - 1;
    }
}

} // verus!
