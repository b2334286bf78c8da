//! The per-connection handler: request/response pairing, idle timeout and
//! the dispatch of inbound requests.
use vstd::prelude::*;
use core::marker::PhantomData;
use crate::message::{ConnectionType, Peer, PeerView, RequestMsg, ResponseMsg, MessageView};
use crate::wire::message_bytes;
use crate::codec::{CodecError, encode_request_frame, frame_bytes};
use crate::protocol::OverlayProtocolConfig;
use crate::store::{
    PeerStore, has_id, others, first_k, marked, connected, same_record, merge_addrs, is_nearest,
};
use crate::mesh::{
    MeshView, without, mesh_consistent, lemma_connect_keeps_consistency,
    lemma_close_keeps_consistency, lemma_prune_keeps_consistency,
};

verus! {

/// Settings of a handler, fixed when it is made. The idle timeout is in
/// milliseconds.
#[derive(Debug)]
pub struct OverlayHandlerConfig {
    pub protocol_config: OverlayProtocolConfig,
    pub allow_listening: bool,
    pub idle_timeout: u64,
}

/// Builds connection handlers from one configuration.
#[derive(Debug)]
pub struct OverlayHandlerProto<T> {
    pub config: OverlayHandlerConfig,
    pub _type: PhantomData<T>,
}

impl<T> OverlayHandlerProto<T> {
    pub fn new(config: OverlayHandlerConfig) -> (r: Self)
        ensures
            r.config == config,
    {
        OverlayHandlerProto { config, _type: PhantomData }
    }
}

/// Where a connection stands.
#[derive(Clone, Copy, Debug, PartialEq, Eq, Structural)]
pub enum HandlerState {
    Negotiating,
    Idle,
    AwaitingResponse,
    Closed,
}

/// Local, recoverable failures of a handler.
#[derive(Clone, Copy, Debug, PartialEq, Eq, Structural)]
pub enum HandlerError {
    /// A request is already outstanding; try again later.
    RequestInFlight,
    /// Nothing was heard within the idle timeout; the connection is closed.
    IdleTimeout,
    /// The connection is not in a state that takes this step.
    Refused,
    /// The request could not be framed.
    Codec(CodecError),
}

/// The handler of one connection with one remote peer.
#[derive(Debug)]
pub struct ConnectionHandler {
    pub state: HandlerState,
    pub peer_id: Vec<u8>,
    pub allow_listening: bool,
    pub idle_timeout: u64,
    pub max_packet_size: usize,
    /// Most members the mesh may have for an inbound graft to be taken.
    pub high_watermark: usize,
    /// Most peers one neighbour list holds.
    pub neighbor_limit: usize,
    /// Time of the last message seen, in milliseconds.
    pub last_activity: u64,
}

/// Whether a connection has been quiet for longer than its timeout at `now`.
pub open spec fn timed_out(h: ConnectionHandler, now: u64) -> bool {
    (h.state == HandlerState::Idle || h.state == HandlerState::AwaitingResponse) && now
        >= h.last_activity && now - h.last_activity > h.idle_timeout
}

impl ConnectionHandler {
    /// A handler for a connection that is being negotiated.
    pub fn new(
        config: &OverlayHandlerConfig,
        peer_id: Vec<u8>,
        high_watermark: usize,
        neighbor_limit: usize,
        now: u64,
    ) -> (r: ConnectionHandler)
        ensures
            r.state == HandlerState::Negotiating,
            r.peer_id@ == peer_id@,
            r.allow_listening == config.allow_listening,
            r.idle_timeout == config.idle_timeout,
            r.max_packet_size == config.protocol_config.max_packet_size,
            r.high_watermark == high_watermark,
            r.neighbor_limit == neighbor_limit,
            r.last_activity == now,
    {
        ConnectionHandler {
            state: HandlerState::Negotiating,
            peer_id,
            allow_listening: config.allow_listening,
            idle_timeout: config.idle_timeout,
            max_packet_size: config.protocol_config.max_packet_size,
            high_watermark,
            neighbor_limit,
            last_activity: now,
        }
    }

    /// The handshake picked a protocol: the connection becomes idle.
    pub fn on_negotiated(&mut self, now: u64) -> (r: Result<(), HandlerError>)
        ensures
            old(self).state == HandlerState::Negotiating ==> r is Ok && *final(self) == (
            ConnectionHandler { state: HandlerState::Idle, last_activity: now, ..*old(self) }),
            old(self).state != HandlerState::Negotiating ==> r == Err::<(), HandlerError>(
                HandlerError::Refused,
            ) && *final(self) == *old(self),
    {
        if self.state == HandlerState::Negotiating {
            self.state = HandlerState::Idle;
            self.last_activity = now;
            Ok(())
        } else {
            Err(HandlerError::Refused)
        }
    }

    /// The handshake failed: the connection is closed.
    pub fn on_negotiation_failed(&mut self)
        ensures
            *final(self) == (ConnectionHandler { state: HandlerState::Closed, ..*old(self) }),
    {
        self.state = HandlerState::Closed;
    }

    /// Frames a request to send. Only an idle connection sends; while a
    /// request is outstanding the answer is `RequestInFlight` and nothing is
    /// framed.
    pub fn send_request(&mut self, req: &RequestMsg, now: u64) -> (r: Result<Vec<u8>, HandlerError>)
        ensures
            old(self).state == HandlerState::AwaitingResponse ==> r == Err::<Vec<u8>, HandlerError>(
                HandlerError::RequestInFlight,
            ) && *final(self) == *old(self),
            (old(self).state == HandlerState::Negotiating || old(self).state
                == HandlerState::Closed) ==> r == Err::<Vec<u8>, HandlerError>(
                HandlerError::Refused,
            ) && *final(self) == *old(self),
            old(self).state == HandlerState::Idle && message_bytes(req@).len()
                > old(self).max_packet_size ==> r == Err::<Vec<u8>, HandlerError>(
                HandlerError::Codec(CodecError::FrameTooLarge),
            ) && *final(self) == *old(self),
            old(self).state == HandlerState::Idle && message_bytes(req@).len()
                <= old(self).max_packet_size ==> (r matches Ok(f) && f@ == frame_bytes(
                message_bytes(req@),
            )) && *final(self) == (ConnectionHandler {
                state: HandlerState::AwaitingResponse,
                last_activity: now,
                ..*old(self)
            }),
    {
        match self.state {
            HandlerState::AwaitingResponse => Err(HandlerError::RequestInFlight),
            HandlerState::Idle => match encode_request_frame(req, self.max_packet_size) {
                Ok(f) => {
                    self.state = HandlerState::AwaitingResponse;
                    self.last_activity = now;
                    Ok(f)
                },
                Err(e) => Err(HandlerError::Codec(e)),
            },
            _ => Err(HandlerError::Refused),
        }
    }

    /// The response to the outstanding request arrived.
    pub fn on_response(&mut self, now: u64) -> (r: Result<(), HandlerError>)
        ensures
            old(self).state == HandlerState::AwaitingResponse ==> r is Ok && *final(self) == (
            ConnectionHandler { state: HandlerState::Idle, last_activity: now, ..*old(self) }),
            old(self).state != HandlerState::AwaitingResponse ==> r == Err::<(), HandlerError>(
                HandlerError::Refused,
            ) && *final(self) == *old(self),
    {
        if self.state == HandlerState::AwaitingResponse {
            self.state = HandlerState::Idle;
            self.last_activity = now;
            Ok(())
        } else {
            Err(HandlerError::Refused)
        }
    }

    /// Checks the idle timeout at time `now`. A connection quiet for longer
    /// than the timeout is closed, its peer marked not connected and taken
    /// out of the mesh.
    pub fn poll_timeout(&mut self, now: u64, store: &mut PeerStore, mesh: &mut MeshView) -> (r:
        Result<(), HandlerError>)
        ensures
            timed_out(*old(self), now) ==> {
                &&& r == Err::<(), HandlerError>(HandlerError::IdleTimeout)
                &&& *final(self) == (ConnectionHandler {
                    state: HandlerState::Closed,
                    ..*old(self)
                })
                &&& marked(
                    old(store).records@,
                    final(store).records@,
                    old(self).peer_id@,
                    ConnectionType::NotConnected,
                )
                &&& final(mesh).ids() == without(old(mesh).ids(), old(self).peer_id@)
            },
            !timed_out(*old(self), now) ==> r is Ok && *final(self) == *old(self) && *final(store)
                == *old(store) && *final(mesh) == *old(mesh),
            mesh_consistent(old(store).records@, old(mesh).ids(), old(self).high_watermark as nat)
                ==> mesh_consistent(
                final(store).records@,
                final(mesh).ids(),
                old(self).high_watermark as nat,
            ),
    {
        let quiet = match self.state {
            HandlerState::Idle | HandlerState::AwaitingResponse => now >= self.last_activity && now
                - self.last_activity > self.idle_timeout,
            _ => false,
        };
        if quiet {
            let ghost o = store.records@;
            let ghost m = mesh.ids();
            self.state = HandlerState::Closed;
            store.mark_state(self.peer_id.as_slice(), ConnectionType::NotConnected);
            mesh.remove(self.peer_id.as_slice());
            proof {
                if mesh_consistent(o, m, self.high_watermark as nat) {
                    lemma_close_keeps_consistency(
                        o,
                        store.records@,
                        m,
                        self.high_watermark as nat,
                        self.peer_id@,
                        ConnectionType::NotConnected,
                    );
                }
            }
            Err(HandlerError::IdleTimeout)
        } else {
            Ok(())
        }
    }
}

} // verus!

verus! {

/// Records `peer` and marks it connected.
fn connect_peer(store: &mut PeerStore, peer: Peer, now: u64)
    ensures
        connected(old(store).records@, final(store).records@, peer@, now),
        has_id(final(store).records@, peer.id@),
{
    let id = crate::message::copy_bytes(peer.id.as_slice());
    let ghost pv = peer@;
    let ghost o = store.records@;
    let ghost had = has_id(o, pv.id);
    store.upsert(peer, 0, now);
    let ghost mid = store.records@;
    proof {
        if !had {
            assert(mid[mid.len() - 1].peer.id@ == pv.id);
        }
    }
    assert(has_id(mid, id@));
    let ghost w = choose|i: int| 0 <= i < mid.len() && #[trigger] mid[i].peer.id@ == id@;
    store.mark_state(id.as_slice(), ConnectionType::Connected);
    let ghost n = store.records@;
    proof {
        assert(n[w].peer.id@ == mid[w].peer.id@);
        assert(has_id(n, pv.id));
        assert forall|i: int| 0 <= i < o.len() implies n[i].peer.id@ == (#[trigger] o[i]).peer.id@ by {
            assert(mid[i].peer.id@ == o[i].peer.id@);
            assert(n[i].peer@.id == mid[i].peer@.id);
        }
        assert forall|i: int| 0 <= i < o.len() && (#[trigger] o[i]).peer.id@ != pv.id implies same_record(
            o[i],
            n[i],
        ) by {
            assert(mid[i].peer.id@ == o[i].peer.id@);
            assert(same_record(mid[i], n[i]));
        }
        assert forall|i: int|
            0 <= i < n.len() && (#[trigger] n[i]).peer.id@ == pv.id implies n[i].peer.conn_type
            == ConnectionType::Connected by {
            assert(n[i].peer@.id == mid[i].peer@.id);
        }
        if !had {
            assert(n.last() == n[mid.len() - 1]);
            assert(mid[mid.len() - 1].peer.id@ == pv.id);
        }
        assert forall|i: int|
            0 <= i < o.len() && (#[trigger] o[i]).peer.id@ == pv.id && (forall|j: int|
                0 <= j < i ==> (#[trigger] o[j]).peer.id@ != pv.id) implies n[i].peer@.addrs
            == merge_addrs(o[i].peer@.addrs, pv.addrs) && n[i].last_seen == now by {
            assert(had);
            assert(n[i].peer@.addrs == mid[i].peer@.addrs);
        }
    }
}

pub open spec fn is_active(s: HandlerState) -> bool {
    s == HandlerState::Idle || s == HandlerState::AwaitingResponse
}

impl ConnectionHandler {
    /// Answers a request from the remote peer. Requests on a connection
    /// that is not established are ignored. Only the state (closed after a
    /// disconnect) and the time of last activity of the handler change.
    #[verifier::rlimit(60)]
    pub fn handle_request(
        &mut self,
        req: RequestMsg,
        store: &mut PeerStore,
        mesh: &mut MeshView,
        now: u64,
    ) -> (r: Option<ResponseMsg>)
        ensures
            !is_active(old(self).state) ==> r is None && *final(self) == *old(self) && *final(store)
                == *old(store) && *final(mesh) == *old(mesh),
            is_active(old(self).state) ==> *final(self) == (ConnectionHandler {
                state: if req@ == MessageView::Disconnect {
                    HandlerState::Closed
                } else {
                    old(self).state
                },
                last_activity: now,
                ..*old(self)
            }),
            is_active(old(self).state) && req@ == MessageView::Ping ==> (r matches Some(x) && x@
                == MessageView::Pong) && *final(store) == *old(store) && *final(mesh) == *old(mesh),
            is_active(old(self).state) && req@ == MessageView::Connect ==> (r matches Some(x) && x@
                == MessageView::ConnectAck(old(self).allow_listening)) && *final(mesh) == *old(mesh),
            is_active(old(self).state) && req@ == MessageView::Connect && !old(self).allow_listening
                ==> *final(store) == *old(store),
            is_active(old(self).state) && req@ == MessageView::Connect && old(self).allow_listening
                ==> connected(
                old(store).records@,
                final(store).records@,
                PeerView {
                    id: old(self).peer_id@,
                    addrs: Seq::empty(),
                    conn_type: ConnectionType::Connected,
                },
                now,
            ),
            is_active(old(self).state) && req@ == MessageView::Disconnect ==> r is None && final(
                mesh).ids() == without(old(mesh).ids(), old(self).peer_id@) && marked(
                old(store).records@,
                final(store).records@,
                old(self).peer_id@,
                ConnectionType::NotConnected,
            ),
            is_active(old(self).state) ==> (req@ matches MessageView::FindNode(t) ==> (r matches Some(
                x,
            ) && x@ == MessageView::Neighbors(
                first_k(others(old(store).records@, t), old(self).neighbor_limit as nat),
            )) && *final(store) == *old(store) && *final(mesh) == *old(mesh)),
            is_active(old(self).state) ==> (req@ matches MessageView::GraftPeer(p) ==> if old(
                self).allow_listening && old(mesh).ids().len() < old(self).high_watermark {
                &&& r is None
                &&& final(mesh).ids() == if old(mesh).ids().contains(p.id) {
                    old(mesh).ids()
                } else {
                    old(mesh).ids().push(p.id)
                }
                &&& connected(old(store).records@, final(store).records@, p, now)
            } else {
                &&& r matches Some(x) && x@ == MessageView::ConnectAck(false)
                &&& *final(store) == *old(store)
                &&& *final(mesh) == *old(mesh)
            }),
            mesh_consistent(old(store).records@, old(mesh).ids(), old(self).high_watermark as nat)
                ==> mesh_consistent(
                final(store).records@,
                final(mesh).ids(),
                old(self).high_watermark as nat,
            ),
            is_active(old(self).state) ==> (req@ matches MessageView::PrunePeer(id) ==> r is None
                && final(mesh).ids() == without(old(mesh).ids(), id) && (!old(mesh).ids().contains(
                id,
            ) ==> final(mesh).ids() == old(mesh).ids()) && *final(store) == *old(store)),
    {
        if !(self.state == HandlerState::Idle || self.state == HandlerState::AwaitingResponse) {
            return None;
        }
        self.last_activity = now;
        let ghost o = store.records@;
        let ghost m = mesh.ids();
        let ghost high = self.high_watermark as nat;
        match req {
            RequestMsg::Ping => Some(ResponseMsg::Pong),
            RequestMsg::Connect => {
                if self.allow_listening {
                    let peer = Peer {
                        id: crate::message::copy_bytes(self.peer_id.as_slice()),
                        multiaddrs: Vec::new(),
                        conn_type: ConnectionType::Connected,
                    };
                    assert(crate::message::addrs_view(peer.multiaddrs@) =~= Seq::<Seq<u8>>::empty());
                    let ghost pv = peer@;
                    connect_peer(store, peer, now);
                    proof {
                        if mesh_consistent(o, m, high) {
                            lemma_connect_keeps_consistency(o, store.records@, m, high, pv, now, false);
                        }
                    }
                    Some(ResponseMsg::ConnectAck { accepted: true })
                } else {
                    Some(ResponseMsg::ConnectAck { accepted: false })
                }
            },
            RequestMsg::Disconnect => {
                store.mark_state(self.peer_id.as_slice(), ConnectionType::NotConnected);
                mesh.remove(self.peer_id.as_slice());
                proof {
                    if mesh_consistent(o, m, high) {
                        lemma_close_keeps_consistency(
                            o,
                            store.records@,
                            m,
                            high,
                            self.peer_id@,
                            ConnectionType::NotConnected,
                        );
                    }
                }
                self.state = HandlerState::Closed;
                None
            },
            RequestMsg::FindNode { target } => {
                let peers = store.closest(target.as_slice(), self.neighbor_limit);
                Some(ResponseMsg::Neighbors { peers })
            },
            RequestMsg::GraftPeer { peer } => {
                if self.allow_listening && mesh.len() < self.high_watermark {
                    let member = mesh.contains(peer.id.as_slice());
                    if !member {
                        mesh.add(peer.id.as_slice());
                    }
                    let ghost pv = peer@;
                    connect_peer(store, peer, now);
                    proof {
                        if mesh_consistent(o, m, high) {
                            lemma_connect_keeps_consistency(o, store.records@, m, high, pv, now, true);
                        }
                    }
                    None
                } else {
                    Some(ResponseMsg::ConnectAck { accepted: false })
                }
            },
            RequestMsg::PrunePeer { peer_id } => {
                mesh.remove(peer_id.as_slice());
                proof {
                    if mesh_consistent(o, m, high) {
                        lemma_prune_keeps_consistency(o, m, high, peer_id@);
                    }
                }
                None
            },
        }
    }
}

impl ConnectionHandler {
    /// Answers a `FindNode` for `target` with the peers nearest to it under
    /// the distances that the identity layer computed for each record
    /// (`distances[i]` for record `i`). Ignored on a connection that is not
    /// established.
    pub fn handle_find_node(
        &mut self,
        target: &[u8],
        store: &PeerStore,
        distances: &Vec<u64>,
        now: u64,
    ) -> (r: Option<ResponseMsg>)
        requires
            distances@.len() == store.records@.len(),
        ensures
            !is_active(old(self).state) ==> r is None && *final(self) == *old(self),
            is_active(old(self).state) ==> *final(self) == (ConnectionHandler {
                last_activity: now,
                ..*old(self)
            }) && (r matches Some(x) && exists|idx: Seq<usize>|
                is_nearest(store.records@, target@, distances@, old(self).neighbor_limit as nat, idx)
                    && x@ == MessageView::Neighbors(
                    idx.map_values(|i: usize| store.records@[i as int].peer@),
                )),
    {
        if !(self.state == HandlerState::Idle || self.state == HandlerState::AwaitingResponse) {
            return None;
        }
        self.last_activity = now;
        let peers = store.closest_by(target, distances, self.neighbor_limit);
        Some(ResponseMsg::Neighbors { peers })
    }
}

} // verus!
