//! The typed message vocabulary and its mathematical model.
use vstd::prelude::*;

verus! {

/// Reachability classification of a known peer.
#[derive(Clone, Copy, Debug, PartialEq, Eq, Structural)]
pub enum ConnectionType {
    NotConnected,
    Connected,
    CanConnect,
    CannotConnect,
}

/// The integer that stands for a connection type on the wire.
pub open spec fn conn_tag(c: ConnectionType) -> nat {
    match c {
        ConnectionType::NotConnected => 0,
        ConnectionType::Connected => 1,
        ConnectionType::CanConnect => 2,
        ConnectionType::CannotConnect => 3,
    }
}

impl ConnectionType {
    /// The connection type with wire number `n`, if there is one.
    pub fn from_tag(n: u64) -> (r: Option<ConnectionType>)
        ensures
            r matches Some(c) ==> conn_tag(c) == n,
            r is None <==> n > 3,
    {
        if n == 0 {
            Some(ConnectionType::NotConnected)
        } else if n == 1 {
            Some(ConnectionType::Connected)
        } else if n == 2 {
            Some(ConnectionType::CanConnect)
        } else if n == 3 {
            Some(ConnectionType::CannotConnect)
        } else {
            None
        }
    }

    pub fn tag(&self) -> (r: u64)
        ensures
            r == conn_tag(*self),
    {
        match self {
            ConnectionType::NotConnected => 0,
            ConnectionType::Connected => 1,
            ConnectionType::CanConnect => 2,
            ConnectionType::CannotConnect => 3,
        }
    }
}

/// A peer descriptor: identifier bytes, addresses in preference order, and
/// reachability.
#[derive(Debug)]
pub struct Peer {
    pub id: Vec<u8>,
    pub multiaddrs: Vec<Vec<u8>>,
    pub conn_type: ConnectionType,
}

/// What a peer descriptor holds, as plain values.
pub struct PeerView {
    pub id: Seq<u8>,
    pub addrs: Seq<Seq<u8>>,
    pub conn_type: ConnectionType,
}

pub open spec fn addrs_view(a: Seq<Vec<u8>>) -> Seq<Seq<u8>> {
    a.map_values(|x: Vec<u8>| x@)
}

pub open spec fn peers_view(ps: Seq<Peer>) -> Seq<PeerView> {
    ps.map_values(|p: Peer| p@)
}

impl View for Peer {
    type V = PeerView;

    open spec fn view(&self) -> PeerView {
        PeerView { id: self.id@, addrs: addrs_view(self.multiaddrs@), conn_type: self.conn_type }
    }
}

/// Copies a byte string.
pub fn copy_bytes(b: &[u8]) -> (r: Vec<u8>)
    ensures
        r@ == b@,
{
    vstd::slice::slice_to_vec(b)
}

impl Peer {
    /// An independent copy of this descriptor.
    pub fn duplicate(&self) -> (r: Peer)
        ensures
            r@ == self@,
    {
        let mut addrs: Vec<Vec<u8>> = Vec::new();
        let mut i: usize = 0;
        while i < self.multiaddrs.len()
            invariant
                i <= self.multiaddrs.len(),
                addrs.len() == i,
                forall|j: int| 0 <= j < i ==> addrs@[j]@ == self.multiaddrs@[j]@,
            decreases self.multiaddrs.len() - i,
        {
            let a = copy_bytes(self.multiaddrs[i].as_slice());
            addrs.push(a);
            i += 1;
        }
        assert(addrs_view(addrs@) =~= addrs_view(self.multiaddrs@));
        Peer { id: copy_bytes(self.id.as_slice()), multiaddrs: addrs, conn_type: self.conn_type }
    }
}

/// Copies a list of descriptors.
pub fn duplicate_peers(ps: &Vec<Peer>) -> (r: Vec<Peer>)
    ensures
        peers_view(r@) == peers_view(ps@),
{
    let mut out: Vec<Peer> = Vec::new();
    let mut i: usize = 0;
    while i < ps.len()
        invariant
            i <= ps.len(),
            out.len() == i,
            forall|j: int| 0 <= j < i ==> out@[j]@ == ps@[j]@,
        decreases ps.len() - i,
    {
        out.push(ps[i].duplicate());
        i += 1;
    }
    assert(peers_view(out@) =~= peers_view(ps@));
    out
}

/// A request that one side of a connection sends to the other.
#[derive(Debug)]
pub enum RequestMsg {
    Ping,
    Connect,
    Disconnect,
    FindNode { target: Vec<u8> },
    GraftPeer { peer: Peer },
    PrunePeer { peer_id: Vec<u8> },
}

/// The reply to a request.
#[derive(Debug)]
pub enum ResponseMsg {
    Pong,
    ConnectAck { accepted: bool },
    Neighbors { peers: Vec<Peer> },
}

/// Either family of message, as it travels in one frame.
#[derive(Debug)]
pub enum Message {
    Request(RequestMsg),
    Response(ResponseMsg),
}

/// A message as a plain value.
pub enum MessageView {
    Ping,
    Connect,
    Disconnect,
    FindNode(Seq<u8>),
    GraftPeer(PeerView),
    PrunePeer(Seq<u8>),
    Pong,
    ConnectAck(bool),
    Neighbors(Seq<PeerView>),
}

pub open spec fn is_request(m: MessageView) -> bool {
    match m {
        MessageView::Pong | MessageView::ConnectAck(_) | MessageView::Neighbors(_) => false,
        _ => true,
    }
}

impl View for RequestMsg {
    type V = MessageView;

    open spec fn view(&self) -> MessageView {
        match self {
            RequestMsg::Ping => MessageView::Ping,
            RequestMsg::Connect => MessageView::Connect,
            RequestMsg::Disconnect => MessageView::Disconnect,
            RequestMsg::FindNode { target } => MessageView::FindNode(target@),
            RequestMsg::GraftPeer { peer } => MessageView::GraftPeer(peer@),
            RequestMsg::PrunePeer { peer_id } => MessageView::PrunePeer(peer_id@),
        }
    }
}

impl View for ResponseMsg {
    type V = MessageView;

    open spec fn view(&self) -> MessageView {
        match self {
            ResponseMsg::Pong => MessageView::Pong,
            ResponseMsg::ConnectAck { accepted } => MessageView::ConnectAck(*accepted),
            ResponseMsg::Neighbors { peers } => MessageView::Neighbors(peers_view(peers@)),
        }
    }
}

impl View for Message {
    type V = MessageView;

    open spec fn view(&self) -> MessageView {
        match self {
            Message::Request(r) => r@,
            Message::Response(r) => r@,
        }
    }
}

/// The type tag of a message on the wire: the six requests, then the three
/// responses.
pub open spec fn message_tag(m: MessageView) -> nat {
    match m {
        MessageView::Ping => 0,
        MessageView::Connect => 1,
        MessageView::Disconnect => 2,
        MessageView::FindNode(_) => 3,
        MessageView::GraftPeer(_) => 4,
        MessageView::PrunePeer(_) => 5,
        MessageView::Pong => 6,
        MessageView::ConnectAck(_) => 7,
        MessageView::Neighbors(_) => 8,
    }
}

/// The kind of a message, without its fields.
#[derive(Clone, Copy, Debug, PartialEq, Eq, Structural)]
pub enum MessageType {
    Ping,
    Connect,
    Disconnect,
    FindNode,
    GraftPeer,
    PrunePeer,
    Pong,
    ConnectAck,
    Neighbors,
}

pub open spec fn type_tag(t: MessageType) -> nat {
    match t {
        MessageType::Ping => 0,
        MessageType::Connect => 1,
        MessageType::Disconnect => 2,
        MessageType::FindNode => 3,
        MessageType::GraftPeer => 4,
        MessageType::PrunePeer => 5,
        MessageType::Pong => 6,
        MessageType::ConnectAck => 7,
        MessageType::Neighbors => 8,
    }
}

/// Classifies a message by its kind.
pub fn message_type(m: &Message) -> (r: MessageType)
    ensures
        type_tag(r) == message_tag(m@),
{
    match m {
        Message::Request(RequestMsg::Ping) => MessageType::Ping,
        Message::Request(RequestMsg::Connect) => MessageType::Connect,
        Message::Request(RequestMsg::Disconnect) => MessageType::Disconnect,
        Message::Request(RequestMsg::FindNode { .. }) => MessageType::FindNode,
        Message::Request(RequestMsg::GraftPeer { .. }) => MessageType::GraftPeer,
        Message::Request(RequestMsg::PrunePeer { .. }) => MessageType::PrunePeer,
        Message::Response(ResponseMsg::Pong) => MessageType::Pong,
        Message::Response(ResponseMsg::ConnectAck { .. }) => MessageType::ConnectAck,
        Message::Response(ResponseMsg::Neighbors { .. }) => MessageType::Neighbors,
    }
}

} // verus!
