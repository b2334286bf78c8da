use overlay::codec::{
    decode_frame, decode_message, decode_request, decode_request_frame, decode_response,
    decode_response_frame, encode_frame, encode_request, encode_request_frame, encode_response,
    encode_response_frame, CodecError, DecodeError, ModelError,
};
use overlay::handler::{
    ConnectionHandler, HandlerError, HandlerState, OverlayHandlerConfig, OverlayHandlerProto,
};
use overlay::mesh::{maintain, MeshAction, MeshView};
use overlay::message::{message_type, ConnectionType, Message, MessageType, Peer, RequestMsg, ResponseMsg};
use overlay::protocol::{protocol_name, select_protocol, NegotiationError, OverlayProtocolConfig, MAX_PACKET_SIZE};
use overlay::store::PeerStore;

fn peer(id: &[u8], addrs: &[&[u8]], c: ConnectionType) -> Peer {
    Peer { id: id.to_vec(), multiaddrs: addrs.iter().map(|a| a.to_vec()).collect(), conn_type: c }
}

fn same_peer(a: &Peer, b: &Peer) -> bool {
    a.id == b.id && a.multiaddrs == b.multiaddrs && a.conn_type == b.conn_type
}

fn requests() -> Vec<RequestMsg> {
    vec![
        RequestMsg::Ping,
        RequestMsg::Connect,
        RequestMsg::Disconnect,
        RequestMsg::FindNode { target: vec![1, 2, 3] },
        RequestMsg::FindNode { target: vec![] },
        RequestMsg::GraftPeer { peer: peer(b"peer-a", &[b"/ip4/1.2.3.4", b"/ip6/::1"], ConnectionType::CanConnect) },
        RequestMsg::GraftPeer { peer: peer(b"", &[], ConnectionType::NotConnected) },
        RequestMsg::PrunePeer { peer_id: vec![9; 200] },
    ]
}

fn same_request(a: &RequestMsg, b: &RequestMsg) -> bool {
    match (a, b) {
        (RequestMsg::Ping, RequestMsg::Ping) => true,
        (RequestMsg::Connect, RequestMsg::Connect) => true,
        (RequestMsg::Disconnect, RequestMsg::Disconnect) => true,
        (RequestMsg::FindNode { target: x }, RequestMsg::FindNode { target: y }) => x == y,
        (RequestMsg::GraftPeer { peer: x }, RequestMsg::GraftPeer { peer: y }) => same_peer(x, y),
        (RequestMsg::PrunePeer { peer_id: x }, RequestMsg::PrunePeer { peer_id: y }) => x == y,
        _ => false,
    }
}

fn same_response(a: &ResponseMsg, b: &ResponseMsg) -> bool {
    match (a, b) {
        (ResponseMsg::Pong, ResponseMsg::Pong) => true,
        (ResponseMsg::ConnectAck { accepted: x }, ResponseMsg::ConnectAck { accepted: y }) => x == y,
        (ResponseMsg::Neighbors { peers: x }, ResponseMsg::Neighbors { peers: y }) => {
            x.len() == y.len() && x.iter().zip(y.iter()).all(|(p, q)| same_peer(p, q))
        }
        _ => false,
    }
}

fn responses() -> Vec<ResponseMsg> {
    vec![
        ResponseMsg::Pong,
        ResponseMsg::ConnectAck { accepted: true },
        ResponseMsg::ConnectAck { accepted: false },
        ResponseMsg::Neighbors { peers: vec![] },
        ResponseMsg::Neighbors {
            peers: vec![
                peer(b"x", &[b"/dns/a"], ConnectionType::Connected),
                peer(b"y", &[], ConnectionType::CannotConnect),
            ],
        },
    ]
}

#[test]
fn request_round_trip() {
    for m in requests() {
        let b = encode_request(&m);
        let d = decode_request(&b).expect("decodes");
        assert!(same_request(&m, &d));
        assert_eq!(encode_request(&d), b);
    }
}

#[test]
fn response_round_trip() {
    for m in responses() {
        let b = encode_response(&m);
        let d = decode_response(&b).expect("decodes");
        assert!(same_response(&m, &d));
        assert_eq!(encode_response(&d), b);
    }
}

#[test]
fn frame_round_trip() {
    for m in requests() {
        let f = encode_request_frame(&m, MAX_PACKET_SIZE).unwrap();
        let mut stream = f.clone();
        stream.extend_from_slice(&[0x55, 0x66]);
        let (d, used) = decode_request_frame(&stream, MAX_PACKET_SIZE).unwrap();
        assert!(same_request(&m, &d));
        assert_eq!(used, f.len());
    }
    for m in responses() {
        let f = encode_response_frame(&m, MAX_PACKET_SIZE).unwrap();
        let (d, used) = decode_response_frame(&f, MAX_PACKET_SIZE).unwrap();
        assert!(same_response(&m, &d));
        assert_eq!(used, f.len());
    }
}

#[test]
fn payload_bytes_are_exact() {
    assert_eq!(encode_request(&RequestMsg::Ping), vec![0x08, 0x00]);
    assert_eq!(
        encode_request(&RequestMsg::FindNode { target: vec![1, 2] }),
        vec![0x08, 0x03, 0x12, 0x02, 1, 2]
    );
    assert_eq!(encode_response(&ResponseMsg::ConnectAck { accepted: true }), vec![0x08, 0x07, 0x20, 0x01]);
    let b = encode_request(&RequestMsg::PrunePeer { peer_id: vec![7; 200] });
    assert_eq!(&b[..5], &[0x08, 0x05, 0x12, 0xC8, 0x01]);
    assert_eq!(b.len(), 205);
    let g = encode_request(&RequestMsg::GraftPeer { peer: peer(b"a", &[b"b"], ConnectionType::CanConnect) });
    assert_eq!(g, vec![0x08, 0x04, 0x1a, 0x08, 0x0a, 0x01, b'a', 0x12, 0x01, b'b', 0x18, 0x02]);
}

#[test]
fn frame_prefix_is_varint_length() {
    let payload = vec![0xAB; 300];
    let f = encode_frame(&payload, 1000).unwrap();
    assert_eq!(&f[..2], &[0xAC, 0x02]);
    assert_eq!(f.len(), 302);
    let (p, used) = decode_frame(&f, 1000).unwrap();
    assert_eq!(p, payload);
    assert_eq!(used, 302);
}

#[test]
fn oversized_payload_is_refused_before_framing() {
    let m = RequestMsg::FindNode { target: vec![0; 64] };
    assert_eq!(encode_request_frame(&m, 10), Err(CodecError::FrameTooLarge));
    assert_eq!(encode_frame(&[1, 2, 3], 2), Err(CodecError::FrameTooLarge));
    assert_eq!(encode_frame(&[1, 2, 3], 3).unwrap(), vec![3, 1, 2, 3]);
}

#[test]
fn declared_length_over_maximum_fails() {
    assert_eq!(decode_frame(&[0x05, 1, 2, 3, 4, 5], 4), Err(CodecError::FrameTooLarge));
}

#[test]
fn short_frames_are_truncated() {
    assert_eq!(decode_frame(&[0x05, 1, 2], 100), Err(CodecError::Truncated));
    assert_eq!(decode_frame(&[], 100), Err(CodecError::Truncated));
    assert_eq!(decode_frame(&[0x80], 100), Err(CodecError::Truncated));
    assert!(matches!(
        decode_request_frame(&[0x04, 0x08], 100),
        Err(DecodeError::Codec(CodecError::Truncated))
    ));
}

#[test]
fn non_minimal_length_prefix_is_malformed() {
    assert_eq!(decode_frame(&[0x81, 0x00, 1], 100), Err(CodecError::Malformed));
}

#[test]
fn unknown_type_tag() {
    assert_eq!(decode_message(&[0x08, 0x09]).err(), Some(DecodeError::Model(ModelError::UnknownMessageType)));
    assert_eq!(decode_request(&[0x08, 0x2A, 0x12]).err(), Some(DecodeError::Model(ModelError::UnknownMessageType)));
}

#[test]
fn family_mismatch() {
    let pong = encode_response(&ResponseMsg::Pong);
    assert_eq!(decode_request(&pong).err(), Some(DecodeError::Model(ModelError::TypeMismatch)));
    let ping = encode_request(&RequestMsg::Ping);
    assert_eq!(decode_response(&ping).err(), Some(DecodeError::Model(ModelError::TypeMismatch)));
}

#[test]
fn malformed_payloads() {
    let bad: Vec<Vec<u8>> = vec![
        vec![],
        vec![0x10, 0x00],
        vec![0x08, 0x00, 0xFF],
        vec![0x08, 0x03, 0x12, 0x05, 1],
        vec![0x08, 0x07, 0x20, 0x02],
        vec![0x08, 0x80, 0x00],
    ];
    for b in bad {
        assert_eq!(decode_message(&b).err(), Some(DecodeError::Codec(CodecError::Malformed)));
    }
}

#[test]
fn classification() {
    assert_eq!(message_type(&Message::Request(RequestMsg::Connect)), MessageType::Connect);
    assert_eq!(message_type(&Message::Response(ResponseMsg::Neighbors { peers: vec![] })), MessageType::Neighbors);
}

#[test]
fn negotiation_takes_dialer_preference() {
    let dialer = vec![b"/a/2".to_vec(), b"/a/1".to_vec()];
    let listener = vec![b"/a/1".to_vec(), b"/a/2".to_vec()];
    assert_eq!(select_protocol(&dialer, &listener), Ok(0));
    let other = vec![b"/a/1.1".to_vec()];
    assert_eq!(select_protocol(&dialer, &other), Err(NegotiationError::NoCommonProtocol));
    assert_eq!(select_protocol(&vec![], &listener), Err(NegotiationError::NoCommonProtocol));
}

#[test]
fn default_config() {
    let mut c = OverlayProtocolConfig::default();
    assert_eq!(protocol_name(), b"/rubon/overlay/0.1.0".to_vec());
    assert_eq!(c.protocol_info(), vec![b"/rubon/overlay/0.1.0".to_vec()]);
    assert_eq!(c.max_packet_size, 4 * 1024 * 1024);
    c.set_max_packet_size(10);
    c.set_protocol_names(vec![b"/x".to_vec()]);
    assert_eq!(c.protocol_names(), &vec![b"/x".to_vec()]);
    assert_eq!(c.max_packet_size, 10);
}

fn handler(allow: bool, timeout: u64) -> ConnectionHandler {
    let config = OverlayHandlerConfig {
        protocol_config: OverlayProtocolConfig::default(),
        allow_listening: allow,
        idle_timeout: timeout,
    };
    let proto: OverlayHandlerProto<()> = OverlayHandlerProto::new(config);
    let mut h = ConnectionHandler::new(&proto.config, b"remote".to_vec(), 3, 20, 0);
    assert_eq!(h.on_negotiated(0), Ok(()));
    h
}

#[test]
fn single_request_in_flight() {
    let mut h = handler(true, 1000);
    let f = h.send_request(&RequestMsg::Ping, 5).unwrap();
    assert_eq!(f, vec![2, 0x08, 0x00]);
    assert_eq!(h.state, HandlerState::AwaitingResponse);
    assert_eq!(h.send_request(&RequestMsg::Connect, 6), Err(HandlerError::RequestInFlight));
    assert_eq!(h.state, HandlerState::AwaitingResponse);
    assert_eq!(h.on_response(7), Ok(()));
    assert_eq!(h.state, HandlerState::Idle);
    assert!(h.send_request(&RequestMsg::Connect, 8).is_ok());
}

#[test]
fn idle_timeout_closes_and_marks_peer() {
    let mut h = handler(true, 100);
    let mut store = PeerStore::new();
    store.upsert(peer(b"remote", &[], ConnectionType::Connected), 1, 0);
    let mut mesh = MeshView::new();
    mesh.add(b"remote");
    assert_eq!(h.poll_timeout(100, &mut store, &mut mesh), Ok(()));
    assert_eq!(h.state, HandlerState::Idle);
    assert_eq!(h.poll_timeout(101, &mut store, &mut mesh), Err(HandlerError::IdleTimeout));
    assert_eq!(h.state, HandlerState::Closed);
    assert_eq!(store.get(b"remote").unwrap().conn_type, ConnectionType::NotConnected);
    assert_eq!(mesh.len(), 0);
    assert_eq!(h.send_request(&RequestMsg::Ping, 102), Err(HandlerError::Refused));
}

#[test]
fn inbound_connect_refused_without_listening() {
    let mut h = handler(false, 100);
    let mut store = PeerStore::new();
    let mut mesh = MeshView::new();
    let r = h.handle_request(RequestMsg::Connect, &mut store, &mut mesh, 1);
    assert!(matches!(r, Some(ResponseMsg::ConnectAck { accepted: false })));
    assert_eq!(store.records.len(), 0);
    let g = h.handle_request(
        RequestMsg::GraftPeer { peer: peer(b"g", &[], ConnectionType::CanConnect) },
        &mut store,
        &mut mesh,
        2,
    );
    assert!(matches!(g, Some(ResponseMsg::ConnectAck { accepted: false })));
    assert_eq!(store.records.len(), 0);
    assert_eq!(mesh.len(), 0);
}

#[test]
fn inbound_connect_accepted_when_listening() {
    let mut h = handler(true, 100);
    let mut store = PeerStore::new();
    let mut mesh = MeshView::new();
    let r = h.handle_request(RequestMsg::Connect, &mut store, &mut mesh, 1);
    assert!(matches!(r, Some(ResponseMsg::ConnectAck { accepted: true })));
    assert_eq!(store.get(b"remote").unwrap().conn_type, ConnectionType::Connected);
    assert!(matches!(h.handle_request(RequestMsg::Ping, &mut store, &mut mesh, 2), Some(ResponseMsg::Pong)));
}

#[test]
fn find_node_on_empty_store() {
    let mut h = handler(true, 100);
    let mut store = PeerStore::new();
    let mut mesh = MeshView::new();
    let r = h.handle_request(RequestMsg::FindNode { target: b"t".to_vec() }, &mut store, &mut mesh, 1);
    match r {
        Some(ResponseMsg::Neighbors { peers }) => assert!(peers.is_empty()),
        _ => panic!("expected a neighbour list"),
    }
}

#[test]
fn find_node_lists_others() {
    let mut h = handler(true, 100);
    let mut store = PeerStore::new();
    store.upsert(peer(b"a", &[], ConnectionType::CanConnect), 1, 0);
    store.upsert(peer(b"t", &[], ConnectionType::CanConnect), 1, 0);
    store.upsert(peer(b"b", &[], ConnectionType::Connected), 1, 0);
    let mut mesh = MeshView::new();
    let r = h.handle_request(RequestMsg::FindNode { target: b"t".to_vec() }, &mut store, &mut mesh, 1);
    match r {
        Some(ResponseMsg::Neighbors { peers }) => {
            assert_eq!(peers.len(), 2);
            assert_eq!(peers[0].id, b"a".to_vec());
            assert_eq!(peers[1].id, b"b".to_vec());
        }
        _ => panic!("expected a neighbour list"),
    }
}

#[test]
fn graft_then_prune() {
    let mut h = handler(true, 100);
    let mut store = PeerStore::new();
    let mut mesh = MeshView::new();
    let r = h.handle_request(
        RequestMsg::GraftPeer { peer: peer(b"g", &[b"/x"], ConnectionType::CanConnect) },
        &mut store,
        &mut mesh,
        1,
    );
    assert!(r.is_none());
    assert!(mesh.contains(b"g"));
    assert_eq!(store.get(b"g").unwrap().conn_type, ConnectionType::Connected);
    assert!(h.handle_request(RequestMsg::PrunePeer { peer_id: b"g".to_vec() }, &mut store, &mut mesh, 2).is_none());
    assert!(!mesh.contains(b"g"));
}

#[test]
fn prune_of_unknown_peer_is_a_no_op() {
    let mut h = handler(true, 100);
    let mut store = PeerStore::new();
    let mut mesh = MeshView::new();
    mesh.add(b"m1");
    mesh.add(b"m2");
    let r = h.handle_request(RequestMsg::PrunePeer { peer_id: b"never".to_vec() }, &mut store, &mut mesh, 1);
    assert!(r.is_none());
    assert_eq!(mesh.members, vec![b"m1".to_vec(), b"m2".to_vec()]);
    assert_eq!(h.state, HandlerState::Idle);
}

#[test]
fn disconnect_closes_and_leaves_mesh() {
    let mut h = handler(true, 100);
    let mut store = PeerStore::new();
    store.upsert(peer(b"remote", &[], ConnectionType::Connected), 1, 0);
    let mut mesh = MeshView::new();
    mesh.add(b"remote");
    assert!(h.handle_request(RequestMsg::Disconnect, &mut store, &mut mesh, 3).is_none());
    assert_eq!(h.state, HandlerState::Closed);
    assert_eq!(mesh.len(), 0);
    assert_eq!(store.get(b"remote").unwrap().conn_type, ConnectionType::NotConnected);
    assert!(h.handle_request(RequestMsg::Ping, &mut store, &mut mesh, 4).is_none());
}

#[test]
fn mesh_converges_between_watermarks() {
    let mut store = PeerStore::new();
    for i in 0..6u8 {
        store.upsert(peer(&[b'p', i], &[], ConnectionType::CanConnect), 1, 0);
    }
    let mut mesh = MeshView::new();
    let actions = maintain(&mut store, &mut mesh, 3, 5);
    assert_eq!(actions.len(), 3);
    assert!(actions.iter().all(|a| matches!(a, MeshAction::Graft(_))));
    assert_eq!(mesh.len(), 3);
    assert_eq!(store.get(&[b'p', 0]).unwrap().conn_type, ConnectionType::Connected);
    assert_eq!(store.get(&[b'p', 3]).unwrap().conn_type, ConnectionType::CanConnect);
    for _ in 0..3 {
        assert!(maintain(&mut store, &mut mesh, 3, 5).is_empty());
        assert_eq!(mesh.len(), 3);
    }
}

#[test]
fn mesh_prunes_newest_first() {
    let mut store = PeerStore::new();
    let mut mesh = MeshView::new();
    for id in [b"a", b"b", b"c", b"d"] {
        mesh.add(id);
    }
    let actions = maintain(&mut store, &mut mesh, 1, 2);
    assert_eq!(mesh.members, vec![b"a".to_vec(), b"b".to_vec()]);
    assert!(matches!(&actions[0], MeshAction::Prune(id) if id == b"d"));
    assert!(matches!(&actions[1], MeshAction::Prune(id) if id == b"c"));
}

#[test]
fn mesh_short_of_candidates() {
    let mut store = PeerStore::new();
    store.upsert(peer(b"only", &[], ConnectionType::CanConnect), 1, 0);
    store.upsert(peer(b"down", &[], ConnectionType::CannotConnect), 1, 0);
    let mut mesh = MeshView::new();
    let actions = maintain(&mut store, &mut mesh, 3, 5);
    assert_eq!(actions.len(), 1);
    assert_eq!(mesh.members, vec![b"only".to_vec()]);
}

#[test]
fn upsert_merges_addresses_and_respects_sequence() {
    let mut store = PeerStore::new();
    store.upsert(peer(b"p", &[b"a1", b"a2"], ConnectionType::CanConnect), 5, 0);
    store.upsert(peer(b"p", &[b"a2", b"a3", b"a3"], ConnectionType::CannotConnect), 4, 1);
    let p = store.get(b"p").unwrap();
    assert_eq!(p.multiaddrs, vec![b"a1".to_vec(), b"a2".to_vec(), b"a3".to_vec()]);
    assert_eq!(p.conn_type, ConnectionType::CanConnect);
    store.upsert(peer(b"p", &[], ConnectionType::CannotConnect), 6, 2);
    assert_eq!(store.get(b"p").unwrap().conn_type, ConnectionType::CannotConnect);
    assert_eq!(store.records.len(), 1);
    assert!(store.get(b"q").is_none());
}

#[test]
fn eviction_spares_live_and_mesh_peers() {
    let mut store = PeerStore::new();
    store.upsert(peer(b"old", &[], ConnectionType::CannotConnect), 1, 0);
    store.upsert(peer(b"meshed", &[], ConnectionType::CannotConnect), 1, 0);
    store.upsert(peer(b"live", &[], ConnectionType::Connected), 1, 0);
    store.upsert(peer(b"fresh", &[], ConnectionType::CannotConnect), 1, 90);
    let mesh = vec![b"meshed".to_vec()];
    store.evict_stale(100, 50, &mesh);
    let ids: Vec<Vec<u8>> = store.records.iter().map(|r| r.peer.id.clone()).collect();
    assert_eq!(ids, vec![b"meshed".to_vec(), b"live".to_vec(), b"fresh".to_vec()]);
}

#[test]
fn mark_state_reports_unknown_peers() {
    let mut store = PeerStore::new();
    assert!(!store.mark_state(b"x", ConnectionType::Connected));
    store.upsert(peer(b"x", &[], ConnectionType::NotConnected), 0, 0);
    assert!(store.mark_state(b"x", ConnectionType::CannotConnect));
    assert_eq!(store.get(b"x").unwrap().conn_type, ConnectionType::CannotConnect);
    let c = ConnectionType::from_tag(2);
    assert_eq!(c, Some(ConnectionType::CanConnect));
    assert_eq!(ConnectionType::from_tag(4), None);
}

#[test]
fn oversized_request_leaves_handler_idle() {
    let config = OverlayHandlerConfig {
        protocol_config: OverlayProtocolConfig { protocol_names: vec![], max_packet_size: 4 },
        allow_listening: true,
        idle_timeout: 10,
    };
    let mut h = ConnectionHandler::new(&config, b"r".to_vec(), 3, 20, 0);
    assert_eq!(h.send_request(&RequestMsg::Ping, 0), Err(HandlerError::Refused));
    assert_eq!(h.on_negotiated(1), Ok(()));
    let big = RequestMsg::FindNode { target: vec![1; 8] };
    assert_eq!(h.send_request(&big, 2), Err(HandlerError::Codec(CodecError::FrameTooLarge)));
    assert_eq!(h.state, HandlerState::Idle);
    assert_eq!(h.last_activity, 1);
    assert!(h.send_request(&RequestMsg::Ping, 3).is_ok());
}

#[test]
fn framed_decoders_report_errors() {
    let max = OverlayProtocolConfig::default().max_packet_size;
    // varint(4194305) = 0x81 0x80 0x80 0x02
    assert!(matches!(
        decode_request_frame(&[0x81, 0x80, 0x80, 0x02, 0], max),
        Err(DecodeError::Codec(CodecError::FrameTooLarge))
    ));
    let req = encode_request_frame(&RequestMsg::Ping, max).unwrap();
    assert!(matches!(
        decode_response_frame(&req, max),
        Err(DecodeError::Model(ModelError::TypeMismatch))
    ));
    let resp = encode_response_frame(&ResponseMsg::Pong, max).unwrap();
    assert!(matches!(
        decode_request_frame(&resp, max),
        Err(DecodeError::Model(ModelError::TypeMismatch))
    ));
    assert!(matches!(
        decode_response_frame(&[0x02, 0x08, 0x09], max),
        Err(DecodeError::Model(ModelError::UnknownMessageType))
    ));
    assert!(matches!(
        decode_request_frame(&[0x02, 0x10, 0x00], max),
        Err(DecodeError::Codec(CodecError::Malformed))
    ));
}

#[test]
fn split_frame_waits_for_the_rest() {
    let f = encode_request_frame(&RequestMsg::FindNode { target: vec![4; 10] }, 100).unwrap();
    for cut in 0..f.len() {
        assert!(matches!(
            decode_request_frame(&f[..cut], 100),
            Err(DecodeError::Codec(CodecError::Truncated))
        ));
    }
    let (m, used) = decode_request_frame(&f, 100).unwrap();
    assert!(matches!(m, RequestMsg::FindNode { ref target } if target == &vec![4; 10]));
    assert_eq!(used, f.len());
}

#[test]
fn graft_of_member_keeps_mesh_a_set() {
    let mut h = handler(true, 100);
    let mut store = PeerStore::new();
    let mut mesh = MeshView::new();
    for _ in 0..2 {
        let r = h.handle_request(
            RequestMsg::GraftPeer { peer: peer(b"g", &[b"/x"], ConnectionType::CanConnect) },
            &mut store,
            &mut mesh,
            1,
        );
        assert!(r.is_none());
    }
    assert_eq!(mesh.members, vec![b"g".to_vec()]);
    assert_eq!(store.records.len(), 1);
    assert_eq!(h.allow_listening, true);
    assert_eq!(h.high_watermark, 3);
}

#[test]
fn graft_refused_when_mesh_full_even_for_member() {
    let mut h = handler(true, 100);
    let mut store = PeerStore::new();
    store.upsert(peer(b"a", &[], ConnectionType::Connected), 1, 0);
    let mut mesh = MeshView::new();
    for id in [b"a", b"b", b"c"] {
        mesh.add(id);
    }
    let r = h.handle_request(
        RequestMsg::GraftPeer { peer: peer(b"a", &[b"/new"], ConnectionType::CanConnect) },
        &mut store,
        &mut mesh,
        5,
    );
    assert!(matches!(r, Some(ResponseMsg::ConnectAck { accepted: false })));
    assert_eq!(mesh.len(), 3);
    assert_eq!(store.records[0].last_seen, 0);
    assert!(store.records[0].peer.multiaddrs.is_empty());
}

#[test]
fn failed_graft_marks_peer_and_leaves_mesh() {
    let mut store = PeerStore::new();
    store.upsert(peer(b"x", &[], ConnectionType::CanConnect), 1, 0);
    store.upsert(peer(b"y", &[], ConnectionType::CanConnect), 1, 0);
    let mut mesh = MeshView::new();
    maintain(&mut store, &mut mesh, 2, 4);
    assert_eq!(mesh.len(), 2);
    overlay::mesh::graft_failed(&mut store, &mut mesh, b"x");
    assert_eq!(mesh.members, vec![b"y".to_vec()]);
    assert_eq!(store.get(b"x").unwrap().conn_type, ConnectionType::CannotConnect);
    assert_eq!(store.get(b"y").unwrap().conn_type, ConnectionType::Connected);
}

#[test]
fn nearest_by_caller_distances() {
    let mut store = PeerStore::new();
    for id in [b"a", b"b", b"t", b"c", b"d"] {
        store.upsert(peer(id, &[], ConnectionType::CanConnect), 1, 0);
    }
    let distances = vec![7, 3, 0, 3, 1];
    assert_eq!(store.nearest_indices(b"t", &distances, 3), vec![4, 1, 3]);
    assert_eq!(store.nearest_indices(b"t", &distances, 10), vec![4, 1, 3, 0]);
    assert!(store.nearest_indices(b"t", &distances, 0).is_empty());
    let peers = store.closest_by(b"t", &distances, 2);
    assert_eq!(peers.len(), 2);
    assert_eq!(peers[0].id, b"d".to_vec());
    assert_eq!(peers[1].id, b"b".to_vec());
    let mut h = handler(true, 100);
    match h.handle_find_node(b"t", &store, &distances, 9) {
        Some(ResponseMsg::Neighbors { peers }) => assert_eq!(peers.len(), 4),
        _ => panic!("expected a neighbour list"),
    }
    assert_eq!(h.last_activity, 9);
}
