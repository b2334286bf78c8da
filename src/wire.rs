//! The payload schema: each message is a sequence of tagged fields in the
//! protobuf wire format, always written in one canonical order.
use vstd::prelude::*;
use crate::varint::{varint_bytes, lemma_split_eq, lemma_varint_prefix_free};
use crate::message::{conn_tag, PeerView, MessageView, message_tag};

verus! {

/// Key of the message type field (field 1, varint).
pub const KEY_TYPE: u8 = 0x08;
/// The largest type tag that names a message.
pub const MAX_TAG: u64 = 8;

/// Key of a byte-string field that names a peer (field 2, length-delimited).
pub const KEY_ID: u8 = 0x12;
/// Key of an embedded peer descriptor (field 3, length-delimited).
pub const KEY_PEER: u8 = 0x1a;
/// Key of the acceptance flag (field 4, varint).
pub const KEY_ACCEPTED: u8 = 0x20;
/// Key of one entry of a neighbour list (field 5, length-delimited).
pub const KEY_NEIGHBOR: u8 = 0x2a;
/// Key of a peer descriptor's identifier (field 1, length-delimited).
pub const KEY_PEER_ID: u8 = 0x0a;
/// Key of one of a peer descriptor's addresses (field 2, length-delimited).
pub const KEY_PEER_ADDR: u8 = 0x12;
/// Key of a peer descriptor's connection type (field 3, varint).
pub const KEY_PEER_CONN: u8 = 0x18;

pub open spec fn field_varint(key: u8, n: nat) -> Seq<u8> {
    seq![key] + varint_bytes(n)
}

pub open spec fn field_bytes(key: u8, d: Seq<u8>) -> Seq<u8> {
    seq![key] + (varint_bytes(d.len()) + d)
}

/// The concatenation of a list of byte strings.
pub open spec fn concat(s: Seq<Seq<u8>>) -> Seq<u8>
    decreases s.len(),
{
    if s.len() == 0 {
        Seq::empty()
    } else {
        concat(s.drop_last()) + s.last()
    }
}

pub open spec fn addr_fields(a: Seq<Seq<u8>>) -> Seq<Seq<u8>> {
    a.map_values(|x: Seq<u8>| field_bytes(KEY_PEER_ADDR, x))
}

pub open spec fn peer_bytes(p: PeerView) -> Seq<u8> {
    field_bytes(KEY_PEER_ID, p.id) + (concat(addr_fields(p.addrs)) + field_varint(
        KEY_PEER_CONN,
        conn_tag(p.conn_type),
    ))
}

pub open spec fn neighbor_fields(ps: Seq<PeerView>) -> Seq<Seq<u8>> {
    ps.map_values(|p: PeerView| field_bytes(KEY_NEIGHBOR, peer_bytes(p)))
}

pub open spec fn body_bytes(m: MessageView) -> Seq<u8> {
    match m {
        MessageView::FindNode(t) => field_bytes(KEY_ID, t),
        MessageView::GraftPeer(p) => field_bytes(KEY_PEER, peer_bytes(p)),
        MessageView::PrunePeer(id) => field_bytes(KEY_ID, id),
        MessageView::ConnectAck(a) => field_varint(KEY_ACCEPTED, if a { 1 } else { 0 }),
        MessageView::Neighbors(ps) => concat(neighbor_fields(ps)),
        _ => Seq::empty(),
    }
}

/// The payload that stands for a message.
pub open spec fn message_bytes(m: MessageView) -> Seq<u8> {
    field_varint(KEY_TYPE, message_tag(m)) + body_bytes(m)
}

/// The message that a payload stands for, if any.
pub open spec fn decoded(b: Seq<u8>) -> Option<MessageView> {
    if exists|m: MessageView| message_bytes(m) == b {
        Some(choose|m: MessageView| message_bytes(m) == b)
    } else {
        None
    }
}

/// A payload whose type field is a well-formed 64-bit integer that names no
/// message.
pub open spec fn unknown_type(b: Seq<u8>) -> bool {
    exists|t: nat, rest: Seq<u8>| 8 < t <= u64::MAX && b == #[trigger] (field_varint(KEY_TYPE, t) + rest)
}

pub proof fn lemma_concat_first(s: Seq<Seq<u8>>)
    requires
        s.len() > 0,
    ensures
        concat(s) == s[0] + concat(s.drop_first()),
    decreases s.len(),
{
    if s.len() == 1 {
        assert(s.drop_last() =~= Seq::<Seq<u8>>::empty());
        assert(s.drop_first() =~= Seq::<Seq<u8>>::empty());
        assert(concat(s) =~= s[0] + concat(s.drop_first()));
    } else {
        lemma_concat_first(s.drop_last());
        assert(s.drop_last().drop_first() =~= s.drop_first().drop_last());
        assert(s.drop_first().last() == s.last());
        assert(concat(s) =~= s[0] + concat(s.drop_first()));
    }
}

pub proof fn lemma_concat_push(s: Seq<Seq<u8>>, i: int)
    requires
        0 <= i < s.len(),
    ensures
        concat(s.take(i + 1)) == concat(s.take(i)) + s[i],
{
    assert(s.take(i + 1).drop_last() =~= s.take(i));
}

pub proof fn lemma_field_varint_prefix(k: u8, n1: nat, r1: Seq<u8>, n2: nat, r2: Seq<u8>)
    requires
        field_varint(k, n1) + r1 == field_varint(k, n2) + r2,
    ensures
        n1 == n2,
        r1 == r2,
{
    assert(field_varint(k, n1) + r1 =~= seq![k] + (varint_bytes(n1) + r1));
    assert(field_varint(k, n2) + r2 =~= seq![k] + (varint_bytes(n2) + r2));
    lemma_split_eq(seq![k], varint_bytes(n1) + r1, seq![k], varint_bytes(n2) + r2);
    lemma_varint_prefix_free(n1, r1, n2, r2);
}

pub proof fn lemma_field_bytes_prefix(k: u8, d1: Seq<u8>, r1: Seq<u8>, d2: Seq<u8>, r2: Seq<u8>)
    requires
        field_bytes(k, d1) + r1 == field_bytes(k, d2) + r2,
    ensures
        d1 == d2,
        r1 == r2,
{
    assert(field_bytes(k, d1) + r1 =~= seq![k] + (varint_bytes(d1.len()) + (d1 + r1)));
    assert(field_bytes(k, d2) + r2 =~= seq![k] + (varint_bytes(d2.len()) + (d2 + r2)));
    lemma_split_eq(
        seq![k],
        varint_bytes(d1.len()) + (d1 + r1),
        seq![k],
        varint_bytes(d2.len()) + (d2 + r2),
    );
    lemma_varint_prefix_free(d1.len(), d1 + r1, d2.len(), d2 + r2);
    lemma_split_eq(d1, r1, d2, r2);
}

pub proof fn lemma_addrs_prefix(a1: Seq<Seq<u8>>, r1: Seq<u8>, a2: Seq<Seq<u8>>, r2: Seq<u8>)
    requires
        concat(addr_fields(a1)) + r1 == concat(addr_fields(a2)) + r2,
        r1.len() > 0 && r1[0] == KEY_PEER_CONN,
        r2.len() > 0 && r2[0] == KEY_PEER_CONN,
    ensures
        a1 == a2,
        r1 == r2,
    decreases a1.len(),
{
    if a1.len() == 0 && a2.len() == 0 {
        assert(concat(addr_fields(a1)) =~= Seq::<u8>::empty());
        assert(concat(addr_fields(a2)) =~= Seq::<u8>::empty());
        assert(r1 =~= concat(addr_fields(a1)) + r1);
        assert(r2 =~= concat(addr_fields(a2)) + r2);
        assert(a1 =~= a2);
    } else if a1.len() == 0 {
        lemma_concat_first(addr_fields(a2));
        assert(concat(addr_fields(a1)) =~= Seq::<u8>::empty());
        assert((concat(addr_fields(a1)) + r1)[0] == r1[0]);
        assert((concat(addr_fields(a2)) + r2)[0] == field_bytes(KEY_PEER_ADDR, a2[0])[0]);
    } else if a2.len() == 0 {
        lemma_concat_first(addr_fields(a1));
        assert(concat(addr_fields(a2)) =~= Seq::<u8>::empty());
        assert((concat(addr_fields(a2)) + r2)[0] == r2[0]);
        assert((concat(addr_fields(a1)) + r1)[0] == field_bytes(KEY_PEER_ADDR, a1[0])[0]);
    } else {
        lemma_concat_first(addr_fields(a1));
        lemma_concat_first(addr_fields(a2));
        assert(addr_fields(a1).drop_first() =~= addr_fields(a1.drop_first()));
        assert(addr_fields(a2).drop_first() =~= addr_fields(a2.drop_first()));
        let t1 = concat(addr_fields(a1.drop_first())) + r1;
        let t2 = concat(addr_fields(a2.drop_first())) + r2;
        assert(concat(addr_fields(a1)) + r1 =~= field_bytes(KEY_PEER_ADDR, a1[0]) + t1);
        assert(concat(addr_fields(a2)) + r2 =~= field_bytes(KEY_PEER_ADDR, a2[0]) + t2);
        lemma_field_bytes_prefix(KEY_PEER_ADDR, a1[0], t1, a2[0], t2);
        lemma_addrs_prefix(a1.drop_first(), r1, a2.drop_first(), r2);
        assert(a1 =~= seq![a1[0]] + a1.drop_first());
        assert(a2 =~= seq![a2[0]] + a2.drop_first());
    }
}

pub proof fn lemma_peer_bytes_injective(p1: PeerView, p2: PeerView)
    requires
        peer_bytes(p1) == peer_bytes(p2),
    ensures
        p1 == p2,
{
    let c1 = field_varint(KEY_PEER_CONN, conn_tag(p1.conn_type));
    let c2 = field_varint(KEY_PEER_CONN, conn_tag(p2.conn_type));
    lemma_field_bytes_prefix(
        KEY_PEER_ID,
        p1.id,
        concat(addr_fields(p1.addrs)) + c1,
        p2.id,
        concat(addr_fields(p2.addrs)) + c2,
    );
    lemma_addrs_prefix(p1.addrs, c1, p2.addrs, c2);
    assert(c1 + Seq::<u8>::empty() =~= c1);
    assert(c2 + Seq::<u8>::empty() =~= c2);
    lemma_field_varint_prefix(
        KEY_PEER_CONN,
        conn_tag(p1.conn_type),
        Seq::empty(),
        conn_tag(p2.conn_type),
        Seq::empty(),
    );
}

pub proof fn lemma_neighbors_injective(a1: Seq<PeerView>, a2: Seq<PeerView>)
    requires
        concat(neighbor_fields(a1)) == concat(neighbor_fields(a2)),
    ensures
        a1 == a2,
    decreases a1.len(),
{
    if a1.len() == 0 && a2.len() == 0 {
        assert(a1 =~= a2);
    } else if a1.len() == 0 {
        lemma_concat_first(neighbor_fields(a2));
        assert(concat(neighbor_fields(a1)) =~= Seq::<u8>::empty());
    } else if a2.len() == 0 {
        lemma_concat_first(neighbor_fields(a1));
        assert(concat(neighbor_fields(a2)) =~= Seq::<u8>::empty());
    } else {
        lemma_concat_first(neighbor_fields(a1));
        lemma_concat_first(neighbor_fields(a2));
        assert(neighbor_fields(a1).drop_first() =~= neighbor_fields(a1.drop_first()));
        assert(neighbor_fields(a2).drop_first() =~= neighbor_fields(a2.drop_first()));
        lemma_field_bytes_prefix(
            KEY_NEIGHBOR,
            peer_bytes(a1[0]),
            concat(neighbor_fields(a1.drop_first())),
            peer_bytes(a2[0]),
            concat(neighbor_fields(a2.drop_first())),
        );
        lemma_peer_bytes_injective(a1[0], a2[0]);
        lemma_neighbors_injective(a1.drop_first(), a2.drop_first());
        assert(a1 =~= seq![a1[0]] + a1.drop_first());
        assert(a2 =~= seq![a2[0]] + a2.drop_first());
    }
}

/// Different messages have different payloads.
pub proof fn lemma_message_bytes_injective(m1: MessageView, m2: MessageView)
    requires
        message_bytes(m1) == message_bytes(m2),
    ensures
        m1 == m2,
{
    lemma_field_varint_prefix(KEY_TYPE, message_tag(m1), body_bytes(m1), message_tag(m2), body_bytes(m2));
    let e = Seq::<u8>::empty();
    match m1 {
        MessageView::FindNode(t1) => {
            let t2 = m2->FindNode_0;
            assert(field_bytes(KEY_ID, t1) + e =~= field_bytes(KEY_ID, t1));
            assert(field_bytes(KEY_ID, t2) + e =~= field_bytes(KEY_ID, t2));
            lemma_field_bytes_prefix(KEY_ID, t1, e, t2, e);
        },
        MessageView::PrunePeer(t1) => {
            let t2 = m2->PrunePeer_0;
            assert(field_bytes(KEY_ID, t1) + e =~= field_bytes(KEY_ID, t1));
            assert(field_bytes(KEY_ID, t2) + e =~= field_bytes(KEY_ID, t2));
            lemma_field_bytes_prefix(KEY_ID, t1, e, t2, e);
        },
        MessageView::GraftPeer(p1) => {
            let p2 = m2->GraftPeer_0;
            assert(field_bytes(KEY_PEER, peer_bytes(p1)) + e =~= field_bytes(KEY_PEER, peer_bytes(p1)));
            assert(field_bytes(KEY_PEER, peer_bytes(p2)) + e =~= field_bytes(KEY_PEER, peer_bytes(p2)));
            lemma_field_bytes_prefix(KEY_PEER, peer_bytes(p1), e, peer_bytes(p2), e);
            lemma_peer_bytes_injective(p1, p2);
        },
        MessageView::ConnectAck(a1) => {
            let a2 = m2->ConnectAck_0;
            let n1: nat = if a1 { 1 } else { 0 };
            let n2: nat = if a2 { 1 } else { 0 };
            assert(field_varint(KEY_ACCEPTED, n1) + e =~= field_varint(KEY_ACCEPTED, n1));
            assert(field_varint(KEY_ACCEPTED, n2) + e =~= field_varint(KEY_ACCEPTED, n2));
            lemma_field_varint_prefix(KEY_ACCEPTED, n1, e, n2, e);
        },
        MessageView::Neighbors(a1) => {
            lemma_neighbors_injective(a1, m2->Neighbors_0);
        },
        _ => {},
    }
}

/// Decoding the payload of a message gives that message back.
pub proof fn lemma_decode_encode(m: MessageView)
    ensures
        decoded(message_bytes(m)) == Some(m),
{
    let b = message_bytes(m);
    assert(exists|x: MessageView| message_bytes(x) == b);
    let c = choose|x: MessageView| message_bytes(x) == b;
    lemma_message_bytes_injective(c, m);
}

/// A payload that decodes to a message is exactly that message's encoding.
pub proof fn lemma_encode_decode(b: Seq<u8>)
    ensures
        decoded(b) matches Some(m) ==> message_bytes(m) == b,
{
}

/// A payload that decodes to a message names a known type.
pub proof fn lemma_known_type(m: MessageView)
    ensures
        !unknown_type(message_bytes(m)),
{
    if unknown_type(message_bytes(m)) {
        let (t, rest) = choose|t: nat, rest: Seq<u8>|
            8 < t <= u64::MAX && message_bytes(m) == #[trigger] (field_varint(KEY_TYPE, t) + rest);
        lemma_field_varint_prefix(KEY_TYPE, message_tag(m), body_bytes(m), t, rest);
    }
}

} // verus!
