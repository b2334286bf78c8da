//! Encoding messages into payloads and reading them back.
use vstd::prelude::*;
use crate::varint::{
    varint_bytes, pb_put_varint, read_varint_at, bytes_eq, uvi_encode, uvi_decode, VarintFault,
    lemma_varint_prefix_free,
};
use crate::message::{
    ConnectionType, conn_tag, Peer, PeerView, peers_view, addrs_view, RequestMsg, ResponseMsg,
    Message, MessageView, message_tag, is_request, copy_bytes,
};
use crate::wire::{
    KEY_TYPE, KEY_ID, KEY_PEER, KEY_ACCEPTED, KEY_NEIGHBOR, KEY_PEER_ID, KEY_PEER_ADDR,
    KEY_PEER_CONN, MAX_TAG, field_varint, field_bytes, concat, addr_fields, peer_bytes,
    neighbor_fields, body_bytes, message_bytes, decoded, unknown_type, lemma_concat_first,
    lemma_concat_push, lemma_message_bytes_injective, lemma_known_type, lemma_decode_encode,
};

verus! {

fn put_field_varint(out: &mut Vec<u8>, key: u8, n: u64)
    ensures
        final(out)@ == old(out)@ + field_varint(key, n as nat),
{
    out.push(key);
    pb_put_varint(n, out);
    assert(final(out)@ =~= old(out)@ + field_varint(key, n as nat));
}

fn put_field_bytes(out: &mut Vec<u8>, key: u8, d: &[u8])
    ensures
        final(out)@ == old(out)@ + field_bytes(key, d@),
{
    out.push(key);
    pb_put_varint(d.len() as u64, out);
    let mut i: usize = 0;
    let ghost mid = out@;
    while i < d.len()
        invariant
            i <= d@.len(),
            out@ == mid + d@.subrange(0, i as int),
        decreases d.len() - i,
    {
        out.push(d[i]);
        i += 1;
        assert(out@ =~= mid + d@.subrange(0, i as int));
    }
    assert(d@.subrange(0, i as int) =~= d@);
    assert(out@ =~= old(out)@ + field_bytes(key, d@));
}

/// Appends the schema bytes of a peer descriptor.
fn put_peer(out: &mut Vec<u8>, p: &Peer)
    ensures
        final(out)@ == old(out)@ + peer_bytes(p@),
{
    put_field_bytes(out, KEY_PEER_ID, p.id.as_slice());
    let ghost mid = out@;
    let ghost fields = addr_fields(p@.addrs);
    let mut i: usize = 0;
    while i < p.multiaddrs.len()
        invariant
            i <= p.multiaddrs@.len(),
            fields.len() == p.multiaddrs@.len(),
            fields == addr_fields(p@.addrs),
            p@.addrs == addrs_view(p.multiaddrs@),
            out@ == mid + concat(fields.take(i as int)),
        decreases p.multiaddrs.len() - i,
    {
        proof {
            lemma_concat_push(fields, i as int);
        }
        put_field_bytes(out, KEY_PEER_ADDR, p.multiaddrs[i].as_slice());
        i += 1;
        assert(out@ =~= mid + concat(fields.take(i as int)));
    }
    assert(fields.take(i as int) =~= fields);
    put_field_varint(out, KEY_PEER_CONN, p.conn_type.tag());
    assert(final(out)@ =~= old(out)@ + peer_bytes(p@));
}

/// The schema bytes of a peer descriptor.
pub fn encode_peer(p: &Peer) -> (r: Vec<u8>)
    ensures
        r@ == peer_bytes(p@),
{
    let mut out: Vec<u8> = Vec::new();
    put_peer(&mut out, p);
    assert(out@ =~= peer_bytes(p@));
    out
}

fn put_neighbors(out: &mut Vec<u8>, ps: &Vec<Peer>)
    ensures
        final(out)@ == old(out)@ + concat(neighbor_fields(peers_view(ps@))),
{
    let ghost mid = out@;
    let ghost fields = neighbor_fields(peers_view(ps@));
    let mut i: usize = 0;
    while i < ps.len()
        invariant
            i <= ps@.len(),
            fields.len() == ps@.len(),
            fields == neighbor_fields(peers_view(ps@)),
            out@ == mid + concat(fields.take(i as int)),
        decreases ps.len() - i,
    {
        proof {
            lemma_concat_push(fields, i as int);
        }
        let pb = encode_peer(&ps[i]);
        put_field_bytes(out, KEY_NEIGHBOR, pb.as_slice());
        i += 1;
        assert(out@ =~= mid + concat(fields.take(i as int)));
    }
    assert(fields.take(i as int) =~= fields);
}

/// The payload of a request.
pub fn encode_request(m: &RequestMsg) -> (r: Vec<u8>)
    ensures
        r@ == message_bytes(m@),
{
    let mut out: Vec<u8> = Vec::new();
    match m {
        RequestMsg::Ping => put_field_varint(&mut out, KEY_TYPE, 0),
        RequestMsg::Connect => put_field_varint(&mut out, KEY_TYPE, 1),
        RequestMsg::Disconnect => put_field_varint(&mut out, KEY_TYPE, 2),
        RequestMsg::FindNode { target } => {
            put_field_varint(&mut out, KEY_TYPE, 3);
            put_field_bytes(&mut out, KEY_ID, target.as_slice());
        },
        RequestMsg::GraftPeer { peer } => {
            put_field_varint(&mut out, KEY_TYPE, 4);
            let pb = encode_peer(peer);
            put_field_bytes(&mut out, KEY_PEER, pb.as_slice());
        },
        RequestMsg::PrunePeer { peer_id } => {
            put_field_varint(&mut out, KEY_TYPE, 5);
            put_field_bytes(&mut out, KEY_ID, peer_id.as_slice());
        },
    }
    assert(out@ =~= message_bytes(m@));
    out
}

/// The payload of a response.
pub fn encode_response(m: &ResponseMsg) -> (r: Vec<u8>)
    ensures
        r@ == message_bytes(m@),
{
    let mut out: Vec<u8> = Vec::new();
    match m {
        ResponseMsg::Pong => put_field_varint(&mut out, KEY_TYPE, 6),
        ResponseMsg::ConnectAck { accepted } => {
            put_field_varint(&mut out, KEY_TYPE, 7);
            put_field_varint(&mut out, KEY_ACCEPTED, if *accepted { 1 } else { 0 });
        },
        ResponseMsg::Neighbors { peers } => {
            put_field_varint(&mut out, KEY_TYPE, 8);
            put_neighbors(&mut out, peers);
        },
    }
    assert(out@ =~= message_bytes(m@));
    out
}

/// The payload of a message of either family.
pub fn encode_message(m: &Message) -> (r: Vec<u8>)
    ensures
        r@ == message_bytes(m@),
{
    match m {
        Message::Request(q) => encode_request(q),
        Message::Response(s) => encode_response(s),
    }
}

} // verus!

verus! {

proof fn lemma_field_bytes_split(key: u8, d: Seq<u8>, rest: Seq<u8>)
    ensures
        (field_bytes(key, d) + rest).len() > 0,
        (field_bytes(key, d) + rest)[0] == key,
        (field_bytes(key, d) + rest).drop_first() == varint_bytes(d.len()) + (d + rest),
{
    assert((field_bytes(key, d) + rest).drop_first() =~= varint_bytes(d.len()) + (d + rest));
}

proof fn lemma_field_varint_split(key: u8, n: nat, rest: Seq<u8>)
    ensures
        (field_varint(key, n) + rest).len() > 0,
        (field_varint(key, n) + rest)[0] == key,
        (field_varint(key, n) + rest).drop_first() == varint_bytes(n) + rest,
{
    assert((field_varint(key, n) + rest).drop_first() =~= varint_bytes(n) + rest);
}

proof fn lemma_sub_first(b: Seq<u8>, pos: int, end: int)
    requires
        0 <= pos < end <= b.len(),
    ensures
        b.subrange(pos, end)[0] == b[pos],
        b.subrange(pos + 1, end) == b.subrange(pos, end).drop_first(),
{
    assert(b.subrange(pos + 1, end) =~= b.subrange(pos, end).drop_first());
}

/// Reads a varint field with the given key at `pos`.
fn read_field_varint(b: &[u8], pos: usize, end: usize, key: u8) -> (r: Option<(u64, usize)>)
    requires
        pos <= end <= b@.len(),
    ensures
        r matches Some((v, p)) ==> pos < p <= end && b@.subrange(pos as int, p as int)
            == field_varint(key, v as nat),
        forall|n: nat, rest: Seq<u8>|
            n <= u64::MAX && b@.subrange(pos as int, end as int) == #[trigger] (field_varint(
                key,
                n,
            ) + rest) ==> r == Some((n as u64, (end - rest.len()) as usize)),
{
    if pos < end && b[pos] == key {
        let r = read_varint_at(b, pos + 1, end);
        proof {
            assert forall|n: nat, rest: Seq<u8>|
                n <= u64::MAX && b@.subrange(pos as int, end as int) == #[trigger] (field_varint(
                    key,
                    n,
                ) + rest) implies r == Some((n as u64, (end - rest.len()) as usize)) by {
                lemma_sub_first(b@, pos as int, end as int);
                lemma_field_varint_split(key, n, rest);
            }
            if r is Some {
                let p = r->Some_0.1;
                assert(b@.subrange(pos as int, p as int) =~= seq![key] + b@.subrange(
                    pos as int + 1,
                    p as int,
                ));
            }
        }
        r
    } else {
        proof {
            assert forall|n: nat, rest: Seq<u8>|
                n <= u64::MAX && b@.subrange(pos as int, end as int) == #[trigger] (field_varint(
                    key,
                    n,
                ) + rest) implies false by {
                lemma_field_varint_split(key, n, rest);
                if pos < end {
                    lemma_sub_first(b@, pos as int, end as int);
                }
            }
        }
        None
    }
}

/// Reads a length-delimited field with the given key at `pos`.
fn read_field_bytes(b: &[u8], pos: usize, end: usize, key: u8) -> (r: Option<(Vec<u8>, usize)>)
    requires
        pos <= end <= b@.len(),
    ensures
        r matches Some((v, p)) ==> pos < p <= end,
        forall|d: Seq<u8>, rest: Seq<u8>|
            b@.subrange(pos as int, end as int) == #[trigger] (field_bytes(key, d) + rest) ==> (r
                matches Some((v, p)) && v@ == d && p == end - rest.len()),
{
    if pos < end && b[pos] == key {
        let r = read_varint_at(b, pos + 1, end);
        match r {
            None => {
                proof {
                    assert forall|d: Seq<u8>, rest: Seq<u8>|
                        b@.subrange(pos as int, end as int) == #[trigger] (field_bytes(key, d)
                            + rest) implies false by {
                        lemma_sub_first(b@, pos as int, end as int);
                        lemma_field_bytes_split(key, d, rest);
                    }
                }
                None
            },
            Some((len, q)) => {
                if len <= (end - q) as u64 {
                    let e = q + len as usize;
                    let v = copy_bytes(vstd::slice::slice_subrange(b, q, e));
                    proof {
                        assert forall|d: Seq<u8>, rest: Seq<u8>|
                            b@.subrange(pos as int, end as int) == #[trigger] (field_bytes(key, d)
                                + rest) implies v@ == d && e == end - rest.len() by {
                            lemma_sub_first(b@, pos as int, end as int);
                            lemma_field_bytes_split(key, d, rest);
                            let s1 = b@.subrange(pos as int + 1, end as int);
                            let vb = varint_bytes(d.len());
                            assert(s1 == vb + (d + rest));
                            assert((vb + (d + rest)).subrange(vb.len() as int, s1.len() as int)
                                =~= d + rest);
                            assert(b@.subrange(q as int, end as int) =~= s1.subrange(
                                q - pos - 1,
                                end - pos - 1,
                            ));
                            assert(v@ =~= (d + rest).subrange(0, len as int));
                        }
                    }
                    Some((v, e))
                } else {
                    proof {
                        assert forall|d: Seq<u8>, rest: Seq<u8>|
                            b@.subrange(pos as int, end as int) == #[trigger] (field_bytes(key, d)
                                + rest) implies false by {
                            lemma_sub_first(b@, pos as int, end as int);
                            lemma_field_bytes_split(key, d, rest);
                            let s1 = b@.subrange(pos as int + 1, end as int);
                            let vb = varint_bytes(d.len());
                            assert(s1 == vb + (d + rest));
                            assert((vb + (d + rest)).subrange(vb.len() as int, s1.len() as int)
                                =~= d + rest);
                            assert(b@.subrange(q as int, end as int) =~= s1.subrange(
                                q - pos - 1,
                                end - pos - 1,
                            ));
                        }
                    }
                    None
                }
            },
        }
    } else {
        proof {
            assert forall|d: Seq<u8>, rest: Seq<u8>|
                b@.subrange(pos as int, end as int) == #[trigger] (field_bytes(key, d)
                    + rest) implies false by {
                lemma_field_bytes_split(key, d, rest);
                if pos < end {
                    lemma_sub_first(b@, pos as int, end as int);
                }
            }
        }
        None
    }
}

} // verus!

verus! {

proof fn lemma_concat_skip(s: Seq<Seq<u8>>, i: int)
    requires
        0 <= i < s.len(),
    ensures
        concat(s.skip(i)) == s[i] + concat(s.skip(i + 1)),
{
    lemma_concat_first(s.skip(i));
    assert(s.skip(i).drop_first() =~= s.skip(i + 1));
}

proof fn lemma_suffix(b: Seq<u8>, pos: int, end: int, x: Seq<u8>, y: Seq<u8>)
    requires
        0 <= pos <= end <= b.len(),
        b.subrange(pos, end) == x + y,
    ensures
        b.subrange(end - y.len(), end) == y,
{
    assert(b.subrange(end - y.len(), end) =~= (x + y).subrange(x.len() as int, (x + y).len() as int));
}

/// Reads a whole buffer as a peer descriptor.
fn parse_peer(b: &[u8], Ghost(p): Ghost<PeerView>) -> (r: Option<Peer>)
    ensures
        b@ == peer_bytes(p) ==> (r matches Some(x) && x@ == p),
{
    let end = b.len();
    let ghost valid = b@ == peer_bytes(p);
    let ghost fields = addr_fields(p.addrs);
    let ghost cf = field_varint(KEY_PEER_CONN, conn_tag(p.conn_type));
    proof {
        assert(b@.subrange(0, end as int) =~= b@);
    }
    let (id, mut pos) = match read_field_bytes(b, 0, end, KEY_PEER_ID) {
        Some(x) => x,
        None => return None,
    };
    proof {
        if valid {
            assert(fields.skip(0) =~= fields);
        }
    }
    let mut addrs: Vec<Vec<u8>> = Vec::new();
    let ghost mut i: int = 0;
    while pos < end && b[pos] == KEY_PEER_ADDR
        invariant
            pos <= end == b@.len(),
            fields == addr_fields(p.addrs),
            cf == field_varint(KEY_PEER_CONN, conn_tag(p.conn_type)),
            valid == (b@ == peer_bytes(p)),
            valid ==> id@ == p.id,
            valid ==> 0 <= i <= fields.len() && fields.len() == p.addrs.len() && b@.subrange(
                pos as int,
                end as int,
            ) == concat(fields.skip(i)) + cf && addrs.len() == i && forall|j: int|
                0 <= j < i ==> addrs@[j]@ == p.addrs[j],
        decreases end - pos,
    {
        proof {
            if valid {
                if i == fields.len() {
                    assert(fields.skip(i) =~= Seq::<Seq<u8>>::empty());
                    assert(concat(fields.skip(i)) + cf =~= cf);
                    lemma_sub_first(b@, pos as int, end as int);
                } else {
                    lemma_concat_skip(fields, i);
                    assert(fields[i] == field_bytes(KEY_PEER_ADDR, p.addrs[i]));
                    assert(concat(fields.skip(i)) + cf =~= field_bytes(KEY_PEER_ADDR, p.addrs[i])
                        + (concat(fields.skip(i + 1)) + cf));
                }
            }
        }
        let (a, q) = match read_field_bytes(b, pos, end, KEY_PEER_ADDR) {
            Some(x) => x,
            None => return None,
        };
        proof {
            if valid {
                lemma_suffix(
                    b@,
                    pos as int,
                    end as int,
                    field_bytes(KEY_PEER_ADDR, p.addrs[i]),
                    concat(fields.skip(i + 1)) + cf,
                );
            }
        }
        addrs.push(a);
        pos = q;
        proof {
            i = i + 1;
        }
    }
    proof {
        if valid && i < fields.len() {
            lemma_concat_skip(fields, i);
            assert((concat(fields.skip(i)) + cf)[0] == field_bytes(KEY_PEER_ADDR, p.addrs[i])[0]);
            lemma_sub_first(b@, pos as int, end as int);
        }
        if valid {
            assert(fields.skip(i) =~= Seq::<Seq<u8>>::empty());
            assert(b@.subrange(pos as int, end as int) =~= cf + Seq::<u8>::empty());
        }
    }
    let (c, q) = match read_field_varint(b, pos, end, KEY_PEER_CONN) {
        Some(x) => x,
        None => return None,
    };
    if q != end {
        return None;
    }
    let ct = match ConnectionType::from_tag(c) {
        Some(t) => t,
        None => return None,
    };
    let peer = Peer { id, multiaddrs: addrs, conn_type: ct };
    proof {
        if valid {
            assert(addrs_view(peer.multiaddrs@) =~= p.addrs);
        }
    }
    Some(peer)
}

/// Reads `pos..end` as a list of neighbour entries.
fn parse_neighbors(b: &[u8], start: usize, end: usize, Ghost(ps): Ghost<Seq<PeerView>>) -> (r:
    Option<Vec<Peer>>)
    requires
        start <= end <= b@.len(),
    ensures
        b@.subrange(start as int, end as int) == concat(neighbor_fields(ps)) ==> (r matches Some(
            x,
        ) && peers_view(x@) == ps),
{
    let ghost valid = b@.subrange(start as int, end as int) == concat(neighbor_fields(ps));
    let ghost fields = neighbor_fields(ps);
    let mut pos = start;
    let mut out: Vec<Peer> = Vec::new();
    let ghost mut i: int = 0;
    proof {
        if valid {
            assert(fields.skip(0) =~= fields);
        }
    }
    while pos < end
        invariant
            pos <= end <= b@.len(),
            fields == neighbor_fields(ps),
            valid == (b@.subrange(start as int, end as int) == concat(neighbor_fields(ps))),
            valid ==> 0 <= i <= fields.len() && fields.len() == ps.len() && b@.subrange(
                pos as int,
                end as int,
            ) == concat(fields.skip(i)) && out.len() == i && forall|j: int|
                0 <= j < i ==> out@[j]@ == ps[j],
        decreases end - pos,
    {
        proof {
            if valid {
                if i == fields.len() {
                    assert(fields.skip(i) =~= Seq::<Seq<u8>>::empty());
                } else {
                    lemma_concat_skip(fields, i);
                    assert(fields[i] == field_bytes(KEY_NEIGHBOR, peer_bytes(ps[i])));
                    assert(b@.subrange(pos as int, end as int) == field_bytes(
                        KEY_NEIGHBOR,
                        peer_bytes(ps[i]),
                    ) + concat(fields.skip(i + 1)));
                }
            }
        }
        let (pb, q) = match read_field_bytes(b, pos, end, KEY_NEIGHBOR) {
            Some(x) => x,
            None => return None,
        };
        let ghost expected = if valid { ps[i] } else { arbitrary() };
        let peer = match parse_peer(pb.as_slice(), Ghost(expected)) {
            Some(x) => x,
            None => return None,
        };
        proof {
            if valid {
                lemma_suffix(
                    b@,
                    pos as int,
                    end as int,
                    field_bytes(KEY_NEIGHBOR, peer_bytes(ps[i])),
                    concat(fields.skip(i + 1)),
                );
            }
        }
        out.push(peer);
        pos = q;
        proof {
            i = i + 1;
        }
    }
    proof {
        if valid {
            if i < fields.len() {
                lemma_concat_skip(fields, i);
            }
            assert(peers_view(out@) =~= ps);
        }
    }
    Some(out)
}

} // verus!

verus! {

/// Faults of framing and of the payload bytes.
#[derive(Clone, Copy, Debug, PartialEq, Eq, Structural)]
pub enum CodecError {
    FrameTooLarge,
    Truncated,
    Malformed,
}

/// Faults of the message model.
#[derive(Clone, Copy, Debug, PartialEq, Eq, Structural)]
pub enum ModelError {
    UnknownMessageType,
    TypeMismatch,
}

/// Why bytes could not be read as a message.
#[derive(Clone, Copy, Debug, PartialEq, Eq, Structural)]
pub enum DecodeError {
    Codec(CodecError),
    Model(ModelError),
}

/// The error that decoding a payload that is no message gives.
pub open spec fn payload_error(b: Seq<u8>) -> DecodeError {
    if unknown_type(b) {
        DecodeError::Model(ModelError::UnknownMessageType)
    } else {
        DecodeError::Codec(CodecError::Malformed)
    }
}

fn parse_body(b: &[u8], pos: usize, tag: u64, Ghost(m): Ghost<MessageView>) -> (r: Option<
    Message,
>)
    requires
        pos <= b@.len(),
    ensures
        (tag == message_tag(m) && b@.subrange(pos as int, b@.len() as int) == body_bytes(m)) ==> (r
            matches Some(x) && x@ == m),
{
    let end = b.len();
    let ghost valid = tag == message_tag(m) && b@.subrange(pos as int, end as int) == body_bytes(
        m,
    );
    let ghost e = Seq::<u8>::empty();
    if tag == 0 || tag == 1 || tag == 2 || tag == 6 {
        if pos != end {
            return None;
        }
        if tag == 0 {
            Some(Message::Request(RequestMsg::Ping))
        } else if tag == 1 {
            Some(Message::Request(RequestMsg::Connect))
        } else if tag == 2 {
            Some(Message::Request(RequestMsg::Disconnect))
        } else {
            Some(Message::Response(ResponseMsg::Pong))
        }
    } else if tag == 3 || tag == 5 {
        proof {
            if valid {
                assert(b@.subrange(pos as int, end as int) =~= body_bytes(m) + e);
            }
        }
        let (v, q) = match read_field_bytes(b, pos, end, KEY_ID) {
            Some(x) => x,
            None => return None,
        };
        if q != end {
            return None;
        }
        if tag == 3 {
            Some(Message::Request(RequestMsg::FindNode { target: v }))
        } else {
            Some(Message::Request(RequestMsg::PrunePeer { peer_id: v }))
        }
    } else if tag == 4 {
        proof {
            if valid {
                assert(b@.subrange(pos as int, end as int) =~= body_bytes(m) + e);
            }
        }
        let (v, q) = match read_field_bytes(b, pos, end, KEY_PEER) {
            Some(x) => x,
            None => return None,
        };
        if q != end {
            return None;
        }
        let ghost expected = if valid { m->GraftPeer_0 } else { arbitrary() };
        match parse_peer(v.as_slice(), Ghost(expected)) {
            Some(p) => Some(Message::Request(RequestMsg::GraftPeer { peer: p })),
            None => None,
        }
    } else if tag == 7 {
        proof {
            if valid {
                assert(b@.subrange(pos as int, end as int) =~= body_bytes(m) + e);
            }
        }
        let (v, q) = match read_field_varint(b, pos, end, KEY_ACCEPTED) {
            Some(x) => x,
            None => return None,
        };
        if q != end || v > 1 {
            return None;
        }
        Some(Message::Response(ResponseMsg::ConnectAck { accepted: v == 1 }))
    } else if tag == 8 {
        let ghost expected = if valid { m->Neighbors_0 } else { arbitrary() };
        match parse_neighbors(b, pos, end, Ghost(expected)) {
            Some(ps) => Some(Message::Response(ResponseMsg::Neighbors { peers: ps })),
            None => None,
        }
    } else {
        None
    }
}

/// Reads a payload as a message of either family.
pub fn decode_message(b: &[u8]) -> (r: Result<Message, DecodeError>)
    ensures
        r matches Ok(x) ==> decoded(b@) == Some(x@),
        decoded(b@) is Some ==> r is Ok,
        r matches Err(e) ==> e == payload_error(b@),
{
    let end = b.len();
    let ghost m = decoded(b@)->Some_0;
    let ghost valid = decoded(b@) is Some;
    proof {
        assert(b@.subrange(0, end as int) =~= b@);
        if valid {
            lemma_decode_encode(m);
            lemma_message_bytes_injective(m, choose|x: MessageView| message_bytes(x) == b@);
            lemma_known_type(m);
            assert(message_tag(m) <= 8);
        }
        if unknown_type(b@) {
            let (t, rest) = choose|t: nat, rest: Seq<u8>|
                8 < t <= u64::MAX && b@ == #[trigger] (field_varint(KEY_TYPE, t) + rest);
            assert(b@.len() >= field_varint(KEY_TYPE, t).len());
        }
    }
    let (tag, pos) = match read_field_varint(b, 0, end, KEY_TYPE) {
        Some(x) => x,
        None => {
            return Err(DecodeError::Codec(CodecError::Malformed));
        },
    };
    if tag > MAX_TAG {
        proof {
            assert(b@ =~= field_varint(KEY_TYPE, tag as nat) + b@.subrange(pos as int, end as int));
        }
        return Err(DecodeError::Model(ModelError::UnknownMessageType));
    }
    proof {
        if valid {
            lemma_suffix(b@, 0, end as int, field_varint(KEY_TYPE, message_tag(m)), body_bytes(m));
        }
    }
    let msg = match parse_body(b, pos, tag, Ghost(m)) {
        Some(x) => x,
        None => {
            return Err(DecodeError::Codec(CodecError::Malformed));
        },
    };
    let again = encode_message(&msg);
    if bytes_eq(again.as_slice(), b) {
        proof {
            lemma_decode_encode(msg@);
        }
        Ok(msg)
    } else {
        Err(DecodeError::Codec(CodecError::Malformed))
    }
}

} // verus!

verus! {

/// A frame: the payload length as a varint, then the payload.
pub open spec fn frame_bytes(p: Seq<u8>) -> Seq<u8> {
    varint_bytes(p.len()) + p
}

/// Reads a payload as a request; a response there is a type mismatch.
pub fn decode_request(b: &[u8]) -> (r: Result<RequestMsg, DecodeError>)
    ensures
        r matches Ok(x) ==> decoded(b@) == Some(x@),
        decoded(b@) matches Some(m) ==> (is_request(m) ==> r is Ok) && (!is_request(m) ==> r
            == Err::<RequestMsg, DecodeError>(DecodeError::Model(ModelError::TypeMismatch))),
        decoded(b@) is None ==> r == Err::<RequestMsg, DecodeError>(payload_error(b@)),
{
    match decode_message(b) {
        Ok(Message::Request(q)) => Ok(q),
        Ok(Message::Response(_)) => Err(DecodeError::Model(ModelError::TypeMismatch)),
        Err(e) => Err(e),
    }
}

/// Reads a payload as a response; a request there is a type mismatch.
pub fn decode_response(b: &[u8]) -> (r: Result<ResponseMsg, DecodeError>)
    ensures
        r matches Ok(x) ==> decoded(b@) == Some(x@),
        decoded(b@) matches Some(m) ==> (!is_request(m) ==> r is Ok) && (is_request(m) ==> r
            == Err::<ResponseMsg, DecodeError>(DecodeError::Model(ModelError::TypeMismatch))),
        decoded(b@) is None ==> r == Err::<ResponseMsg, DecodeError>(payload_error(b@)),
{
    match decode_message(b) {
        Ok(Message::Response(q)) => Ok(q),
        Ok(Message::Request(_)) => Err(DecodeError::Model(ModelError::TypeMismatch)),
        Err(e) => Err(e),
    }
}

/// Frames a payload, refusing one longer than `max` bytes.
pub fn encode_frame(payload: &[u8], max: usize) -> (r: Result<Vec<u8>, CodecError>)
    ensures
        payload@.len() <= max ==> (r matches Ok(f) && f@ == frame_bytes(payload@)),
        payload@.len() > max ==> r == Err::<Vec<u8>, CodecError>(CodecError::FrameTooLarge),
{
    if payload.len() > max {
        return Err(CodecError::FrameTooLarge);
    }
    let mut out = uvi_encode(payload.len() as u64);
    let mut i: usize = 0;
    let ghost mid = out@;
    while i < payload.len()
        invariant
            i <= payload@.len(),
            out@ == mid + payload@.subrange(0, i as int),
        decreases payload.len() - i,
    {
        out.push(payload[i]);
        i += 1;
        assert(out@ =~= mid + payload@.subrange(0, i as int));
    }
    assert(payload@.subrange(0, i as int) =~= payload@);
    Ok(out)
}

/// Reads one frame from the front of `b`: its payload and the number of
/// bytes the frame takes.
pub fn decode_frame(b: &[u8], max: usize) -> (r: Result<(Vec<u8>, usize), CodecError>)
    ensures
        r matches Ok((p, c)) ==> p@.len() <= max && c <= b@.len() && b@.subrange(0, c as int)
            == frame_bytes(p@),
        forall|n: nat, rest: Seq<u8>|
            n <= u64::MAX && b@ == #[trigger] (varint_bytes(n) + rest) ==> (n > max ==> r
                == Err::<(Vec<u8>, usize), CodecError>(CodecError::FrameTooLarge)) && (n <= max
                && rest.len() < n ==> r == Err::<(Vec<u8>, usize), CodecError>(
                CodecError::Truncated,
            )) && (n <= max && n <= rest.len() ==> (r matches Ok((p, c)) && p@ == rest.take(
                n as int,
            ) && c == b@.len() - rest.len() + n)),
        (b@.len() < 10 && forall|i: int| 0 <= i < b@.len() ==> b@[i] >= 0x80) ==> r == Err::<
            (Vec<u8>, usize),
            CodecError,
        >(CodecError::Truncated),
{
    let (n, k) = match uvi_decode(b) {
        Ok(x) => x,
        Err(VarintFault::Insufficient) => return Err(CodecError::Truncated),
        Err(VarintFault::Invalid) => return Err(CodecError::Malformed),
    };
    let start = b.len() - k;
    let canon = uvi_encode(n);
    if !bytes_eq(canon.as_slice(), vstd::slice::slice_subrange(b, 0, start)) {
        proof {
            assert forall|m: nat, rest: Seq<u8>|
                m <= u64::MAX && b@ == #[trigger] (varint_bytes(m) + rest) implies false by {
                assert(b@.subrange(0, start as int) =~= varint_bytes(m));
            }
        }
        return Err(CodecError::Malformed);
    }
    proof {
        assert(b@ =~= varint_bytes(n as nat) + b@.subrange(start as int, b@.len() as int));
        assert forall|m: nat, rest: Seq<u8>|
            m <= u64::MAX && b@ == #[trigger] (varint_bytes(m) + rest) implies m == n && rest
            == b@.subrange(start as int, b@.len() as int) by {
            lemma_varint_prefix_free(m, rest, n as nat, b@.subrange(start as int, b@.len() as int));
        }
    }
    if n > max as u64 {
        return Err(CodecError::FrameTooLarge);
    }
    if n > k as u64 {
        return Err(CodecError::Truncated);
    }
    let end = start + n as usize;
    let payload = copy_bytes(vstd::slice::slice_subrange(b, start, end));
    proof {
        assert(b@.subrange(0, end as int) =~= frame_bytes(payload@));
        assert(payload@ =~= b@.subrange(start as int, b@.len() as int).take(n as int));
    }
    Ok((payload, end))
}

/// Frames the payload of a request.
pub fn encode_request_frame(m: &RequestMsg, max: usize) -> (r: Result<Vec<u8>, CodecError>)
    ensures
        message_bytes(m@).len() <= max ==> (r matches Ok(f) && f@ == frame_bytes(
            message_bytes(m@),
        )),
        message_bytes(m@).len() > max ==> r == Err::<Vec<u8>, CodecError>(
            CodecError::FrameTooLarge,
        ),
{
    let payload = encode_request(m);
    encode_frame(payload.as_slice(), max)
}

/// Frames the payload of a response.
pub fn encode_response_frame(m: &ResponseMsg, max: usize) -> (r: Result<Vec<u8>, CodecError>)
    ensures
        message_bytes(m@).len() <= max ==> (r matches Ok(f) && f@ == frame_bytes(
            message_bytes(m@),
        )),
        message_bytes(m@).len() > max ==> r == Err::<Vec<u8>, CodecError>(
            CodecError::FrameTooLarge,
        ),
{
    let payload = encode_response(m);
    encode_frame(payload.as_slice(), max)
}

/// What reading `b` as a framed request gives, where `b` starts with the
/// length prefix `n` followed by `rest`: a declared length over `max` is too
/// large; fewer bytes than declared are truncated; otherwise the payload
/// decides.
pub open spec fn request_frame_result(
    b: Seq<u8>,
    max: nat,
    n: nat,
    rest: Seq<u8>,
    r: Result<(RequestMsg, usize), DecodeError>,
) -> bool {
    let p = rest.take(n as int);
    &&& n > max ==> r == Err::<(RequestMsg, usize), DecodeError>(
        DecodeError::Codec(CodecError::FrameTooLarge),
    )
    &&& n <= max && rest.len() < n ==> r == Err::<(RequestMsg, usize), DecodeError>(
        DecodeError::Codec(CodecError::Truncated),
    )
    &&& n <= max && n <= rest.len() && decoded(p) is None ==> r == Err::<
        (RequestMsg, usize),
        DecodeError,
    >(payload_error(p))
    &&& n <= max && n <= rest.len() ==> (decoded(p) matches Some(m) ==> (!is_request(m) ==> r == Err::<
        (RequestMsg, usize),
        DecodeError,
    >(DecodeError::Model(ModelError::TypeMismatch))) && (is_request(m) ==> (r matches Ok((x, c))
        && x@ == m && c == b.len() - rest.len() + n)))
}

/// Reads one framed request from the front of `b`, with the number of bytes
/// it took.
pub fn decode_request_frame(b: &[u8], max: usize) -> (r: Result<(RequestMsg, usize), DecodeError>)
    ensures
        forall|n: nat, rest: Seq<u8>|
            n <= u64::MAX && b@ == #[trigger] (varint_bytes(n) + rest) ==> request_frame_result(
                b@,
                max as nat,
                n,
                rest,
                r,
            ),
        (b@.len() < 10 && forall|i: int| 0 <= i < b@.len() ==> b@[i] >= 0x80) ==> r == Err::<
            (RequestMsg, usize),
            DecodeError,
        >(DecodeError::Codec(CodecError::Truncated)),
        r matches Ok((x, c)) ==> c <= b@.len() && b@.subrange(0, c as int) == frame_bytes(
            message_bytes(x@),
        ) && message_bytes(x@).len() <= max,
        forall|m: MessageView, rest: Seq<u8>|
            is_request(m) && message_bytes(m).len() <= max && b@ == #[trigger] (frame_bytes(
                message_bytes(m),
            ) + rest) ==> (r matches Ok((x, c)) && x@ == m && c == b@.len() - rest.len()),
{
    let res = decode_frame(b, max);
    proof {
        assert forall|m: MessageView, rest: Seq<u8>|
            is_request(m) && message_bytes(m).len() <= max && b@ == #[trigger] (frame_bytes(
                message_bytes(m),
            ) + rest) implies (res matches Ok((p, c)) && p@ == message_bytes(m) && c == b@.len()
            - rest.len()) by {
            let pm = message_bytes(m);
            assert(b@ =~= varint_bytes(pm.len()) + (pm + rest));
            assert((pm + rest).take(pm.len() as int) =~= pm);
        }
    }
    match res {
        Err(e) => Err(DecodeError::Codec(e)),
        Ok((payload, c)) => {
            let d = decode_request(payload.as_slice());
            proof {
                assert forall|m: MessageView, rest: Seq<u8>|
                    is_request(m) && message_bytes(m).len() <= max && b@ == #[trigger] (
                    frame_bytes(message_bytes(m)) + rest) implies (d matches Ok(x) && x@ == m) by {
                    lemma_decode_encode(m);
                }
            }
            match d {
                Ok(x) => {
                    proof {
                        lemma_message_bytes_injective(x@, decoded(payload@)->Some_0);
                        lemma_decode_encode(x@);
                    }
                    Ok((x, c))
                },
                Err(e) => Err(e),
            }
        },
    }
}

/// What reading `b` as a framed response gives, where `b` starts with the
/// length prefix `n` followed by `rest`: a declared length over `max` is too
/// large; fewer bytes than declared are truncated; otherwise the payload
/// decides.
pub open spec fn response_frame_result(
    b: Seq<u8>,
    max: nat,
    n: nat,
    rest: Seq<u8>,
    r: Result<(ResponseMsg, usize), DecodeError>,
) -> bool {
    let p = rest.take(n as int);
    &&& n > max ==> r == Err::<(ResponseMsg, usize), DecodeError>(
        DecodeError::Codec(CodecError::FrameTooLarge),
    )
    &&& n <= max && rest.len() < n ==> r == Err::<(ResponseMsg, usize), DecodeError>(
        DecodeError::Codec(CodecError::Truncated),
    )
    &&& n <= max && n <= rest.len() && decoded(p) is None ==> r == Err::<
        (ResponseMsg, usize),
        DecodeError,
    >(payload_error(p))
    &&& n <= max && n <= rest.len() ==> (decoded(p) matches Some(m) ==> (is_request(m) ==> r == Err::<
        (ResponseMsg, usize),
        DecodeError,
    >(DecodeError::Model(ModelError::TypeMismatch))) && (!is_request(m) ==> (r matches Ok((x, c))
        && x@ == m && c == b.len() - rest.len() + n)))
}

/// Reads one framed response from the front of `b`, with the number of bytes
/// it took.
pub fn decode_response_frame(b: &[u8], max: usize) -> (r: Result<(ResponseMsg, usize), DecodeError>)
    ensures
        forall|n: nat, rest: Seq<u8>|
            n <= u64::MAX && b@ == #[trigger] (varint_bytes(n) + rest) ==> response_frame_result(
                b@,
                max as nat,
                n,
                rest,
                r,
            ),
        (b@.len() < 10 && forall|i: int| 0 <= i < b@.len() ==> b@[i] >= 0x80) ==> r == Err::<
            (ResponseMsg, usize),
            DecodeError,
        >(DecodeError::Codec(CodecError::Truncated)),
        r matches Ok((x, c)) ==> c <= b@.len() && b@.subrange(0, c as int) == frame_bytes(
            message_bytes(x@),
        ) && message_bytes(x@).len() <= max,
        forall|m: MessageView, rest: Seq<u8>|
            !is_request(m) && message_bytes(m).len() <= max && b@ == #[trigger] (frame_bytes(
                message_bytes(m),
            ) + rest) ==> (r matches Ok((x, c)) && x@ == m && c == b@.len() - rest.len()),
{
    let res = decode_frame(b, max);
    proof {
        assert forall|m: MessageView, rest: Seq<u8>|
            !is_request(m) && message_bytes(m).len() <= max && b@ == #[trigger] (frame_bytes(
                message_bytes(m),
            ) + rest) implies (res matches Ok((p, c)) && p@ == message_bytes(m) && c == b@.len()
            - rest.len()) by {
            let pm = message_bytes(m);
            assert(b@ =~= varint_bytes(pm.len()) + (pm + rest));
            assert((pm + rest).take(pm.len() as int) =~= pm);
        }
    }
    match res {
        Err(e) => Err(DecodeError::Codec(e)),
        Ok((payload, c)) => {
            let d = decode_response(payload.as_slice());
            proof {
                assert forall|m: MessageView, rest: Seq<u8>|
                    !is_request(m) && message_bytes(m).len() <= max && b@ == #[trigger] (
                    frame_bytes(message_bytes(m)) + rest) implies (d matches Ok(x) && x@ == m) by {
                    lemma_decode_encode(m);
                }
            }
            match d {
                Ok(x) => {
                    proof {
                        lemma_message_bytes_injective(x@, decoded(payload@)->Some_0);
                        lemma_decode_encode(x@);
                    }
                    Ok((x, c))
                },
                Err(e) => Err(e),
            }
        },
    }
}

} // verus!
