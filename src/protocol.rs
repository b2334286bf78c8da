//! Protocol identifiers, per-connection codec settings and negotiation.
use vstd::prelude::*;
use crate::varint::bytes_eq;
use crate::message::copy_bytes;
use crate::store::bytes_views;

verus! {

/// The largest payload a frame may carry by default: 4 MiB.
pub const MAX_PACKET_SIZE: usize = 4194304;

/// The identifier of this protocol, `/rubon/overlay/0.1.0`.
pub open spec fn protocol_name_spec() -> Seq<u8> {
    seq![47, 114, 117, 98, 111, 110, 47, 111, 118, 101, 114, 108, 97, 121, 47, 48, 46, 49, 46, 48]
}

/// The bytes of the identifier of this protocol.
pub fn protocol_name() -> (r: Vec<u8>)
    ensures
        r@ == protocol_name_spec(),
{
    let r: Vec<u8> = vec![
        47, 114, 117, 98, 111, 110, 47, 111, 118, 101, 114, 108, 97, 121, 47, 48, 46, 49, 46, 48,
    ];
    assert(r@ =~= protocol_name_spec());
    r
}

/// The identifiers a node offers, most preferred first, and the largest
/// payload its frames may carry.
#[derive(Debug)]
pub struct OverlayProtocolConfig {
    pub protocol_names: Vec<Vec<u8>>,
    pub max_packet_size: usize,
}

/// Negotiation found no identifier that both sides support.
#[derive(Clone, Copy, Debug, PartialEq, Eq, Structural)]
pub enum NegotiationError {
    NoCommonProtocol,
}

/// Copies a list of byte strings.
pub fn copy_names(v: &Vec<Vec<u8>>) -> (r: Vec<Vec<u8>>)
    ensures
        bytes_views(r@) == bytes_views(v@),
{
    let mut out: Vec<Vec<u8>> = Vec::new();
    let mut i: usize = 0;
    while i < v.len()
        invariant
            i <= v@.len(),
            out@.len() == i,
            forall|j: int| 0 <= j < i ==> #[trigger] out@[j]@ == v@[j]@,
        decreases v.len() - i,
    {
        out.push(copy_bytes(v[i].as_slice()));
        i += 1;
    }
    assert(bytes_views(out@) =~= bytes_views(v@));
    out
}

impl OverlayProtocolConfig {
    pub open spec fn names(&self) -> Seq<Seq<u8>> {
        bytes_views(self.protocol_names@)
    }

    /// The identifiers offered, most preferred first.
    pub fn protocol_names(&self) -> (r: &Vec<Vec<u8>>)
        ensures
            bytes_views(r@) == self.names(),
    {
        &self.protocol_names
    }

    pub fn set_protocol_names(&mut self, names: Vec<Vec<u8>>)
        ensures
            final(self).names() == bytes_views(names@),
            final(self).max_packet_size == old(self).max_packet_size,
    {
        self.protocol_names = names;
    }

    pub fn set_max_packet_size(&mut self, size: usize)
        ensures
            final(self).max_packet_size == size,
            final(self).names() == old(self).names(),
    {
        self.max_packet_size = size;
    }

    /// The identifiers to hand to the transport's handshake.
    pub fn protocol_info(&self) -> (r: Vec<Vec<u8>>)
        ensures
            bytes_views(r@) == self.names(),
    {
        copy_names(&self.protocol_names)
    }
}

impl Default for OverlayProtocolConfig {
    fn default() -> (r: OverlayProtocolConfig)
        ensures
            r.names() == seq![protocol_name_spec()],
            r.max_packet_size == MAX_PACKET_SIZE,
    {
        let names: Vec<Vec<u8>> = vec![protocol_name()];
        assert(bytes_views(names@) =~= seq![protocol_name_spec()]);
        OverlayProtocolConfig { protocol_names: names, max_packet_size: MAX_PACKET_SIZE }
    }
}

/// Picks the identifier to speak: the first of the dialer's list, in its
/// order of preference, that the listener supports. Returns its position in
/// the dialer's list.
pub fn select_protocol(dialer: &Vec<Vec<u8>>, listener: &Vec<Vec<u8>>) -> (r: Result<
    usize,
    NegotiationError,
>)
    ensures
        r matches Ok(i) ==> i < dialer@.len() && bytes_views(listener@).contains(dialer@[i as int]@)
            && forall|j: int|
            0 <= j < i ==> !bytes_views(listener@).contains(#[trigger] dialer@[j]@),
        r is Err <==> forall|j: int|
            0 <= j < dialer@.len() ==> !bytes_views(listener@).contains(#[trigger] dialer@[j]@),
{
    let ghost lv = bytes_views(listener@);
    let mut i: usize = 0;
    while i < dialer.len()
        invariant
            i <= dialer@.len(),
            lv == bytes_views(listener@),
            forall|j: int| 0 <= j < i ==> !lv.contains(#[trigger] dialer@[j]@),
        decreases dialer.len() - i,
    {
        let mut k: usize = 0;
        while k < listener.len()
            invariant
                i < dialer@.len(),
                k <= listener@.len(),
                lv == bytes_views(listener@),
                forall|j: int| 0 <= j < k ==> lv[j] != dialer@[i as int]@,
                forall|j: int| 0 <= j < i ==> !lv.contains(#[trigger] dialer@[j]@),
            decreases listener.len() - k,
        {
            if bytes_eq(dialer[i].as_slice(), listener[k].as_slice()) {
                assert(lv[k as int] == dialer@[i as int]@);
                return Ok(i);
            }
            k += 1;
        }
        proof {
            if lv.contains(dialer@[i as int]@) {
                let j = choose|j: int| 0 <= j < lv.len() && lv[j] == dialer@[i as int]@;
                assert(false);
            }
        }
        i += 1;
    }
    Err(NegotiationError::NoCommonProtocol)
}

} // verus!
