//! LEB128 variable-length integers, as used for frame lengths and for the
//! fields of the message schema.
use vstd::prelude::*;

verus! {

/// The canonical (minimal) LEB128 encoding of `n`.
pub open spec fn varint_bytes(n: nat) -> Seq<u8>
    decreases n,
{
    if n < 128 {
        seq![n as u8]
    } else {
        seq![(n % 128 + 128) as u8] + varint_bytes(n / 128)
    }
}

/// Two sequences split at the same point agree on both sides.
pub proof fn lemma_split_eq(a1: Seq<u8>, r1: Seq<u8>, a2: Seq<u8>, r2: Seq<u8>)
    requires
        a1 + r1 == a2 + r2,
        a1.len() == a2.len(),
    ensures
        a1 == a2,
        r1 == r2,
{
    assert(a1 =~= (a1 + r1).subrange(0, a1.len() as int));
    assert(a2 =~= (a2 + r2).subrange(0, a2.len() as int));
    assert(r1 =~= (a1 + r1).subrange(a1.len() as int, (a1 + r1).len() as int));
    assert(r2 =~= (a2 + r2).subrange(a2.len() as int, (a2 + r2).len() as int));
}

/// The canonical encoding is prefix-free: a stream that starts with the
/// encodings of `a` and of `b` has `a == b`, and the rest agrees.
pub proof fn lemma_varint_prefix_free(a: nat, r1: Seq<u8>, b: nat, r2: Seq<u8>)
    requires
        varint_bytes(a) + r1 == varint_bytes(b) + r2,
    ensures
        a == b,
        r1 == r2,
    decreases a,
{
    let s1 = varint_bytes(a) + r1;
    let s2 = varint_bytes(b) + r2;
    assert(s1[0] == varint_bytes(a)[0]);
    assert(s2[0] == varint_bytes(b)[0]);
    if a < 128 && b < 128 {
        lemma_split_eq(varint_bytes(a), r1, varint_bytes(b), r2);
    } else if a >= 128 && b >= 128 {
        let ta = varint_bytes(a / 128);
        let tb = varint_bytes(b / 128);
        assert(s1 =~= seq![(a % 128 + 128) as u8] + (ta + r1));
        assert(s2 =~= seq![(b % 128 + 128) as u8] + (tb + r2));
        lemma_split_eq(seq![(a % 128 + 128) as u8], ta + r1, seq![(b % 128 + 128) as u8], tb + r2);
        assert(seq![(a % 128 + 128) as u8][0] == seq![(b % 128 + 128) as u8][0]);
        lemma_varint_prefix_free(a / 128, r1, b / 128, r2);
    }
}

} // verus!

verus! {

/// Why a length prefix could not be read.
#[derive(Clone, Copy, Debug, PartialEq, Eq, Structural)]
pub enum VarintFault {
    /// The input ended inside the integer.
    Insufficient,
    /// The bytes are not a minimal 64-bit encoding.
    Invalid,
}

/// A value read from the front of a slice and the number of bytes after it.
pub type VarintRead = Result<(u64, usize), VarintFault>;

/// Relies on `prost::encoding::encode_varint`: it appends the LEB128 encoding
/// of `n` to the buffer.
#[verifier::external_body]
pub(crate) fn pb_put_varint(n: u64, out: &mut Vec<u8>)
    ensures
        final(out)@ == old(out)@ + varint_bytes(n as nat),
{
    prost::encoding::encode_varint(n, out)
}

/// Relies on `prost::encoding::decode_varint`: it reads a LEB128 integer from
/// the front of the slice; here the value and the number of bytes left after
/// it come back.
#[verifier::external_body]
pub(crate) fn pb_read_varint(b: &[u8]) -> (r: Option<(u64, usize)>)
    ensures
        r matches Some((n, k)) ==> k < b@.len(),
        forall|n: nat, rest: Seq<u8>|
            n <= u64::MAX && b@ == #[trigger] (varint_bytes(n) + rest) ==> r == Some(
                (n as u64, rest.len() as usize),
            ),
{
    let mut s = b;
    match prost::encoding::decode_varint(&mut s) {
        Ok(n) => Some((n, s.len())),
        Err(_) => None,
    }
}

/// Relies on `unsigned_varint::encode::u64`: the minimal LEB128 encoding of `n`.
#[verifier::external_body]
pub(crate) fn uvi_encode(n: u64) -> (r: Vec<u8>)
    ensures
        r@ == varint_bytes(n as nat),
{
    let mut buf = unsigned_varint::encode::u64_buffer();
    unsigned_varint::encode::u64(n, &mut buf).to_vec()
}

/// Relies on `unsigned_varint::decode::u64`: it reads a minimal LEB128 integer
/// from the front of the slice; here the value and the number of bytes left
/// after it come back. A slice of fewer than ten bytes that all carry the
/// continuation bit is reported as insufficient.
#[verifier::external_body]
pub(crate) fn uvi_decode(b: &[u8]) -> (r: VarintRead)
    ensures
        r matches Ok((n, k)) ==> k < b@.len(),
        forall|n: nat, rest: Seq<u8>|
            n <= u64::MAX && b@ == #[trigger] (varint_bytes(n) + rest) ==> r == VarintRead::Ok(
                (n as u64, rest.len() as usize),
            ),
        (b@.len() < 10 && forall|i: int| 0 <= i < b@.len() ==> b@[i] >= 0x80) ==> r
            == VarintRead::Err(VarintFault::Insufficient),
{
    match unsigned_varint::decode::u64(b) {
        Ok((n, rest)) => Ok((n, rest.len())),
        Err(unsigned_varint::decode::Error::Insufficient) => Err(VarintFault::Insufficient),
        Err(_) => Err(VarintFault::Invalid),
    }
}

/// Compares two byte strings.
pub fn bytes_eq(a: &[u8], b: &[u8]) -> (r: bool)
    ensures
        r == (a@ == b@),
{
    if a.len() != b.len() {
        return false;
    }
    let mut i: usize = 0;
    while i < a.len()
        invariant
            i <= a@.len(),
            a@.len() == b@.len(),
            a@.subrange(0, i as int) == b@.subrange(0, i as int),
        decreases a.len() - i,
    {
        if a[i] != b[i] {
            assert(a@.subrange(0, i as int + 1)[i as int] != b@.subrange(0, i as int + 1)[i as int]);
            return false;
        }
        assert(a@.subrange(0, i as int + 1) =~= a@.subrange(0, i as int).push(a@[i as int]));
        assert(b@.subrange(0, i as int + 1) =~= b@.subrange(0, i as int).push(b@[i as int]));
        i += 1;
    }
    assert(a@ =~= a@.subrange(0, i as int));
    assert(b@ =~= b@.subrange(0, i as int));
    true
}

/// Reads the minimal LEB128 integer that starts at `pos`, within `end`.
pub fn read_varint_at(b: &[u8], pos: usize, end: usize) -> (r: Option<(u64, usize)>)
    requires
        pos <= end <= b@.len(),
    ensures
        r matches Some((n, p)) ==> pos < p <= end && b@.subrange(pos as int, p as int)
            == varint_bytes(n as nat),
        forall|n: nat, rest: Seq<u8>|
            n <= u64::MAX && b@.subrange(pos as int, end as int) == #[trigger] (varint_bytes(n)
                + rest) ==> r == Some((n as u64, (end - rest.len()) as usize)),
{
    let sub = vstd::slice::slice_subrange(b, pos, end);
    match pb_read_varint(sub) {
        None => None,
        Some((n, k)) => {
            let p = end - k;
            let mut canon: Vec<u8> = Vec::new();
            pb_put_varint(n, &mut canon);
            assert(canon@ =~= varint_bytes(n as nat));
            let read = vstd::slice::slice_subrange(b, pos, p);
            if bytes_eq(canon.as_slice(), read) {
                Some((n, p))
            } else {
                proof {
                    assert forall|m: nat, rest: Seq<u8>|
                        m <= u64::MAX && b@.subrange(pos as int, end as int) == #[trigger] (
                        varint_bytes(m) + rest) implies false by {
                        assert(sub@ == varint_bytes(m) + rest);
                        assert(read@ =~= sub@.subrange(0, (p - pos) as int));
                        assert(varint_bytes(m) =~= sub@.subrange(0, varint_bytes(m).len() as int));
                    }
                }
                None
            }
        },
    }
}

} // verus!
