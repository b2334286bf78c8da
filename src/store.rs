//! The peer descriptor store: known peers with their addresses and
//! reachability.
use vstd::prelude::*;
use crate::varint::bytes_eq;
use crate::message::{ConnectionType, Peer, PeerView, copy_bytes, peers_view};

verus! {

/// One known peer, with the sequence number of the evidence that last set
/// its state and the time it was last heard of.
#[derive(Debug)]
pub struct PeerRecord {
    pub peer: Peer,
    pub seq: u64,
    pub last_seen: u64,
}

/// Known peers, in the order they were first learned.
#[derive(Debug)]
pub struct PeerStore {
    pub records: Vec<PeerRecord>,
}

/// Addresses `b` merged into `a`: those not yet present are appended in
/// their order, duplicates dropped.
pub open spec fn merge_addrs(a: Seq<Seq<u8>>, b: Seq<Seq<u8>>) -> Seq<Seq<u8>>
    decreases b.len(),
{
    if b.len() == 0 {
        a
    } else {
        let m = merge_addrs(a, b.drop_last());
        if m.contains(b.last()) {
            m
        } else {
            m.push(b.last())
        }
    }
}

/// Whether some record of `s` has identifier `id`.
pub open spec fn has_id(s: Seq<PeerRecord>, id: Seq<u8>) -> bool {
    exists|i: int| 0 <= i < s.len() && #[trigger] s[i].peer.id@ == id
}

/// Whether the byte strings of `v` include `x`.
pub fn contains_bytes(v: &Vec<Vec<u8>>, x: &[u8]) -> (r: bool)
    ensures
        r == exists|i: int| 0 <= i < v@.len() && #[trigger] v@[i]@ == x@,
{
    let mut i: usize = 0;
    while i < v.len()
        invariant
            i <= v@.len(),
            forall|j: int| 0 <= j < i ==> #[trigger] v@[j]@ != x@,
        decreases v.len() - i,
    {
        if bytes_eq(v[i].as_slice(), x) {
            return true;
        }
        i += 1;
    }
    false
}

impl PeerStore {
    pub fn new() -> (r: PeerStore)
        ensures
            r.records@.len() == 0,
    {
        PeerStore { records: Vec::new() }
    }

    /// Position of the record with identifier `id`, the first if several.
    pub fn find(&self, id: &[u8]) -> (r: Option<usize>)
        ensures
            r matches Some(i) ==> i < self.records@.len() && self.records@[i as int].peer.id@
                == id@ && forall|j: int| 0 <= j < i ==> #[trigger] self.records@[j].peer.id@ != id@,
            r is None <==> !has_id(self.records@, id@),
    {
        let mut i: usize = 0;
        while i < self.records.len()
            invariant
                i <= self.records@.len(),
                forall|j: int| 0 <= j < i ==> #[trigger] self.records@[j].peer.id@ != id@,
            decreases self.records.len() - i,
        {
            if bytes_eq(self.records[i].peer.id.as_slice(), id) {
                return Some(i);
            }
            i += 1;
        }
        None
    }

    /// A copy of the descriptor of the peer with identifier `id`.
    pub fn get(&self, id: &[u8]) -> (r: Option<Peer>)
        ensures
            r is None <==> !has_id(self.records@, id@),
            r matches Some(p) ==> exists|i: int|
                0 <= i < self.records@.len() && p@ == #[trigger] self.records@[i].peer@ && p.id@
                    == id@ && forall|j: int|
                    0 <= j < i ==> #[trigger] self.records@[j].peer.id@ != id@,
    {
        match self.find(id) {
            Some(i) => Some(self.records[i].peer.duplicate()),
            None => None,
        }
    }

    /// Sets the state of the peer with identifier `id`; returns whether it
    /// was known.
    pub fn mark_state(&mut self, id: &[u8], state: ConnectionType) -> (r: bool)
        ensures
            r == has_id(old(self).records@, id@),
            marked(old(self).records@, final(self).records@, id@, state),
            final(self).records@.len() == old(self).records@.len(),
            forall|i: int|
                0 <= i < old(self).records@.len() ==> {
                    let o = #[trigger] old(self).records@[i];
                    let n = final(self).records@[i];
                    n.peer.id@ == o.peer.id@ && addrs_of(n) == addrs_of(o) && n.seq == o.seq
                        && n.last_seen == o.last_seen && n.peer.conn_type == (if o.peer.id@
                        == id@ {
                        state
                    } else {
                        o.peer.conn_type
                    })
                },
    {
        let mut found = false;
        let mut i: usize = 0;
        while i < self.records.len()
            invariant
                i <= self.records@.len(),
                self.records@.len() == old(self).records@.len(),
                found == exists|j: int| 0 <= j < i && #[trigger] old(self).records@[j].peer.id@ == id@,
                forall|j: int|
                    0 <= j < old(self).records@.len() ==> {
                        let o = #[trigger] old(self).records@[j];
                        let n = self.records@[j];
                        n.peer.id@ == o.peer.id@ && addrs_of(n) == addrs_of(o) && n.seq == o.seq
                            && n.last_seen == o.last_seen && n.peer.conn_type == (if j < i
                            && o.peer.id@ == id@ {
                            state
                        } else {
                            o.peer.conn_type
                        })
                    },
            decreases self.records.len() - i,
        {
            if bytes_eq(self.records[i].peer.id.as_slice(), id) {
                self.records[i].peer.conn_type = state;
                found = true;
                assert(old(self).records@[i as int].peer.id@ == id@);
            } else {
                assert(old(self).records@[i as int].peer.id@ != id@);
            }
            i += 1;
        }
        proof {
            assert forall|j: int| 0 <= j < old(self).records@.len() implies if (#[trigger] old(
                self,
            ).records@[j]).peer.id@ == id@ {
                self.records@[j].peer@ == (PeerView { conn_type: state, ..old(self).records@[j].peer@ })
                    && self.records@[j].seq == old(self).records@[j].seq
                    && self.records@[j].last_seen == old(self).records@[j].last_seen
            } else {
                same_record(old(self).records@[j], self.records@[j])
            } by {
                let o = old(self).records@[j];
                let n = self.records@[j];
                assert(n.peer@.id == o.peer@.id);
                assert(n.peer@.addrs == o.peer@.addrs);
            }
        }
        found
    }
}

pub open spec fn addrs_of(r: PeerRecord) -> Seq<Seq<u8>> {
    r.peer@.addrs
}

/// `n` is `o` after learning of `p` at `now` and marking it connected: the
/// first record of `p.id` gains the addresses of `p` it lacked (a record is
/// appended if there is none), every record of `p.id` is connected, and the
/// records of other peers are unchanged.
pub open spec fn connected(o: Seq<PeerRecord>, n: Seq<PeerRecord>, p: PeerView, now: u64) -> bool {
    &&& n.len() == if has_id(o, p.id) {
        o.len()
    } else {
        o.len() + 1
    }
    &&& forall|i: int| 0 <= i < o.len() ==> n[i].peer.id@ == (#[trigger] o[i]).peer.id@
    &&& forall|i: int|
        0 <= i < o.len() && (#[trigger] o[i]).peer.id@ != p.id ==> same_record(o[i], n[i])
    &&& forall|i: int|
        0 <= i < n.len() && (#[trigger] n[i]).peer.id@ == p.id ==> n[i].peer.conn_type
            == ConnectionType::Connected
    &&& !has_id(o, p.id) ==> n.last().peer@ == (PeerView {
        conn_type: ConnectionType::Connected,
        ..p
    }) && n.last().last_seen == now
    &&& forall|i: int|
        0 <= i < o.len() && (#[trigger] o[i]).peer.id@ == p.id && (forall|j: int|
            0 <= j < i ==> (#[trigger] o[j]).peer.id@ != p.id) ==> n[i].peer@.addrs
            == merge_addrs(o[i].peer@.addrs, p.addrs) && n[i].last_seen == now
}

/// Two records hold the same descriptor, sequence number and time.
pub open spec fn same_record(a: PeerRecord, b: PeerRecord) -> bool {
    a.peer@ == b.peer@ && a.seq == b.seq && a.last_seen == b.last_seen
}

/// `n` is `o` with the records of identifier `id` set to `state`, and the
/// others unchanged.
pub open spec fn marked(o: Seq<PeerRecord>, n: Seq<PeerRecord>, id: Seq<u8>, state: ConnectionType) -> bool {
    n.len() == o.len() && forall|i: int|
        0 <= i < o.len() ==> if (#[trigger] o[i]).peer.id@ == id {
            n[i].peer@ == (PeerView { conn_type: state, ..o[i].peer@ }) && n[i].seq == o[i].seq
                && n[i].last_seen == o[i].last_seen
        } else {
            same_record(o[i], n[i])
        }
}

} // verus!

verus! {

/// The descriptors of the records whose identifier is not `target`, in
/// store order.
pub open spec fn others(s: Seq<PeerRecord>, target: Seq<u8>) -> Seq<PeerView>
    decreases s.len(),
{
    if s.len() == 0 {
        Seq::empty()
    } else {
        let o = others(s.drop_last(), target);
        if s.last().peer.id@ != target {
            o.push(s.last().peer@)
        } else {
            o
        }
    }
}

/// An empty store has no neighbours to offer, whatever the target and limit.
pub proof fn lemma_no_neighbors_in_empty_store(target: Seq<u8>, k: nat)
    ensures
        first_k(others(Seq::<PeerRecord>::empty(), target), k) == Seq::<PeerView>::empty(),
{
}

/// At most the first `k` items of `s`.
pub open spec fn first_k<A>(s: Seq<A>, k: nat) -> Seq<A> {
    if s.len() <= k {
        s
    } else {
        s.take(k as int)
    }
}

/// Whether a record is dropped by eviction at time `now`.
pub open spec fn is_stale(r: PeerRecord, now: u64, retention: u64, mesh: Seq<Seq<u8>>) -> bool {
    r.peer.conn_type == ConnectionType::CannotConnect && now >= r.last_seen && now - r.last_seen
        > retention && !mesh.contains(r.peer.id@)
}

/// The records that eviction keeps, in order.
pub open spec fn kept(s: Seq<PeerRecord>, now: u64, retention: u64, mesh: Seq<Seq<u8>>) -> Seq<
    PeerRecord,
>
    decreases s.len(),
{
    if s.len() == 0 {
        Seq::empty()
    } else {
        let k = kept(s.drop_last(), now, retention, mesh);
        if is_stale(s.last(), now, retention, mesh) {
            k
        } else {
            k.push(s.last())
        }
    }
}

pub open spec fn bytes_views(v: Seq<Vec<u8>>) -> Seq<Seq<u8>> {
    v.map_values(|x: Vec<u8>| x@)
}

impl PeerStore {
    /// Records what was learned of a peer. A known peer gets the addresses
    /// it did not have yet appended, and takes the new state only when
    /// `seq` is more recent than the evidence that set the old one; an
    /// unknown peer is appended.
    pub fn upsert(&mut self, peer: Peer, seq: u64, now: u64)
        ensures
            !has_id(old(self).records@, peer.id@) ==> final(self).records@ == old(self).records@.push(
                PeerRecord { peer, seq, last_seen: now },
            ),
            has_id(old(self).records@, peer.id@) ==> exists|i: int|
                0 <= i < old(self).records@.len() && #[trigger] old(self).records@[i].peer.id@
                    == peer.id@ && (forall|j: int|
                    0 <= j < i ==> #[trigger] old(self).records@[j].peer.id@ != peer.id@)
                    && final(self).records@.len() == old(self).records@.len() && (
                forall|j: int|
                    0 <= j < old(self).records@.len() && j != i ==> final(self).records@[j]
                        == old(self).records@[j]) && final(self).records@[i].peer@ == (PeerView {
                    id: peer.id@,
                    addrs: merge_addrs(old(self).records@[i].peer@.addrs, peer@.addrs),
                    conn_type: if seq > old(self).records@[i].seq {
                        peer.conn_type
                    } else {
                        old(self).records@[i].peer.conn_type
                    },
                }) && final(self).records@[i].seq == (if seq > old(self).records@[i].seq {
                    seq
                } else {
                    old(self).records@[i].seq
                }) && final(self).records@[i].last_seen == now,
    {
        match self.find(peer.id.as_slice()) {
            None => {
                self.records.push(PeerRecord { peer, seq, last_seen: now });
            },
            Some(i) => {
                let old_addrs = self.records[i].peer.duplicate().multiaddrs;
                let ghost a0 = bytes_views(old_addrs@);
                let mut merged = old_addrs;
                let mut j: usize = 0;
                while j < peer.multiaddrs.len()
                    invariant
                        j <= peer.multiaddrs@.len(),
                        bytes_views(merged@) == merge_addrs(a0, peer@.addrs.take(j as int)),
                    decreases peer.multiaddrs.len() - j,
                {
                    let ghost m = bytes_views(merged@);
                    let x = peer.multiaddrs[j].as_slice();
                    assert(peer@.addrs.take(j as int + 1).drop_last() =~= peer@.addrs.take(j as int));
                    if !contains_bytes(&merged, x) {
                        proof {
                            if m.contains(x@) {
                                let k = choose|k: int| 0 <= k < m.len() && m[k] == x@;
                                assert(merged@[k]@ == x@);
                            }
                        }
                        merged.push(copy_bytes(x));
                        assert(bytes_views(merged@) =~= m.push(x@));
                    } else {
                        proof {
                            let k = choose|k: int| 0 <= k < merged@.len() && #[trigger] merged@[k]@ == x@;
                            assert(m[k] == x@);
                        }
                    }
                    j += 1;
                }
                assert(peer@.addrs.take(j as int) =~= peer@.addrs);
                self.records[i].peer.multiaddrs = merged;
                if seq > self.records[i].seq {
                    self.records[i].peer.conn_type = peer.conn_type;
                    self.records[i].seq = seq;
                }
                self.records[i].last_seen = now;
            },
        }
    }

    /// Up to `k` known peers other than `target`, in store order.
    pub fn closest(&self, target: &[u8], k: usize) -> (r: Vec<Peer>)
        ensures
            peers_view(r@) == first_k(others(self.records@, target@), k as nat),
    {
        let mut out: Vec<Peer> = Vec::new();
        let mut i: usize = 0;
        while i < self.records.len()
            invariant
                i <= self.records@.len(),
                peers_view(out@) == first_k(others(self.records@.take(i as int), target@), k as nat),
            decreases self.records.len() - i,
        {
            let ghost o = others(self.records@.take(i as int), target@);
            assert(self.records@.take(i as int + 1).drop_last() =~= self.records@.take(i as int));
            let same = bytes_eq(self.records[i].peer.id.as_slice(), target);
            if !same && out.len() < k {
                let ghost before = out@;
                out.push(self.records[i].peer.duplicate());
                assert(peers_view(out@) =~= peers_view(before).push(self.records@[i as int].peer@));
            }
            proof {
                let o2 = others(self.records@.take(i as int + 1), target@);
                if !same && o.len() >= k {
                    assert(o2.take(k as int) =~= o.take(k as int));
                }
            }
            i += 1;
        }
        assert(self.records@.take(i as int) =~= self.records@);
        out
    }

    /// Drops the records of peers that could not be reached and were not
    /// heard of for longer than `retention`, unless they are in `mesh`.
    pub fn evict_stale(&mut self, now: u64, retention: u64, mesh: &Vec<Vec<u8>>)
        ensures
            final(self).records@ == kept(old(self).records@, now, retention, bytes_views(mesh@)),
    {
        let ghost mv = bytes_views(mesh@);
        let mut old_records: Vec<PeerRecord> = Vec::new();
        std::mem::swap(&mut old_records, &mut self.records);
        let ghost orig = old_records@;
        let total = old_records.len();
        let mut rev: Vec<PeerRecord> = Vec::new();
        while old_records.len() > 0
            invariant
                orig.len() == old_records@.len() + rev@.len(),
                orig.len() == total,
                old_records@ == orig.take(old_records@.len() as int),
                forall|j: int| 0 <= j < rev@.len() ==> #[trigger] rev@[j] == orig[orig.len() - 1 - j],
            decreases old_records.len(),
        {
            let r = old_records.pop().unwrap();
            rev.push(r);
        }
        let mut out: Vec<PeerRecord> = Vec::new();
        let mut n: usize = 0;
        while rev.len() > 0
            invariant
                n + rev@.len() == orig.len(),
                orig.len() == total,
                mv == bytes_views(mesh@),
                forall|j: int| 0 <= j < rev@.len() ==> #[trigger] rev@[j] == orig[orig.len() - 1 - j],
                out@ == kept(orig.take(n as int), now, retention, mv),
            decreases rev.len(),
        {
            assert(rev@[rev@.len() - 1] == orig[orig.len() - 1 - (rev@.len() - 1)]);
            let r = rev.pop().unwrap();
            assert(r == orig[n as int]);
            assert(orig.take(n as int + 1).drop_last() =~= orig.take(n as int));
            let in_mesh = contains_bytes(mesh, r.peer.id.as_slice());
            proof {
                if mv.contains(r.peer.id@) {
                    let k = choose|k: int| 0 <= k < mv.len() && mv[k] == r.peer.id@;
                    assert(mesh@[k]@ == r.peer.id@);
                }
                if in_mesh {
                    let k = choose|k: int| 0 <= k < mesh@.len() && #[trigger] mesh@[k]@ == r.peer.id@;
                    assert(mv[k] == r.peer.id@);
                }
            }
            let stale = match r.peer.conn_type {
                ConnectionType::CannotConnect => now >= r.last_seen && now - r.last_seen > retention
                    && !in_mesh,
                _ => false,
            };
            if !stale {
                out.push(r);
            }
            n += 1;
        }
        assert(orig.take(n as int) =~= orig);
        self.records = out;
    }
}

} // verus!

verus! {

/// Record `i` comes before record `j` under distances `d`: it is nearer, or
/// as near and earlier in the store.
pub open spec fn key_before(d: Seq<u64>, i: int, j: int) -> bool {
    d[i] < d[j] || (d[i] == d[j] && i < j)
}

/// Record `i` exists and is not the target itself.
pub open spec fn eligible(s: Seq<PeerRecord>, target: Seq<u8>, i: int) -> bool {
    0 <= i < s.len() && s[i].peer.id@ != target
}

/// `idx` lists, nearest first, the `k` records nearest to `target` under
/// `d` (all of them if fewer are eligible).
pub open spec fn is_nearest(
    s: Seq<PeerRecord>,
    target: Seq<u8>,
    d: Seq<u64>,
    k: nat,
    idx: Seq<usize>,
) -> bool {
    &&& idx.len() <= k
    &&& forall|a: int| 0 <= a < idx.len() ==> eligible(s, target, #[trigger] idx[a] as int)
    &&& forall|a: int, b: int| 0 <= a < b < idx.len() ==> key_before(d, idx[a] as int, idx[b] as int)
    &&& forall|j: int|
        eligible(s, target, j) && !picked(idx, j) ==> idx.len() == k && (k > 0 ==> key_before(
            d,
            idx[idx.len() - 1] as int,
            j,
        ))
}

pub open spec fn picked(out: Seq<usize>, j: int) -> bool {
    exists|a: int| 0 <= a < out.len() && out[a] as int == j
}

impl PeerStore {
    /// Positions of the `k` records nearest to `target` under the caller's
    /// distances (`distances[i]` for record `i`), nearest first; equal
    /// distances go in store order. The target's own records are left out.
    pub fn nearest_indices(&self, target: &[u8], distances: &Vec<u64>, k: usize) -> (r: Vec<usize>)
        requires
            distances@.len() == self.records@.len(),
        ensures
            is_nearest(self.records@, target@, distances@, k as nat, r@),
            r@.len() <= k,
            forall|a: int| 0 <= a < r@.len() ==> eligible(self.records@, target@, #[trigger] r@[a] as int),
            forall|a: int, b: int|
                0 <= a < b < r@.len() ==> key_before(distances@, r@[a] as int, r@[b] as int),
            forall|j: int|
                eligible(self.records@, target@, j) && !picked(r@, j) ==> r@.len() == k && (k > 0
                    ==> key_before(distances@, r@[r@.len() - 1] as int, j)),
    {
        let ghost d = distances@;
        let ghost s = self.records@;
        let n = self.records.len();
        let mut out: Vec<usize> = Vec::new();
        let mut done = false;
        while out.len() < k && !done
            invariant
                n == s.len(),
                d.len() == s.len(),
                d == distances@,
                s == self.records@,
                out@.len() <= k,
                forall|a: int| 0 <= a < out@.len() ==> eligible(s, target@, #[trigger] out@[a] as int),
                forall|a: int, b: int|
                    0 <= a < b < out@.len() ==> key_before(d, out@[a] as int, out@[b] as int),
                forall|j: int|
                    eligible(s, target@, j) && !picked(out@, j) ==> !done && (out@.len() > 0
                        ==> key_before(d, out@[out@.len() - 1] as int, j)),
            decreases k - out.len(), if done {
                0int
            } else {
                1int
            },
        {
            let mut best: Option<usize> = None;
            let mut j: usize = 0;
            while j < n
                invariant
                    j <= n,
                    n == s.len(),
                    d.len() == s.len(),
                    d == distances@,
                    s == self.records@,
                    forall|a: int| 0 <= a < out@.len() ==> eligible(s, target@, #[trigger] out@[a] as int),
                    best matches Some(b) ==> b < j && eligible(s, target@, b as int) && (out@.len()
                        > 0 ==> key_before(d, out@[out@.len() - 1] as int, b as int)),
                    forall|x: int|
                        0 <= x < j && eligible(s, target@, x) && (out@.len() > 0 ==> key_before(
                            d,
                            out@[out@.len() - 1] as int,
                            x,
                        )) ==> (best matches Some(b) && (b == x || key_before(d, b as int, x))),
                decreases n - j,
            {
                let same = bytes_eq(self.records[j].peer.id.as_slice(), target);
                let after = if out.len() == 0 {
                    true
                } else {
                    let last = out[out.len() - 1];
                    distances[last] < distances[j] || (distances[last] == distances[j] && last < j)
                };
                if !same && after {
                    let better = match best {
                        None => true,
                        Some(b) => distances[j] < distances[b] || (distances[j] == distances[b]
                            && j < b),
                    };
                    if better {
                        best = Some(j);
                    }
                }
                j += 1;
            }
            match best {
                None => {
                    done = true;
                },
                Some(b) => {
                    let ghost old_out = out@;
                    out.push(b);
                    proof {
                        assert forall|a: int, c: int| 0 <= a < c < out@.len() implies key_before(
                            d,
                            out@[a] as int,
                            out@[c] as int,
                        ) by {
                            if c == out@.len() - 1 && a < old_out.len() - 1 {
                                assert(key_before(d, old_out[a] as int, old_out[old_out.len() - 1] as int));
                            }
                            if c < old_out.len() {
                                assert(out@[a] == old_out[a] && out@[c] == old_out[c]);
                            }
                        }
                        assert forall|j2: int|
                            eligible(s, target@, j2) && !picked(out@, j2) implies !done && (
                            out@.len() > 0 ==> key_before(d, out@[out@.len() - 1] as int, j2)) by {
                            if picked(old_out, j2) {
                                let a = choose|a: int| 0 <= a < old_out.len() && old_out[a] as int == j2;
                                assert(out@[a] == old_out[a]);
                            }
                            assert(out@[out@.len() - 1] == b);
                            if j2 == b as int {
                                assert(out@[old_out.len() as int] as int == j2);
                            }
                        }
                    }
                },
            }
        }
        out
    }
}

impl PeerStore {
    /// The descriptors of the `k` records nearest to `target` under the
    /// caller's distances, nearest first, equal distances in store order.
    pub fn closest_by(&self, target: &[u8], distances: &Vec<u64>, k: usize) -> (r: Vec<Peer>)
        requires
            distances@.len() == self.records@.len(),
        ensures
            exists|idx: Seq<usize>|
                is_nearest(self.records@, target@, distances@, k as nat, idx) && peers_view(r@)
                    == idx.map_values(|i: usize| self.records@[i as int].peer@),
    {
        let idx = self.nearest_indices(target, distances, k);
        let mut out: Vec<Peer> = Vec::new();
        let mut a: usize = 0;
        while a < idx.len()
            invariant
                a <= idx@.len(),
                out@.len() == a,
                forall|x: int| 0 <= x < idx@.len() ==> (#[trigger] idx@[x]) < self.records@.len(),
                forall|x: int| 0 <= x < a ==> #[trigger] out@[x]@ == self.records@[idx@[x] as int].peer@,
            decreases idx.len() - a,
        {
            out.push(self.records[idx[a]].peer.duplicate());
            a += 1;
        }
        assert(peers_view(out@) =~= idx@.map_values(|i: usize| self.records@[i as int].peer@));
        out
    }
}

} // verus!
