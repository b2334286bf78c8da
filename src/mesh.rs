//! The mesh view and its maintenance between the low and high watermarks.
use vstd::prelude::*;
use crate::varint::bytes_eq;
use crate::message::{ConnectionType, copy_bytes};
use crate::store::{
    PeerStore, PeerRecord, contains_bytes, bytes_views, has_id, marked, connected, same_record,
};
use crate::message::PeerView;

verus! {

/// The identifiers of the grafted neighbours, oldest first.
#[derive(Debug)]
pub struct MeshView {
    pub members: Vec<Vec<u8>>,
}

/// `s` without the occurrences of `id`.
pub open spec fn without(s: Seq<Seq<u8>>, id: Seq<u8>) -> Seq<Seq<u8>>
    decreases s.len(),
{
    if s.len() == 0 {
        s
    } else {
        let w = without(s.drop_last(), id);
        if s.last() == id {
            w
        } else {
            w.push(s.last())
        }
    }
}

pub proof fn lemma_without_absent(s: Seq<Seq<u8>>, id: Seq<u8>)
    requires
        !s.contains(id),
    ensures
        without(s, id) == s,
    decreases s.len(),
{
    if s.len() > 0 {
        assert(!s.drop_last().contains(id)) by {
            if s.drop_last().contains(id) {
                let k = choose|k: int| 0 <= k < s.drop_last().len() && s.drop_last()[k] == id;
                assert(s[k] == id);
            }
        }
        lemma_without_absent(s.drop_last(), id);
        assert(s.drop_last().push(s.last()) =~= s);
    }
}

/// A record that maintenance may graft.
pub open spec fn is_candidate(r: PeerRecord, mesh: Seq<Seq<u8>>) -> bool {
    r.peer.conn_type == ConnectionType::CanConnect && !mesh.contains(r.peer.id@)
}

/// What maintenance decided for one peer.
#[derive(Debug)]
pub enum MeshAction {
    Graft(Vec<u8>),
    Prune(Vec<u8>),
}

impl MeshView {
    pub open spec fn ids(&self) -> Seq<Seq<u8>> {
        bytes_views(self.members@)
    }

    pub fn new() -> (r: MeshView)
        ensures
            r.ids().len() == 0,
    {
        MeshView { members: Vec::new() }
    }

    pub fn len(&self) -> (r: usize)
        ensures
            r == self.ids().len(),
    {
        self.members.len()
    }

    pub fn contains(&self, id: &[u8]) -> (r: bool)
        ensures
            r == self.ids().contains(id@),
    {
        let r = contains_bytes(&self.members, id);
        proof {
            if r {
                let k = choose|k: int| 0 <= k < self.members@.len() && #[trigger] self.members@[k]@
                    == id@;
                assert(self.ids()[k] == id@);
            }
            if self.ids().contains(id@) {
                let k = choose|k: int| 0 <= k < self.ids().len() && self.ids()[k] == id@;
                assert(self.members@[k]@ == id@);
            }
        }
        r
    }

    /// Grafts `id` as the newest member.
    pub fn add(&mut self, id: &[u8])
        ensures
            final(self).ids() == old(self).ids().push(id@),
    {
        self.members.push(copy_bytes(id));
        assert(final(self).ids() =~= old(self).ids().push(id@));
    }

    /// Prunes `id`; an identifier that is not a member leaves the mesh as it
    /// was.
    pub fn remove(&mut self, id: &[u8])
        ensures
            final(self).ids() == without(old(self).ids(), id@),
            !old(self).ids().contains(id@) ==> final(self).ids() == old(self).ids(),
    {
        let mut out: Vec<Vec<u8>> = Vec::new();
        let mut i: usize = 0;
        let ghost s = self.ids();
        while i < self.members.len()
            invariant
                i <= self.members@.len(),
                s == self.ids(),
                bytes_views(out@) == without(s.take(i as int), id@),
            decreases self.members.len() - i,
        {
            assert(s.take(i as int + 1).drop_last() =~= s.take(i as int));
            if !bytes_eq(self.members[i].as_slice(), id) {
                let ghost before = bytes_views(out@);
                out.push(copy_bytes(self.members[i].as_slice()));
                assert(bytes_views(out@) =~= before.push(s[i as int]));
            }
            i += 1;
        }
        assert(s.take(i as int) =~= s);
        self.members = out;
        proof {
            if !s.contains(id@) {
                lemma_without_absent(s, id@);
            }
        }
    }
}

} // verus!

verus! {

/// The records of two stores agree on everything but the connection type.
pub open spec fn same_but_state(a: Seq<PeerRecord>, b: Seq<PeerRecord>) -> bool {
    a.len() == b.len() && forall|i: int|
        0 <= i < a.len() ==> {
            let x = #[trigger] a[i];
            let y = b[i];
            x.peer.id@ == y.peer.id@ && x.peer@.addrs == y.peer@.addrs && x.seq == y.seq
                && x.last_seen == y.last_seen
        }
}

/// Whether a record of `os` with identifier `id` may be grafted.
pub open spec fn has_candidate(os: Seq<PeerRecord>, om: Seq<Seq<u8>>, id: Seq<u8>) -> bool {
    exists|i: int| 0 <= i < os.len() && is_candidate(os[i], om) && #[trigger] os[i].peer.id@ == id
}

/// What one maintenance cycle guarantees of the store and mesh before
/// (`os`, `om`) and after it (`ns`, `nm`).
pub open spec fn maintained(
    os: Seq<PeerRecord>,
    om: Seq<Seq<u8>>,
    ns: Seq<PeerRecord>,
    nm: Seq<Seq<u8>>,
    low: nat,
    high: nat,
) -> bool {
    &&& low <= om.len() <= high ==> nm == om && ns == os
    &&& om.len() > high ==> nm == om.take(high as int) && ns == os
    &&& om.len() < low ==> {
        &&& om.len() <= nm.len() <= low
        &&& nm.take(om.len() as int) == om
        &&& same_but_state(os, ns)
        &&& forall|a: int, b: int| om.len() <= a < b < nm.len() ==> nm[a] != nm[b]
        &&& forall|a: int| om.len() <= a < nm.len() ==> !om.contains(#[trigger] nm[a])
        &&& forall|a: int| om.len() <= a < nm.len() ==> has_candidate(os, om, #[trigger] nm[a])
        &&& forall|a: int| om.len() <= a < nm.len() ==> has_connected(ns, #[trigger] nm[a])
        &&& forall|i: int|
            0 <= i < os.len() ==> #[trigger] ns[i].peer.conn_type == os[i].peer.conn_type || (
            ns[i].peer.conn_type == ConnectionType::Connected && is_candidate(os[i], om)
                && nm.contains(os[i].peer.id@))
        &&& nm.len() < low ==> forall|i: int|
            0 <= i < ns.len() ==> !is_candidate(#[trigger] ns[i], nm)
    }
}

/// Within the watermarks, a maintenance cycle changes neither the mesh nor
/// the store.
pub proof fn lemma_maintenance_stable(
    os: Seq<PeerRecord>,
    om: Seq<Seq<u8>>,
    ns: Seq<PeerRecord>,
    nm: Seq<Seq<u8>>,
    low: nat,
    high: nat,
)
    requires
        maintained(os, om, ns, nm, low, high),
        low <= om.len() <= high,
    ensures
        nm == om,
        ns == os,
{
}

/// A maintenance cycle brings the mesh within the watermarks, provided a
/// mesh below `low` has enough reachable candidates: `ids` are distinct
/// identifiers of records that are `CanConnect` and not yet members, at least
/// as many as the mesh lacks.
pub proof fn lemma_maintenance_converges(
    os: Seq<PeerRecord>,
    om: Seq<Seq<u8>>,
    ns: Seq<PeerRecord>,
    nm: Seq<Seq<u8>>,
    low: nat,
    high: nat,
    ids: Seq<Seq<u8>>,
)
    requires
        maintained(os, om, ns, nm, low, high),
        low <= high,
        om.len() < low ==> ids.no_duplicates() && om.len() + ids.len() >= low && forall|k: int|
            0 <= k < ids.len() ==> #[trigger] has_candidate(os, om, ids[k]),
    ensures
        low <= nm.len() <= high,
{
    if om.len() < low && nm.len() < low {
        let g = nm.skip(om.len() as int);
        assert forall|k: int| 0 <= k < ids.len() implies g.contains(#[trigger] ids[k]) by {
            assert(has_candidate(os, om, ids[k]));
            let i = choose|i: int|
                0 <= i < os.len() && is_candidate(os[i], om) && #[trigger] os[i].peer.id@ == ids[k];
            assert(ns[i].peer.id@ == os[i].peer.id@);
            if ns[i].peer.conn_type == os[i].peer.conn_type {
                assert(!is_candidate(ns[i], nm));
            }
            assert(nm.contains(ids[k]));
            let a = choose|a: int| 0 <= a < nm.len() && nm[a] == ids[k];
            if a < om.len() {
                assert(nm.take(om.len() as int)[a] == om[a]);
                assert(om[a] == ids[k]);
            }
            assert(g[a - om.len()] == ids[k]);
        }
        assert(g.no_duplicates()) by {
            assert forall|x: int, y: int| 0 <= x < g.len() && 0 <= y < g.len() && x != y implies g[x]
                != g[y] by {
                if x < y {
                    assert(nm[om.len() + x] != nm[om.len() + y]);
                } else {
                    assert(nm[om.len() + y] != nm[om.len() + x]);
                }
            }
        }
        g.unique_seq_to_set();
        ids.unique_seq_to_set();
        assert(ids.to_set().subset_of(g.to_set())) by {
            assert forall|x: Seq<u8>| ids.to_set().contains(x) implies g.to_set().contains(x) by {
                let k = choose|k: int| 0 <= k < ids.len() && ids[k] == x;
                assert(g.contains(ids[k]));
            }
        }
        broadcast use vstd::seq_lib::seq_to_set_is_finite;
        vstd::set_lib::lemma_len_subset(ids.to_set(), g.to_set());
    }
}

/// Keeps the mesh between `low` and `high` members. Below `low`, it grafts
/// reachable peers of the store that are not members yet, until `low` is
/// reached or none is left. A grafted peer is marked connected as the caller
/// sends it `Connect` and `GraftPeer`; when either fails, `graft_failed`
/// marks it unreachable and takes it out again. Above
/// `high`, it prunes the newest members first. Within the bounds it does
/// nothing.
pub fn maintain(store: &mut PeerStore, mesh: &mut MeshView, low: usize, high: usize) -> (r: Vec<
    MeshAction,
>)
    requires
        low <= high,
    ensures
        maintained(
            old(store).records@,
            old(mesh).ids(),
            final(store).records@,
            final(mesh).ids(),
            low as nat,
            high as nat,
        ),
        old(mesh).ids().len() > high ==> r@.len() == old(mesh).ids().len() - high && forall|k: int|
            0 <= k < r@.len() ==> (#[trigger] r@[k] matches MeshAction::Prune(id) && id@ == old(
                mesh).ids()[old(mesh).ids().len() - 1 - k]),
        old(mesh).ids().len() <= high ==> r@.len() == final(mesh).ids().len() - old(
            mesh).ids().len() && forall|k: int|
            0 <= k < r@.len() ==> (#[trigger] r@[k] matches MeshAction::Graft(id) && id@ == final(
                mesh).ids()[old(mesh).ids().len() + k]),
{
    let mut actions: Vec<MeshAction> = Vec::new();
    let n = mesh.len();
    if n > high {
        let ghost s = mesh.ids();
        while mesh.members.len() > high
            invariant
                high <= mesh.members@.len() <= s.len(),
                mesh.ids() == s.take(mesh.members@.len() as int),
                actions@.len() == s.len() - mesh.members@.len(),
                forall|k: int|
                    0 <= k < actions@.len() ==> (#[trigger] actions@[k] matches MeshAction::Prune(id)
                        && id@ == s[s.len() - 1 - k]),
            decreases mesh.members.len(),
        {
            let ghost before = mesh.ids();
            let id = mesh.members.pop().unwrap();
            assert(id@ == before[before.len() - 1]);
            assert(mesh.ids() =~= s.take(mesh.members@.len() as int));
            actions.push(MeshAction::Prune(id));
        }
        return actions;
    }
    if n >= low {
        return actions;
    }
    let ghost s0 = mesh.ids();
    let ghost st0 = store.records@;
    let mut i: usize = 0;
    while i < store.records.len()
        invariant
            i <= store.records@.len(),
            low <= high,
            s0.len() < low,
            s0.len() <= mesh.ids().len() <= low,
            mesh.ids().take(s0.len() as int) == s0,
            forall|a: int, b: int| s0.len() <= a < b < mesh.ids().len() ==> mesh.ids()[a]
                != mesh.ids()[b],
            forall|a: int| s0.len() <= a < mesh.ids().len() ==> !s0.contains(#[trigger] mesh.ids()[a]),
            forall|a: int|
                s0.len() <= a < mesh.ids().len() ==> has_candidate(st0, s0, #[trigger] mesh.ids()[a]),
            forall|a: int|
                s0.len() <= a < mesh.ids().len() ==> has_connected(
                    store.records@,
                    #[trigger] mesh.ids()[a],
                ),
            same_but_state(st0, store.records@),
            forall|j: int|
                0 <= j < st0.len() ==> #[trigger] store.records@[j].peer.conn_type
                    == st0[j].peer.conn_type || (j < i && store.records@[j].peer.conn_type
                    == ConnectionType::Connected && is_candidate(st0[j], s0) && mesh.ids().contains(
                    st0[j].peer.id@)),
            actions@.len() == mesh.ids().len() - s0.len(),
            forall|k: int|
                0 <= k < actions@.len() ==> (#[trigger] actions@[k] matches MeshAction::Graft(id)
                    && id@ == mesh.ids()[s0.len() + k]),
            mesh.ids().len() < low ==> forall|j: int|
                0 <= j < i ==> !is_candidate(#[trigger] store.records@[j], mesh.ids()),
        decreases store.records.len() - i,
    {
        if mesh.len() < low {
            let reachable = match store.records[i].peer.conn_type {
                ConnectionType::CanConnect => true,
                _ => false,
            };
            if reachable && !mesh.contains(store.records[i].peer.id.as_slice()) {
                let ghost m_before = mesh.ids();
                let ghost st_before = store.records@;
                let id = copy_bytes(store.records[i].peer.id.as_slice());
                mesh.add(id.as_slice());
                store.records[i].peer.conn_type = ConnectionType::Connected;
                actions.push(MeshAction::Graft(id));
                proof {
                    assert(mesh.ids().take(s0.len() as int) =~= m_before.take(s0.len() as int));
                    assert(mesh.ids()[m_before.len() as int] == st0[i as int].peer.id@);
                    assert forall|a: int| s0.len() <= a < mesh.ids().len() implies has_connected(
                        store.records@,
                        #[trigger] mesh.ids()[a],
                    ) by {
                        if a < m_before.len() {
                            assert(mesh.ids()[a] == m_before[a]);
                            assert(has_connected(st_before, m_before[a]));
                            let w = choose|w: int|
                                0 <= w < st_before.len() && #[trigger] st_before[w].peer.id@
                                    == m_before[a] && st_before[w].peer.conn_type
                                    == ConnectionType::Connected;
                            assert(store.records@[w].peer.id@ == st_before[w].peer.id@);
                        } else {
                            assert(store.records@[i as int].peer.id@ == st0[i as int].peer.id@);
                        }
                    }
                    assert forall|a: int| s0.len() <= a < mesh.ids().len() implies has_candidate(
                        st0,
                        s0,
                        #[trigger] mesh.ids()[a],
                    ) by {
                        if a < m_before.len() {
                            assert(mesh.ids()[a] == m_before[a]);
                        } else {
                            assert(st_before[i as int].peer.conn_type == st0[i as int].peer.conn_type);
                            if s0.contains(st0[i as int].peer.id@) {
                                let k = choose|k: int| 0 <= k < s0.len() && s0[k] == st0[i as int].peer.id@;
                                assert(m_before[k] == s0[k]);
                            }
                            assert(is_candidate(st0[i as int], s0));
                        }
                    }
                    assert forall|j: int| 0 <= j < st0.len() && m_before.contains(
                        #[trigger] st0[j].peer.id@) implies mesh.ids().contains(st0[j].peer.id@) by {
                        let k = choose|k: int| 0 <= k < m_before.len() && m_before[k]
                            == st0[j].peer.id@;
                        assert(mesh.ids()[k] == m_before[k]);
                    }
                    if s0.contains(st0[i as int].peer.id@) {
                        let k = choose|k: int| 0 <= k < s0.len() && s0[k] == st0[i as int].peer.id@;
                        assert(m_before[k] == s0[k]);
                    }
                    assert forall|j: int|
                        0 <= j < i + 1 && mesh.ids().len() < low implies !is_candidate(
                        #[trigger] store.records@[j],
                        mesh.ids(),
                    ) by {
                        if j < i {
                            assert(!is_candidate(st_before[j], m_before));
                            if m_before.contains(store.records@[j].peer.id@) {
                                let k = choose|k: int|
                                    0 <= k < m_before.len() && m_before[k]
                                        == store.records@[j].peer.id@;
                                assert(mesh.ids()[k] == m_before[k]);
                            }
                        }
                    }
                }
            }
        }
        i += 1;
    }
    actions
}

} // verus!

verus! {

/// Whether some record of `recs` with identifier `id` is connected.
pub open spec fn has_connected(recs: Seq<PeerRecord>, id: Seq<u8>) -> bool {
    exists|i: int|
        0 <= i < recs.len() && #[trigger] recs[i].peer.id@ == id && recs[i].peer.conn_type
            == ConnectionType::Connected
}

/// The mesh holds at most `high` members, each connected in the store.
pub open spec fn mesh_consistent(recs: Seq<PeerRecord>, m: Seq<Seq<u8>>, high: nat) -> bool {
    m.len() <= high && forall|k: int| 0 <= k < m.len() ==> has_connected(recs, #[trigger] m[k])
}

/// Removing an identifier keeps only other members, and no more of them.
pub proof fn lemma_without_members(s: Seq<Seq<u8>>, id: Seq<u8>)
    ensures
        without(s, id).len() <= s.len(),
        forall|k: int|
            0 <= k < without(s, id).len() ==> #[trigger] without(s, id)[k] != id && s.contains(
                without(s, id)[k],
            ),
    decreases s.len(),
{
    if s.len() > 0 {
        lemma_without_members(s.drop_last(), id);
        let w = without(s.drop_last(), id);
        assert forall|k: int| 0 <= k < w.len() implies s.contains(#[trigger] w[k]) by {
            let j = choose|j: int| 0 <= j < s.drop_last().len() && s.drop_last()[j] == w[k];
            assert(s[j] == w[k]);
        }
        if s.last() != id {
            assert(s[s.len() - 1] == s.last());
            assert forall|k: int| 0 <= k < without(s, id).len() implies #[trigger] without(s, id)[k]
                != id && s.contains(without(s, id)[k]) by {
                if k < w.len() {
                    assert(without(s, id)[k] == w[k]);
                }
            }
        }
    }
}

/// Pruning an identifier keeps the mesh consistent with an unchanged store.
pub proof fn lemma_prune_keeps_consistency(
    recs: Seq<PeerRecord>,
    m: Seq<Seq<u8>>,
    high: nat,
    id: Seq<u8>,
)
    requires
        mesh_consistent(recs, m, high),
    ensures
        mesh_consistent(recs, without(m, id), high),
{
    lemma_without_members(m, id);
    assert forall|k: int| 0 <= k < without(m, id).len() implies has_connected(
        recs,
        #[trigger] without(m, id)[k],
    ) by {
        let j = choose|j: int| 0 <= j < m.len() && m[j] == without(m, id)[k];
        assert(has_connected(recs, m[j]));
    }
}

/// Taking `id` out of the mesh while its records take any state (closing
/// its connection, or a failed graft) keeps the mesh consistent.
pub proof fn lemma_close_keeps_consistency(
    o: Seq<PeerRecord>,
    n: Seq<PeerRecord>,
    m: Seq<Seq<u8>>,
    high: nat,
    id: Seq<u8>,
    state: ConnectionType,
)
    requires
        mesh_consistent(o, m, high),
        marked(o, n, id, state),
    ensures
        mesh_consistent(n, without(m, id), high),
{
    lemma_without_members(m, id);
    assert forall|k: int| 0 <= k < without(m, id).len() implies has_connected(
        n,
        #[trigger] without(m, id)[k],
    ) by {
        let x = without(m, id)[k];
        let j = choose|j: int| 0 <= j < m.len() && m[j] == x;
        assert(has_connected(o, m[j]));
        let i = choose|i: int|
            0 <= i < o.len() && #[trigger] o[i].peer.id@ == x && o[i].peer.conn_type
                == ConnectionType::Connected;
        assert(same_record(o[i], n[i]));
        assert(n[i].peer@.id == o[i].peer@.id);
    }
}

proof fn lemma_connected_has_peer(o: Seq<PeerRecord>, n: Seq<PeerRecord>, p: PeerView, now: u64)
    requires
        connected(o, n, p, now),
    ensures
        has_connected(n, p.id),
{
    if has_id(o, p.id) {
        let i = choose|i: int| 0 <= i < o.len() && #[trigger] o[i].peer.id@ == p.id;
        assert(n[i].peer.id@ == o[i].peer.id@);
    } else {
        let l = n.len() - 1;
        assert(n[l] == n.last());
        assert(n[l].peer@.id == p.id);
    }
}

proof fn lemma_connected_keeps(
    o: Seq<PeerRecord>,
    n: Seq<PeerRecord>,
    p: PeerView,
    now: u64,
    id: Seq<u8>,
)
    requires
        connected(o, n, p, now),
        has_connected(o, id),
    ensures
        has_connected(n, id),
{
    let i = choose|i: int|
        0 <= i < o.len() && #[trigger] o[i].peer.id@ == id && o[i].peer.conn_type
            == ConnectionType::Connected;
    assert(n[i].peer.id@ == o[i].peer.id@);
    if o[i].peer.id@ != p.id {
        assert(same_record(o[i], n[i]));
    }
}

/// Learning of a peer and marking it connected keeps the mesh consistent,
/// also when that peer joins the mesh within the bound.
#[verifier::rlimit(100)]
pub proof fn lemma_connect_keeps_consistency(
    o: Seq<PeerRecord>,
    n: Seq<PeerRecord>,
    m: Seq<Seq<u8>>,
    high: nat,
    p: PeerView,
    now: u64,
    join: bool,
)
    requires
        mesh_consistent(o, m, high),
        connected(o, n, p, now),
        join ==> m.contains(p.id) || m.len() < high,
    ensures
        mesh_consistent(
            n,
            if join && !m.contains(p.id) {
                m.push(p.id)
            } else {
                m
            },
            high,
        ),
{
    lemma_connected_has_peer(o, n, p, now);
    let m2 = if join && !m.contains(p.id) {
        m.push(p.id)
    } else {
        m
    };
    assert forall|k: int| 0 <= k < m2.len() implies has_connected(n, #[trigger] m2[k]) by {
        if k < m.len() {
            assert(m2[k] == m[k]);
            assert(has_connected(o, m[k]));
            lemma_connected_keeps(o, n, p, now, m[k]);
        }
    }
}

} // verus!

verus! {

/// A maintenance cycle keeps every member connected and the mesh within
/// `high`.
pub proof fn lemma_maintenance_keeps_consistency(
    os: Seq<PeerRecord>,
    om: Seq<Seq<u8>>,
    ns: Seq<PeerRecord>,
    nm: Seq<Seq<u8>>,
    low: nat,
    high: nat,
)
    requires
        maintained(os, om, ns, nm, low, high),
        low <= high,
        mesh_consistent(os, om, high),
    ensures
        mesh_consistent(ns, nm, high),
{
    if om.len() > high {
        assert forall|k: int| 0 <= k < nm.len() implies has_connected(ns, #[trigger] nm[k]) by {
            assert(nm[k] == om[k]);
        }
    } else if om.len() < low {
        assert forall|k: int| 0 <= k < nm.len() implies has_connected(ns, #[trigger] nm[k]) by {
            if k < om.len() {
                assert(nm.take(om.len() as int)[k] == om[k]);
                assert(has_connected(os, om[k]));
                let w = choose|w: int|
                    0 <= w < os.len() && #[trigger] os[w].peer.id@ == om[k] && os[w].peer.conn_type
                        == ConnectionType::Connected;
                assert(ns[w].peer.id@ == os[w].peer.id@);
            }
        }
    }
}

/// A graft of `id` failed: its records become `CannotConnect` and it leaves
/// the mesh. It may be tried again in a later cycle.
pub fn graft_failed(store: &mut PeerStore, mesh: &mut MeshView, id: &[u8])
    ensures
        marked(old(store).records@, final(store).records@, id@, ConnectionType::CannotConnect),
        final(mesh).ids() == without(old(mesh).ids(), id@),
        forall|high: nat|
            mesh_consistent(old(store).records@, old(mesh).ids(), high) ==> #[trigger] mesh_consistent(
                final(store).records@,
                final(mesh).ids(),
                high,
            ),
{
    let ghost o = store.records@;
    let ghost m = mesh.ids();
    store.mark_state(id, ConnectionType::CannotConnect);
    mesh.remove(id);
    proof {
        assert forall|high: nat| mesh_consistent(o, m, high) implies #[trigger] mesh_consistent(
            store.records@,
            mesh.ids(),
            high,
        ) by {
            lemma_close_keeps_consistency(o, store.records@, m, high, id@, ConnectionType::CannotConnect);
        }
    }
}

} // verus!
