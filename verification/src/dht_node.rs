//! What a DHT node does with the peers it learns of and the lookups it is asked for.
use vstd::prelude::*;
use crate::id::ID;
use crate::krpc::{ToConResp, ValuesOrNodes};
use crate::peer::{Peer, Peers, Status, upsert_all, COMPACT_PEER_LEN};
use crate::routing_table::{
    RoutingTable, Node, Nodes, nodes_seq, closest_found, fillable_ids, heard_within_validity,
    lemma_closest_are_fresh,
};
use crate::clock::now_millis;
use rand::seq::IteratorRandom;

verus! {

/// Largest datagram the node sends.
pub const MTU: usize = 1300;
/// Most peers one answer carries.
pub const MAX_PEERS_IN_ANSWER: usize = MTU / COMPACT_PEER_LEN;
/// Nodes asked for peers at once.
pub const FETCH_PEER_PARALLEL: usize = 3;

/// No peer occurs twice.
pub open spec fn distinct_peers(s: Seq<Peer>) -> bool {
    forall|i: int, j: int| 0 <= i < j < s.len() ==> #[trigger] s[i] != #[trigger] s[j]
}

/// Position of `id` among the entries, if present.
pub open spec fn hash_index(e: Seq<(ID, Seq<Peer>)>, id: ID) -> Option<int> {
    if exists|i: int| 0 <= i < e.len() && e[i].0 == id {
        Some(choose|i: int| 0 <= i < e.len() && e[i].0 == id)
    } else {
        None
    }
}

/// The peers known for each info hash, each info hash once and each of its peers once.
#[derive(Debug, Clone)]
pub struct PeerMap {
    data: Vec<(ID, Vec<Peer>)>,
}

/// Appends to `set` each peer of `new` it does not hold yet.
fn add_all(set: &mut Vec<Peer>, new: &[Peer])
    requires
        distinct_peers(old(set)@),
    ensures
        distinct_peers(final(set)@),
        final(set)@.to_set() == old(set)@.to_set() + new@.to_set(),
        final(set)@.take(old(set)@.len() as int) == old(set)@,
{
    let ghost s0 = set@;
    let mut i: usize = 0;
    while i < new.len()
        invariant
            0 <= i <= new@.len(),
            distinct_peers(set@),
            set@.to_set() == s0.to_set() + new@.take(i as int).to_set(),
            set@.len() >= s0.len(),
            set@.take(s0.len() as int) == s0,
        decreases new@.len() - i,
    {
        let p = new[i];
        let found = contains_peer(set, p);
        let ghost before = set@;
        if !found {
            set.push(p);
            proof {
                assert forall|a: int, b: int| 0 <= a < b < set@.len() implies #[trigger] set@[a] != #[trigger] set@[b] by {
                    if b == before.len() {
                        assert(before[a] != p);
                    } else {
                        assert(before[a] != before[b]);
                    }
                }
                assert(set@.take(s0.len() as int) =~= before.take(s0.len() as int));
            }
        }
        proof {
            assert(new@.take(i + 1) == new@.take(i as int).push(p));
            if found {
                assert(set@ == before);
                assert(before.to_set().contains(p));
                assert forall|x: Peer| #[trigger] (s0.to_set() + new@.take(i + 1).to_set()).contains(x) implies set@.to_set().contains(x) by {
                    if new@.take(i + 1).to_set().contains(x) && !s0.to_set().contains(x) {
                        let w = choose|w: int| 0 <= w < new@.take(i + 1).len() && #[trigger] new@.take(i + 1)[w] == x;
                        if w < i {
                            assert(new@.take(i as int)[w] == x);
                            assert(new@.take(i as int).to_set().contains(x));
                        }
                    }
                }
                assert forall|x: Peer| #[trigger] set@.to_set().contains(x) implies (s0.to_set() + new@.take(i + 1).to_set()).contains(x) by {
                    if !s0.to_set().contains(x) {
                        assert(new@.take(i as int).to_set().contains(x));
                        let w = choose|w: int| 0 <= w < new@.take(i as int).len() && #[trigger] new@.take(i as int)[w] == x;
                        assert(new@.take(i + 1)[w] == x);
                    }
                }
                assert(set@.to_set() =~= s0.to_set() + new@.take(i + 1).to_set());
            } else {
                assert(set@ == before.push(p));
                assert forall|x: Peer| #[trigger] (s0.to_set() + new@.take(i + 1).to_set()).contains(x) implies set@.to_set().contains(x) by {
                    if x == p {
                        assert(set@[before.len() as int] == p);
                    } else if !s0.to_set().contains(x) {
                        let w = choose|w: int| 0 <= w < new@.take(i + 1).len() && #[trigger] new@.take(i + 1)[w] == x;
                        assert(w < i);
                        assert(new@.take(i as int)[w] == x);
                        assert(new@.take(i as int).to_set().contains(x));
                        assert(before.to_set().contains(x));
                        let v = choose|v: int| 0 <= v < before.len() && #[trigger] before[v] == x;
                        assert(set@[v] == x);
                    } else {
                        assert(before.to_set().contains(x));
                        let v = choose|v: int| 0 <= v < before.len() && #[trigger] before[v] == x;
                        assert(set@[v] == x);
                    }
                }
                assert forall|x: Peer| #[trigger] set@.to_set().contains(x) implies (s0.to_set() + new@.take(i + 1).to_set()).contains(x) by {
                    let v = choose|v: int| 0 <= v < set@.len() && #[trigger] set@[v] == x;
                    if v == before.len() {
                        assert(new@.take(i + 1)[i as int] == p);
                    } else {
                        assert(before[v] == x);
                        assert(before.to_set().contains(x));
                        if !s0.to_set().contains(x) {
                            assert(new@.take(i as int).to_set().contains(x));
                            let w = choose|w: int| 0 <= w < new@.take(i as int).len() && #[trigger] new@.take(i as int)[w] == x;
                            assert(new@.take(i + 1)[w] == x);
                        }
                    }
                }
                assert(set@.to_set() =~= s0.to_set() + new@.take(i + 1).to_set());
            }
        }
        i += 1;
    }
    assert(new@.take(new@.len() as int) == new@);
}

/// Whether `p` is in `set`.
fn contains_peer(set: &Vec<Peer>, p: Peer) -> (r: bool)
    ensures
        r == set@.contains(p),
{
    let mut k: usize = 0;
    while k < set.len()
        invariant
            0 <= k <= set@.len(),
            forall|m: int| 0 <= m < k ==> set@[m] != p,
        decreases set@.len() - k,
    {
        if set[k] == p {
            assert(set@[k as int] == p);
            return true;
        }
        k += 1;
    }
    false
}

impl PeerMap {
    /// Each info hash with its peers.
    pub closed spec fn entries(self) -> Seq<(ID, Seq<Peer>)> {
        self.data@.map_values(|e: (ID, Vec<Peer>)| (e.0, e.1@))
    }

    pub open spec fn wf(self) -> bool {
        let e = self.entries();
        &&& forall|i: int, j: int| 0 <= i < j < e.len() ==> #[trigger] e[i].0 != #[trigger] e[j].0
        &&& forall|i: int| 0 <= i < e.len() ==> #[trigger] distinct_peers(e[i].1)
    }

    /// A map that knows the given peers for `info_hash`.
    pub fn with_known(info_hash: ID, known: &[Peer]) -> (r: Self)
        ensures
            r.wf(),
            r.entries().len() == 1,
            r.entries()[0].0 == info_hash,
            r.entries()[0].1.to_set() == known@.to_set(),
    {
        let mut set: Vec<Peer> = Vec::new();
        add_all(&mut set, known);
        proof {
            assert(Seq::<Peer>::empty().to_set() + known@.to_set() =~= known@.to_set());
        }
        let mut data: Vec<(ID, Vec<Peer>)> = Vec::new();
        data.push((info_hash, set));
        let r = PeerMap { data };
        assert(r.entries()[0] == (info_hash, set@));
        r
    }

    fn position(&self, id: &ID) -> (r: Option<usize>)
        requires
            self.wf(),
        ensures
            match hash_index(self.entries(), *id) {
                Some(i) => r == Some(i as usize),
                None => r is None,
            },
            r matches Some(i) ==> i < self.entries().len() && self.entries()[i as int].0 == *id,
    {
        let mut i: usize = 0;
        while i < self.data.len()
            invariant
                self.wf(),
                0 <= i <= self.data@.len(),
                forall|k: int| 0 <= k < i ==> self.entries()[k].0 != *id,
            decreases self.data@.len() - i,
        {
            assert(self.entries()[i as int] == (self.data@[i as int].0, self.data@[i as int].1@));
            if self.data[i].0 == *id {
                proof {
                    crate::id::lemma_id_view_eq(self.data@[i as int].0, *id);
                    assert(self.entries()[i as int].0 == *id);
                    let c = choose|c: int| 0 <= c < self.entries().len() && self.entries()[c].0 == *id;
                    if c < i {
                        assert(self.entries()[c].0 != self.entries()[i as int].0);
                    } else if c > i {
                        assert(self.entries()[i as int].0 != self.entries()[c].0);
                    }
                }
                return Some(i);
            }
            assert(self.entries()[i as int].0 == self.data@[i as int].0);
            i += 1;
        }
        None
    }

    /// The peers known for `id`, if it is known.
    pub fn stored(&self, id: &ID) -> (r: Option<Vec<Peer>>)
        requires
            self.wf(),
        ensures
            match hash_index(self.entries(), *id) {
                Some(i) => r matches Some(v) && v@ == self.entries()[i].1,
                None => r is None,
            },
    {
        match self.position(id) {
            Some(i) => {
                let mut v: Vec<Peer> = Vec::new();
                let src = &self.data[i].1;
                let mut k: usize = 0;
                while k < src.len()
                    invariant
                        0 <= k <= src@.len(),
                        v@ == src@.take(k as int),
                    decreases src@.len() - k,
                {
                    v.push(src[k]);
                    k += 1;
                    assert(v@ == src@.take(k as int));
                }
                assert(src@.take(k as int) == src@);
                assert(self.entries()[i as int].1 == src@);
                Some(v)
            },
            None => None,
        }
    }

    /// Adds the peers to those known for `info_hash`.
    pub fn insert_peers(&mut self, info_hash: ID, new_peers: &[Peer])
        requires
            old(self).wf(),
        ensures
            final(self).wf(),
            match hash_index(old(self).entries(), info_hash) {
                Some(i) => {
                    &&& final(self).entries().len() == old(self).entries().len()
                    &&& final(self).entries()[i].0 == info_hash
                    &&& final(self).entries()[i].1.to_set() == old(self).entries()[i].1.to_set() + new_peers@.to_set()
                    &&& forall|k: int| 0 <= k < old(self).entries().len() && k != i ==> #[trigger] final(self).entries()[k] == old(self).entries()[k]
                },
                None => {
                    &&& final(self).entries().len() == old(self).entries().len() + 1
                    &&& final(self).entries().last().0 == info_hash
                    &&& final(self).entries().last().1.to_set() == new_peers@.to_set()
                    &&& final(self).entries().drop_last() == old(self).entries()
                },
            },
    {
        let ghost e0 = self.entries();
        match self.position(&info_hash) {
            Some(i) => {
                let (id, mut set) = self.data.remove(i);
                proof {
                    assert(e0[i as int] == (id, set@));
                    assert(distinct_peers(e0[i as int].1));
                }
                add_all(&mut set, new_peers);
                self.data.insert(i, (id, set));
                proof {
                    assert(self.entries() =~= e0.update(i as int, (id, set@)));
                    assert forall|a: int, b: int| 0 <= a < b < self.entries().len() implies #[trigger] self.entries()[a].0 != #[trigger] self.entries()[b].0 by {
                        assert(e0[a].0 != e0[b].0);
                    }
                    assert forall|a: int| 0 <= a < self.entries().len() implies #[trigger] distinct_peers(self.entries()[a].1) by {
                        if a != i {
                            assert(distinct_peers(e0[a].1));
                        }
                    }
                }
            },
            None => {
                let mut set: Vec<Peer> = Vec::new();
                add_all(&mut set, new_peers);
                proof {
                    assert(Seq::<Peer>::empty().to_set() + new_peers@.to_set() =~= new_peers@.to_set());
                }
                self.data.push((info_hash, set));
                proof {
                    assert(self.entries() =~= e0.push((info_hash, set@)));
                    assert forall|a: int, b: int| 0 <= a < b < self.entries().len() implies #[trigger] self.entries()[a].0 != #[trigger] self.entries()[b].0 by {
                        if b == e0.len() {
                            assert(e0[a].0 != info_hash);
                        } else {
                            assert(e0[a].0 != e0[b].0);
                        }
                    }
                    assert forall|a: int| 0 <= a < self.entries().len() implies #[trigger] distinct_peers(self.entries()[a].1) by {
                        if a < e0.len() {
                            assert(distinct_peers(e0[a].1));
                        }
                    }
                }
            },
        }
    }
}

/// What storing the peers `new_peers` announced for `info_hash` makes of the torrent's
/// peers (they join them when the hash is the table's own) and of the peer map (they join
/// the hash's entry, a new one if need be).
pub open spec fn peers_stored(
    t: RoutingTable,
    info_hash: ID,
    new_peers: Seq<Peer>,
    tp0: Peers,
    tp1: Peers,
    m0: PeerMap,
    m1: PeerMap,
) -> bool {
    &&& tp1.wf()
    &&& tp1.spec_info_hash() == tp0.spec_info_hash()
    &&& tp1.entries() == if info_hash@ == t.own()@ {
        upsert_all(
            tp0.entries(),
            Seq::new(new_peers.len(), |i: int| (new_peers[i], Status::Unknown)),
        )
    } else {
        tp0.entries()
    }
    &&& m1.wf()
    &&& match hash_index(m0.entries(), info_hash) {
        Some(i) => {
            &&& m1.entries().len() == m0.entries().len()
            &&& m1.entries()[i].0 == info_hash
            &&& m1.entries()[i].1.to_set() == m0.entries()[i].1.to_set() + new_peers.to_set()
            &&& forall|k: int| 0 <= k < m0.entries().len() && k != i ==> #[trigger] m1.entries()[k] == m0.entries()[k]
        },
        None => {
            &&& m1.entries().len() == m0.entries().len() + 1
            &&& m1.entries().last().0 == info_hash
            &&& m1.entries().last().1.to_set() == new_peers.to_set()
            &&& m1.entries().drop_last() == m0.entries()
        },
    }
}

/// Records peers found for `info_hash`: they join the torrent's peers when the info hash is
/// the routing table's own identifier, and the peers known for the info hash in any case.
pub fn store_new_peers(
    new_peers: Vec<Peer>,
    info_hash: ID,
    routing_table: &RoutingTable,
    torrent_peers: &mut Peers,
    dht_peer_map: &mut PeerMap,
)
    requires
        old(torrent_peers).wf(),
        old(dht_peer_map).wf(),
    ensures
        peers_stored(
            *routing_table,
            info_hash,
            new_peers@,
            *old(torrent_peers),
            *final(torrent_peers),
            *old(dht_peer_map),
            *final(dht_peer_map),
        ),
{
    if info_hash == *routing_table.own_id() {
        torrent_peers.extend(new_peers.as_slice());
    }
    dht_peer_map.insert_peers(info_hash, new_peers.as_slice());
}

/// `rand`'s `IteratorRandom::choose_multiple` on the thread-local generator: up to `amount`
/// of the peers, each taken at most once, in no fixed order.
#[verifier::external_body]
fn choose_multiple_peers(peers: Vec<Peer>, amount: usize) -> (r: Vec<Peer>)
    ensures
        r@.len() == if amount < peers@.len() {
            amount as int
        } else {
            peers@.len() as int
        },
        r@.to_multiset().subset_of(peers@.to_multiset()),
{
    peers.into_iter().choose_multiple(&mut rand::thread_rng(), amount)
}

/// The nodes of a lookup's result, as a plain option.
pub open spec fn found_nodes(r: Option<ValuesOrNodes>) -> Option<Nodes> {
    match r {
        Some(ValuesOrNodes::Nodes { nodes }) => Some(nodes),
        _ => None,
    }
}

/// A lookup of `id` in `t` just now found what `r` holds: the node itself, or the nodes
/// nearest to it at a moment no earlier than the latest time the table has read.
pub open spec fn lookup_ok(t: RoutingTable, id: ID, r: Option<Nodes>) -> bool {
    &&& t.holds_id(id) ==> (r matches Some(Nodes::Exact(x)) && x.id == id && t.node_in(x))
    &&& !t.holds_id(id) ==> exists|now: u64| now >= t.latest() && #[trigger] closest_found(t, id, now, r)
}

/// A lookup of a node the table does not hold offers only nodes of the table heard from
/// less than the validity period before the latest time the table has read: silent nodes
/// are never offered, whenever the lookup took its clock reading.
pub proof fn lemma_lookup_offers_fresh_nodes(t: RoutingTable, id: ID, r: Option<Nodes>)
    requires
        t.wf(),
        !t.holds_id(id),
        lookup_ok(t, id, r),
    ensures
        r matches Some(Nodes::Closest(v)) ==> forall|k: int|
            0 <= k < v@.len() ==> t.node_in(#[trigger] v@[k]) && heard_within_validity(v@[k], t.latest()),
{
    let now = choose|now: u64| now >= t.latest() && #[trigger] closest_found(t, id, now, r);
    lemma_closest_are_fresh(t, id, now, r);
}

/// `a` is the address of a node of `t` heard from less than the validity period before the
/// latest time `t` has read.
pub open spec fn fresh_node_at(t: RoutingTable, a: Peer) -> bool {
    exists|x: Node| #[trigger] t.node_in(x) && x.addr == a && heard_within_validity(x, t.latest())
}

/// The nodes first asked for the peers of `info_hash` (a hash the table does not hold as a
/// node) are at most `FETCH_PEER_PARALLEL` nodes of the table, none of them stale: each was
/// heard from less than the validity period before the latest time the table has read.
pub proof fn lemma_fetch_targets_are_fresh(t: RoutingTable, info_hash: ID, r: Seq<Peer>)
    requires
        t.wf(),
        !t.holds_id(info_hash),
        exists|found: Option<Nodes>| #[trigger] lookup_ok(t, info_hash, found) && r == lookup_targets(found),
    ensures
        r.len() <= FETCH_PEER_PARALLEL,
        forall|k: int| 0 <= k < r.len() ==> #[trigger] fresh_node_at(t, r[k]),
{
    let found = choose|found: Option<Nodes>| #[trigger] lookup_ok(t, info_hash, found) && r == lookup_targets(found);
    lemma_lookup_offers_fresh_nodes(t, info_hash, found);
    match found {
        Some(n) => {
            let s = nodes_seq(n);
            assert(n is Closest);
            assert forall|k: int| 0 <= k < r.len() implies #[trigger] fresh_node_at(t, r[k]) by {
                let x = s[k];
                assert(r[k] == x.addr);
                assert(t.node_in(x) && heard_within_validity(x, t.latest()));
            }
        },
        None => {},
    }
}

/// The answer to a peer lookup for `info_hash`: up to `MAX_PEERS_IN_ANSWER` of the peers
/// known for it, or else the nodes the routing table finds; `None` when it finds none.
pub fn get_peers_answer(routing_table: &RoutingTable, dht_peer_map: &PeerMap, info_hash: &ID) -> (r: Option<ValuesOrNodes>)
    requires
        routing_table.wf(),
        dht_peer_map.wf(),
    ensures
        match hash_index(dht_peer_map.entries(), *info_hash) {
            Some(i) => r matches Some(ValuesOrNodes::Values { values }) && values@.len() == if MAX_PEERS_IN_ANSWER
                < dht_peer_map.entries()[i].1.len() {
                MAX_PEERS_IN_ANSWER as int
            } else {
                dht_peer_map.entries()[i].1.len() as int
            } && values@.to_multiset().subset_of(dht_peer_map.entries()[i].1.to_multiset()),
            None => (r is None || r matches Some(ValuesOrNodes::Nodes { .. })) && lookup_ok(
                *routing_table,
                *info_hash,
                found_nodes(r),
            ),
        },
{
    match dht_peer_map.stored(info_hash) {
        Some(stored) => {
            let values = choose_multiple_peers(stored, MAX_PEERS_IN_ANSWER);
            Some(ValuesOrNodes::Values { values })
        },
        None => {
            match routing_table.find_node(info_hash) {
                Some(nodes) => {
                    let r = Some(ValuesOrNodes::Nodes { nodes });
                    proof {
                        assert(found_nodes(r) == Some(nodes));
                    }
                    r
                },
                None => None,
            }
        },
    }
}

/// The answer to a peer lookup for `h`: up to the most an answer holds of the peers stored
/// for `h`, or else the nodes of a lookup of `h`.
pub open spec fn peers_answered(t: RoutingTable, m: PeerMap, h: ID, r: Option<ToConResp>) -> bool {
    match hash_index(m.entries(), h) {
        Some(i) => r matches Some(ToConResp::GetPeers { values_or_nodes: ValuesOrNodes::Values { values } })
            && values@.len() == if MAX_PEERS_IN_ANSWER < m.entries()[i].1.len() {
            MAX_PEERS_IN_ANSWER as int
        } else {
            m.entries()[i].1.len() as int
        } && values@.to_multiset().subset_of(m.entries()[i].1.to_multiset()),
        None => match r {
            Some(ToConResp::GetPeers { values_or_nodes: ValuesOrNodes::Nodes { nodes } }) => lookup_ok(t, h, Some(nodes)),
            None => lookup_ok(t, h, None),
            _ => false,
        },
    }
}

/// The answer to a peer lookup, as a response to send; `None` when nothing is found.
pub fn get_peers(routing_table: &RoutingTable, dht_peer_map: &PeerMap, info_hash: &ID) -> (r: Option<ToConResp>)
    requires
        routing_table.wf(),
        dht_peer_map.wf(),
    ensures
        peers_answered(*routing_table, *dht_peer_map, *info_hash, r),
{
    match get_peers_answer(routing_table, dht_peer_map, info_hash) {
        Some(values_or_nodes) => Some(ToConResp::GetPeers { values_or_nodes }),
        None => None,
    }
}

/// The answer to a node lookup for `target`: the nodes a lookup finds, if any.
pub open spec fn node_answered(t: RoutingTable, target: ID, r: Option<ToConResp>) -> bool {
    match r {
        Some(ToConResp::FindNode { nodes }) => lookup_ok(t, target, Some(nodes)),
        None => lookup_ok(t, target, None),
        _ => false,
    }
}

/// The answer to a node lookup for `target`; `None` when the routing table finds none.
pub fn find_node(routing_table: &RoutingTable, target: &ID) -> (r: Option<ToConResp>)
    requires
        routing_table.wf(),
    ensures
        node_answered(*routing_table, *target, r),
{
    match routing_table.find_node(target) {
        Some(nodes) => Some(ToConResp::FindNode { nodes }),
        None => None,
    }
}

/// The addresses of the nodes among `s` that the table does not hold.
pub open spec fn unheld_addrs(t: RoutingTable, s: Seq<Node>) -> Seq<Peer>
    decreases s.len(),
{
    if s.len() == 0 {
        Seq::empty()
    } else {
        unheld_addrs(t, s.drop_last()) + if t.holds_id(s.last().id) {
            Seq::empty()
        } else {
            seq![s.last().addr]
        }
    }
}

/// The addresses of the nodes of a response to ping: those of the nodes the table does not
/// hold yet.
pub fn ping_unknown_nodes(nodes: &Nodes, routing_table: &RoutingTable) -> (r: Vec<Peer>)
    requires
        routing_table.wf(),
    ensures
        r@ == unheld_addrs(*routing_table, nodes_seq(*nodes)),
{
    let list = nodes.iter();
    let mut out: Vec<Peer> = Vec::new();
    let mut i: usize = 0;
    while i < list.len()
        invariant
            routing_table.wf(),
            0 <= i <= list@.len(),
            out@ == unheld_addrs(*routing_table, list@.take(i as int)),
        decreases list@.len() - i,
    {
        assert(list@.take(i + 1).drop_last() == list@.take(i as int));
        if !routing_table.contains_node(&list[i].id) {
            out.push(list[i].addr);
        }
        i += 1;
    }
    assert(list@.take(i as int) == list@);
    out
}

/// The addresses of the first nodes (at most `FETCH_PEER_PARALLEL`) of a lookup's result.
pub open spec fn lookup_targets(found: Option<Nodes>) -> Seq<Peer> {
    match found {
        Some(n) => nodes_seq(n).take(
            if FETCH_PEER_PARALLEL < nodes_seq(n).len() {
                FETCH_PEER_PARALLEL as int
            } else {
                nodes_seq(n).len() as int
            },
        ).map_values(|x: Node| x.addr),
        None => Seq::empty(),
    }
}

/// The addresses of the first nodes (at most `FETCH_PEER_PARALLEL`) that a lookup of
/// `info_hash` finds, to ask for peers.
pub fn fetch_peers_targets(routing_table: &RoutingTable, info_hash: &ID) -> (r: Vec<Peer>)
    requires
        routing_table.wf(),
    ensures
        exists|found: Option<Nodes>| #[trigger] lookup_ok(*routing_table, *info_hash, found) && r@
            == lookup_targets(found),
{
    let found = routing_table.find_node(info_hash);
    let mut out: Vec<Peer> = Vec::new();
    match &found {
        Some(nodes) => {
            let list = nodes.iter();
            let ghost m = if FETCH_PEER_PARALLEL < list@.len() { FETCH_PEER_PARALLEL as int } else { list@.len() as int };
            let mut i: usize = 0;
            while i < list.len() && i < FETCH_PEER_PARALLEL
                invariant
                    0 <= i <= list@.len(),
                    i <= FETCH_PEER_PARALLEL,
                    out@ == list@.take(i as int).map_values(|x: Node| x.addr),
                decreases list@.len() - i,
            {
                out.push(list[i].addr);
                i += 1;
                assert(out@ =~= list@.take(i as int).map_values(|x: Node| x.addr));
            }
            assert(i == m);
        },
        None => {},
    }
    assert(lookup_ok(*routing_table, *info_hash, found));
    out
}

} // verus!
