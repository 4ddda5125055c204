//! The peer lookup of one info hash over the DHT: the nodes near the info hash that are
//! asked for peers, what each of them answered, which are forgotten when too many gather,
//! and which are told that this client downloads the torrent.
use vstd::prelude::*;
use std::cmp::Ordering;
use crate::id::{ID, id_less, xor_seq, lemma_id_less_strict_total};
use crate::routing_table::{Node, Nodes, id_precedes, nodes_seq};
use crate::peer::{Peer, Peers, Status, upsert_all};
use crate::peer_message::NoSizeBytes;
use crate::krpc::ValuesOrNodes;

verus! {

/// How many of the nearest nodes are told of this peer.
pub const ANNOUNCE_TO_N_TOP_NODES: usize = 16;

/// How many nodes are kept when too many have gathered.
pub const ACTIVE_CLOSE_NODES_CAP_LOW: usize = 128;

/// How many nodes may gather before the farthest are forgotten.
pub const ACTIVE_CLOSE_NODES_CAP_HIGH: usize = 512;

/// What is known of a node near the info hash: nothing yet, or that it gave peers, or that
/// it gave other nodes; the latter two with the token it handed out.
#[derive(Debug)]
pub enum NodeCloseToInfoHash {
    Unknown(ID),
    HasPeers { id: ID, token: NoSizeBytes },
    Peerless { id: ID, token: NoSizeBytes },
}

/// The node's identifier.
pub open spec fn node_id_of(n: NodeCloseToInfoHash) -> ID {
    match n {
        NodeCloseToInfoHash::Unknown(id) => id,
        NodeCloseToInfoHash::HasPeers { id, .. } => id,
        NodeCloseToInfoHash::Peerless { id, .. } => id,
    }
}

/// The token the node handed out, if it answered.
pub open spec fn token_of(n: NodeCloseToInfoHash) -> Option<Seq<u8>> {
    match n {
        NodeCloseToInfoHash::Unknown(_) => None,
        NodeCloseToInfoHash::HasPeers { token, .. } => Some(token.0@),
        NodeCloseToInfoHash::Peerless { token, .. } => Some(token.0@),
    }
}

/// Nodes that gave peers come first, then those that gave nodes, then those not heard from.
pub open spec fn kind_rank(n: NodeCloseToInfoHash) -> int {
    match n {
        NodeCloseToInfoHash::HasPeers { .. } => 0,
        NodeCloseToInfoHash::Peerless { .. } => 1,
        NodeCloseToInfoHash::Unknown(_) => 2,
    }
}

/// `a` comes before `b`: by kind, then by XOR distance of the identifier to `info_hash`.
pub open spec fn fetch_precedes(a: NodeCloseToInfoHash, b: NodeCloseToInfoHash, info_hash: ID) -> bool {
    ||| kind_rank(a) < kind_rank(b)
    ||| kind_rank(a) == kind_rank(b) && id_less(
        xor_seq(node_id_of(a)@, info_hash@),
        xor_seq(node_id_of(b)@, info_hash@),
    )
}

/// `fetch_precedes` is a strict order.
pub proof fn lemma_fetch_precedes_strict(a: NodeCloseToInfoHash, b: NodeCloseToInfoHash, c: NodeCloseToInfoHash, info_hash: ID)
    ensures
        !fetch_precedes(a, a, info_hash),
        fetch_precedes(a, b, info_hash) ==> !fetch_precedes(b, a, info_hash),
        fetch_precedes(a, b, info_hash) && fetch_precedes(b, c, info_hash) ==> fetch_precedes(a, c, info_hash),
{
    let ka = xor_seq(node_id_of(a)@, info_hash@);
    let kb = xor_seq(node_id_of(b)@, info_hash@);
    let kc = xor_seq(node_id_of(c)@, info_hash@);
    lemma_id_less_strict_total(ka, kb, kc);
    lemma_id_less_strict_total(kb, ka, kc);
}

impl NodeCloseToInfoHash {
    /// The node's identifier.
    pub fn id(&self) -> (r: ID)
        ensures
            r == node_id_of(*self),
    {
        match self {
            NodeCloseToInfoHash::Unknown(id) => *id,
            NodeCloseToInfoHash::HasPeers { id, .. } => *id,
            NodeCloseToInfoHash::Peerless { id, .. } => *id,
        }
    }

    /// The token the node handed out, if it answered.
    pub fn token(&self) -> (r: Option<&NoSizeBytes>)
        ensures
            match r {
                Some(t) => token_of(*self) == Some(t.0@),
                None => token_of(*self) is None,
            },
    {
        match self {
            NodeCloseToInfoHash::Unknown(_) => None,
            NodeCloseToInfoHash::HasPeers { token, .. } => Some(token),
            NodeCloseToInfoHash::Peerless { token, .. } => Some(token),
        }
    }

    /// Compares the kinds of two nodes: those that gave peers first, then those that gave
    /// nodes, then those not heard from.
    pub fn cmp_discriminant(&self, other: &Self) -> (r: Ordering)
        ensures
            (r == Ordering::Less) == (kind_rank(*self) < kind_rank(*other)),
            (r == Ordering::Equal) == (kind_rank(*self) == kind_rank(*other)),
            (r == Ordering::Greater) == (kind_rank(*self) > kind_rank(*other)),
    {
        match (self, other) {
            (NodeCloseToInfoHash::HasPeers { .. }, NodeCloseToInfoHash::Peerless { .. }) => Ordering::Less,
            (NodeCloseToInfoHash::HasPeers { .. }, NodeCloseToInfoHash::Unknown(_)) => Ordering::Less,
            (NodeCloseToInfoHash::Peerless { .. }, NodeCloseToInfoHash::Unknown(_)) => Ordering::Less,
            (NodeCloseToInfoHash::Peerless { .. }, NodeCloseToInfoHash::HasPeers { .. }) => Ordering::Greater,
            (NodeCloseToInfoHash::Unknown(_), NodeCloseToInfoHash::HasPeers { .. }) => Ordering::Greater,
            (NodeCloseToInfoHash::Unknown(_), NodeCloseToInfoHash::Peerless { .. }) => Ordering::Greater,
            _ => Ordering::Equal,
        }
    }
}

/// Whether `a` comes before `b` in the order nodes are kept and told of this peer.
fn precedes(a: &NodeCloseToInfoHash, b: &NodeCloseToInfoHash, info_hash: &ID) -> (r: bool)
    ensures
        r == fetch_precedes(*a, *b, *info_hash),
{
    match a.cmp_discriminant(b) {
        Ordering::Less => true,
        Ordering::Greater => false,
        Ordering::Equal => {
            let da = a.id().xor(info_hash);
            let db = b.id().xor(info_hash);
            id_precedes(&da, &db)
        },
    }
}

/// No address occurs twice among the entries.
pub open spec fn unique_addrs(e: Seq<(Peer, NodeCloseToInfoHash)>) -> bool {
    forall|i: int, j: int| 0 <= i < j < e.len() ==> #[trigger] e[i].0 != #[trigger] e[j].0
}

/// Some entry is for the address `a`.
pub open spec fn holds_addr(e: Seq<(Peer, NodeCloseToInfoHash)>, a: Peer) -> bool {
    exists|i: int| 0 <= i < e.len() && #[trigger] e[i].0 == a
}

/// The entries with node `a` set to `v`: in its place if known, else at the end.
pub open spec fn put(e: Seq<(Peer, NodeCloseToInfoHash)>, a: Peer, v: NodeCloseToInfoHash) -> Seq<(Peer, NodeCloseToInfoHash)> {
    if holds_addr(e, a) {
        let i = choose|i: int| 0 <= i < e.len() && #[trigger] e[i].0 == a;
        e.update(i, (a, v))
    } else {
        e.push((a, v))
    }
}

/// The entries after setting each of `nodes`, in order, to not heard from.
pub open spec fn put_unknowns(e: Seq<(Peer, NodeCloseToInfoHash)>, nodes: Seq<Node>) -> Seq<(Peer, NodeCloseToInfoHash)>
    decreases nodes.len(),
{
    if nodes.len() == 0 {
        e
    } else {
        put(put_unknowns(e, nodes.drop_last()), nodes.last().addr, NodeCloseToInfoHash::Unknown(nodes.last().id))
    }
}

/// The entries after adding, in order, each of `nodes` whose address is not known yet.
pub open spec fn add_absent(e: Seq<(Peer, NodeCloseToInfoHash)>, nodes: Seq<Node>) -> Seq<(Peer, NodeCloseToInfoHash)>
    decreases nodes.len(),
{
    if nodes.len() == 0 {
        e
    } else {
        let prev = add_absent(e, nodes.drop_last());
        if holds_addr(prev, nodes.last().addr) {
            prev
        } else {
            prev.push((nodes.last().addr, NodeCloseToInfoHash::Unknown(nodes.last().id)))
        }
    }
}

/// The addresses `add_absent` adds, in order.
pub open spec fn absent_addrs(e: Seq<(Peer, NodeCloseToInfoHash)>, nodes: Seq<Node>) -> Seq<Peer>
    decreases nodes.len(),
{
    if nodes.len() == 0 {
        Seq::empty()
    } else {
        let prev = add_absent(e, nodes.drop_last());
        absent_addrs(e, nodes.drop_last()) + if holds_addr(prev, nodes.last().addr) {
            Seq::<Peer>::empty()
        } else {
            seq![nodes.last().addr]
        }
    }
}

/// The addresses of the entries, in order.
pub open spec fn addrs_of(e: Seq<(Peer, NodeCloseToInfoHash)>) -> Seq<Peer> {
    Seq::new(e.len(), |i: int| e[i].0)
}

/// `ord` lists each index of `e` once, in the order of `fetch_precedes`.
pub open spec fn is_fetch_order(e: Seq<(Peer, NodeCloseToInfoHash)>, ord: Seq<usize>, info_hash: ID) -> bool {
    &&& ord.len() == e.len()
    &&& forall|k: int| 0 <= k < ord.len() ==> #[trigger] ord[k] < e.len()
    &&& forall|a: int, b: int| 0 <= a < b < ord.len() ==> #[trigger] ord[a] != #[trigger] ord[b]
    &&& forall|a: int, b: int|
        0 <= a < b < ord.len() ==> !fetch_precedes(e[#[trigger] ord[b] as int].1, e[#[trigger] ord[a] as int].1, info_hash)
}

/// The indices of `e` in the order of `fetch_precedes`; of equals, the earlier comes first.
fn fetch_order(e: &Vec<(Peer, NodeCloseToInfoHash)>, info_hash: &ID) -> (r: Vec<usize>)
    ensures
        is_fetch_order(e@, r@, *info_hash),
{
    let mut out: Vec<usize> = Vec::new();
    let mut i: usize = 0;
    while i < e.len()
        invariant
            0 <= i <= e@.len(),
            out@.len() == i,
            forall|k: int| 0 <= k < out@.len() ==> #[trigger] out@[k] < i,
            forall|a: int, b: int| 0 <= a < b < out@.len() ==> #[trigger] out@[a] != #[trigger] out@[b],
            forall|a: int, b: int|
                0 <= a < b < out@.len() ==> !fetch_precedes(e@[#[trigger] out@[b] as int].1, e@[#[trigger] out@[a] as int].1, *info_hash),
        decreases e@.len() - i,
    {
        let mut p: usize = 0;
        while p < out.len() && !precedes(&e[i].1, &e[out[p]].1, info_hash)
            invariant
                0 <= p <= out@.len(),
                i < e@.len(),
                forall|k: int| 0 <= k < out@.len() ==> #[trigger] out@[k] < i,
                forall|k: int| 0 <= k < p ==> !fetch_precedes(e@[i as int].1, e@[#[trigger] out@[k] as int].1, *info_hash),
            decreases out@.len() - p,
        {
            p += 1;
        }
        let ghost before = out@;
        out.insert(p, i);
        proof {
            let x = e@[i as int].1;
            assert forall|k: int| 0 <= k < out@.len() implies #[trigger] out@[k] < i + 1 by {
                if k < p {
                    assert(out@[k] == before[k]);
                } else if k > p {
                    assert(out@[k] == before[k - 1]);
                }
            }
            assert forall|a: int, b: int| 0 <= a < b < out@.len() implies #[trigger] out@[a] != #[trigger] out@[b] by {
                if b < p {
                    assert(out@[a] == before[a] && out@[b] == before[b]);
                } else if b == p {
                    assert(out@[a] == before[a]);
                } else if a < p {
                    assert(out@[a] == before[a] && out@[b] == before[b - 1]);
                } else if a == p {
                    assert(out@[b] == before[b - 1]);
                } else {
                    assert(out@[a] == before[a - 1] && out@[b] == before[b - 1]);
                }
            }
            assert forall|a: int, b: int| 0 <= a < b < out@.len() implies !fetch_precedes(
                e@[#[trigger] out@[b] as int].1,
                e@[#[trigger] out@[a] as int].1,
                *info_hash,
            ) by {
                if b < p {
                    assert(out@[a] == before[a] && out@[b] == before[b]);
                } else if b == p {
                    assert(out@[a] == before[a]);
                } else if a < p {
                    assert(out@[a] == before[a] && out@[b] == before[b - 1]);
                } else if a == p {
                    assert(out@[b] == before[b - 1]);
                    let y = e@[before[p as int] as int].1;
                    let z = e@[before[b - 1] as int].1;
                    assert(fetch_precedes(x, y, *info_hash));
                    lemma_fetch_precedes_strict(z, x, y, *info_hash);
                    lemma_fetch_precedes_strict(x, y, z, *info_hash);
                    if b - 1 > p {
                        assert(!fetch_precedes(z, y, *info_hash));
                    }
                } else {
                    assert(out@[a] == before[a - 1] && out@[b] == before[b - 1]);
                }
            }
        }
        i += 1;
    }
    out
}

/// What `announce_targets` hands out: the nodes in `ord`'s order that gave a token, with it.
pub open spec fn tokens_in_order(e: Seq<(Peer, NodeCloseToInfoHash)>, ord: Seq<usize>) -> Seq<(Peer, Seq<u8>)>
    decreases ord.len(),
{
    if ord.len() == 0 {
        Seq::empty()
    } else {
        let prev = tokens_in_order(e, ord.drop_last());
        let x = e[ord.last() as int];
        match token_of(x.1) {
            Some(t) => prev.push((x.0, t)),
            None => prev,
        }
    }
}

/// The first `n` items of `s`, or all of them when there are fewer.
pub open spec fn first_up_to<A>(s: Seq<A>, n: int) -> Seq<A> {
    if n < s.len() {
        s.take(n)
    } else {
        s
    }
}

/// The entries in the order `ord` lists them.
pub open spec fn in_order(e: Seq<(Peer, NodeCloseToInfoHash)>, ord: Seq<usize>) -> Seq<(Peer, NodeCloseToInfoHash)> {
    Seq::new(ord.len(), |t: int| e[ord[t] as int])
}

/// The view of the announce targets handed out.
pub open spec fn targets_view(r: Seq<(Peer, Vec<u8>)>) -> Seq<(Peer, Seq<u8>)> {
    Seq::new(r.len(), |i: int| (r[i].0, r[i].1@))
}

/// The peer lookup of one info hash: the nodes near it, by address, and what each answered.
pub struct PeerFetch {
    info_hash: ID,
    nodes: Vec<(Peer, NodeCloseToInfoHash)>,
}

/// The lookup `f1` keeps the nearest `ACTIVE_CLOSE_NODES_CAP_LOW` nodes of `f0`, in lookup
/// order.
pub open spec fn forgot_far(f0: PeerFetch, f1: PeerFetch) -> bool {
    exists|ord: Seq<usize>| #[trigger] is_fetch_order(f0.entries(), ord, f0.spec_info_hash())
        && f1.entries() == first_up_to(in_order(f0.entries(), ord), ACTIVE_CLOSE_NODES_CAP_LOW as int)
}

/// What taking a node's answer to a peer lookup makes of the lookup `f0` and the peers `p0`,
/// `r` being the addresses to ask in turn.
pub open spec fn took_peers_resp(
    f0: PeerFetch,
    f1: PeerFetch,
    p0: Peers,
    p1: Peers,
    from: Peer,
    token: NoSizeBytes,
    vn: ValuesOrNodes,
    r: Seq<Peer>,
) -> bool {
    &&& f1.wf()
    &&& f1.spec_info_hash() == f0.spec_info_hash()
    &&& p1.wf()
    &&& p1.spec_info_hash() == p0.spec_info_hash()
    &&& !holds_addr(f0.entries(), from) ==> f1.entries() == f0.entries()
        && p1.entries() == p0.entries() && r.len() == 0
    &&& holds_addr(f0.entries(), from) ==> ({
        let e = f0.entries();
        let i = choose|i: int| 0 <= i < e.len() && #[trigger] e[i].0 == from;
        let id = node_id_of(e[i].1);
        match vn {
            ValuesOrNodes::Values { values } => {
                &&& p1.entries() == upsert_all(
                    p0.entries(),
                    Seq::new(values@.len(), |k: int| (values@[k], Status::Unknown)),
                )
                &&& f1.entries() == e.update(i, (from, NodeCloseToInfoHash::HasPeers { id, token }))
                &&& r.len() == 0
            },
            ValuesOrNodes::Nodes { nodes } => {
                let e1 = e.update(i, (from, NodeCloseToInfoHash::Peerless { id, token }));
                &&& p1.entries() == p0.entries()
                &&& f1.entries() == add_absent(e1, nodes_seq(nodes))
                &&& r == absent_addrs(e1, nodes_seq(nodes))
            },
        }
    })
}

impl PeerFetch {
    pub closed spec fn spec_info_hash(self) -> ID {
        self.info_hash
    }

    pub closed spec fn entries(self) -> Seq<(Peer, NodeCloseToInfoHash)> {
        self.nodes@
    }

    pub open spec fn wf(self) -> bool {
        unique_addrs(self.entries())
    }

    /// Where the node at address `a` is, if it is known.
    fn position(&self, a: &Peer) -> (r: Option<usize>)
        ensures
            match r {
                Some(i) => i < self.entries().len() && self.entries()[i as int].0 == *a,
                None => !holds_addr(self.entries(), *a),
            },
    {
        let mut i: usize = 0;
        while i < self.nodes.len()
            invariant
                0 <= i <= self.nodes@.len(),
                forall|k: int| 0 <= k < i ==> self.nodes@[k].0 != *a,
            decreases self.nodes@.len() - i,
        {
            if self.nodes[i].0 == *a {
                return Some(i);
            }
            i += 1;
        }
        None
    }

    /// Sets the node at `a` to `v`, in its place if known, else at the end.
    fn put_node(&mut self, a: Peer, v: NodeCloseToInfoHash)
        requires
            old(self).wf(),
        ensures
            final(self).wf(),
            final(self).spec_info_hash() == old(self).spec_info_hash(),
            final(self).entries() == put(old(self).entries(), a, v),
    {
        let ghost e = self.nodes@;
        match self.position(&a) {
            Some(i) => {
                proof {
                    let j = choose|j: int| 0 <= j < e.len() && #[trigger] e[j].0 == a;
                    if j != i {
                        if j < i {
                            assert(e[j].0 != e[i as int].0);
                        } else {
                            assert(e[i as int].0 != e[j].0);
                        }
                    }
                }
                self.nodes.set(i, (a, v));
                proof {
                    assert forall|x: int, y: int| 0 <= x < y < self.nodes@.len() implies #[trigger] self.nodes@[x].0
                        != #[trigger] self.nodes@[y].0 by {
                        assert(e[x].0 != e[y].0);
                    }
                }
            },
            None => {
                self.nodes.push((a, v));
                proof {
                    assert forall|x: int, y: int| 0 <= x < y < self.nodes@.len() implies #[trigger] self.nodes@[x].0
                        != #[trigger] self.nodes@[y].0 by {
                        if y == e.len() {
                            assert(e[x].0 != a);
                        } else {
                            assert(e[x].0 != e[y].0);
                        }
                    }
                }
            },
        }
    }

    /// A lookup of `info_hash` that starts with `nodes`, none heard from yet; of nodes with
    /// the same address the last one counts.
    pub fn new(info_hash: ID, nodes: Vec<Node>) -> (r: Self)
        ensures
            r.wf(),
            r.spec_info_hash() == info_hash,
            r.entries() == put_unknowns(Seq::empty(), nodes@),
    {
        let mut fetch = PeerFetch { info_hash, nodes: Vec::new() };
        let mut i: usize = 0;
        while i < nodes.len()
            invariant
                0 <= i <= nodes@.len(),
                fetch.wf(),
                fetch.spec_info_hash() == info_hash,
                fetch.entries() == put_unknowns(Seq::empty(), nodes@.take(i as int)),
            decreases nodes@.len() - i,
        {
            assert(nodes@.take(i + 1).drop_last() == nodes@.take(i as int));
            fetch.put_node(nodes[i].addr, NodeCloseToInfoHash::Unknown(nodes[i].id));
            i += 1;
        }
        assert(nodes@.take(nodes@.len() as int) == nodes@);
        fetch
    }

    /// The addresses of the nodes to ask for peers.
    pub fn targets(&self) -> (r: Vec<Peer>)
        ensures
            r@ == addrs_of(self.entries()),
    {
        let mut out: Vec<Peer> = Vec::new();
        let mut i: usize = 0;
        while i < self.nodes.len()
            invariant
                0 <= i <= self.nodes@.len(),
                out@ == addrs_of(self.entries()).take(i as int),
            decreases self.nodes@.len() - i,
        {
            out.push(self.nodes[i].0);
            i += 1;
            assert(out@ == addrs_of(self.entries()).take(i as int));
        }
        assert(addrs_of(self.entries()).take(i as int) == addrs_of(self.entries()));
        out
    }

    /// So many nodes have gathered that the farthest are to be forgotten.
    pub fn crowded(&self) -> (r: bool)
        ensures
            r == (self.entries().len() >= ACTIVE_CLOSE_NODES_CAP_HIGH),
    {
        self.nodes.len() >= ACTIVE_CLOSE_NODES_CAP_HIGH
    }

    /// Takes a node's answer to a peer lookup; an answer from a node not followed is
    /// ignored. Peers join `peers` and mark the node as having peers. Nodes mark it as
    /// peerless, and those whose address is not followed yet are followed from now on and
    /// returned, to be asked in turn.
    pub fn on_get_peers_resp(&mut self, from: Peer, token: NoSizeBytes, values_or_nodes: ValuesOrNodes, peers: &mut Peers) -> (r: Vec<Peer>)
        requires
            old(self).wf(),
            old(peers).wf(),
        ensures
            took_peers_resp(*old(self), *final(self), *old(peers), *final(peers), from, token, values_or_nodes, r@),
    {
        let ghost e = self.nodes@;
        let i = match self.position(&from) {
            Some(i) => i,
            None => {
                return Vec::new();
            },
        };
        proof {
            let j = choose|j: int| 0 <= j < e.len() && #[trigger] e[j].0 == from;
            if j != i {
                if j < i {
                    assert(e[j].0 != e[i as int].0);
                } else {
                    assert(e[i as int].0 != e[j].0);
                }
            }
        }
        let id = self.nodes[i].1.id();
        let kind = match values_or_nodes {
            ValuesOrNodes::Values { .. } => NodeCloseToInfoHash::HasPeers { id, token },
            ValuesOrNodes::Nodes { .. } => NodeCloseToInfoHash::Peerless { id, token },
        };
        self.nodes.set(i, (from, kind));
        proof {
            assert forall|x: int, y: int| 0 <= x < y < self.nodes@.len() implies #[trigger] self.nodes@[x].0
                != #[trigger] self.nodes@[y].0 by {
                assert(e[x].0 != e[y].0);
            }
        }
        match values_or_nodes {
            ValuesOrNodes::Values { values } => {
                peers.extend(values.as_slice());
                Vec::new()
            },
            ValuesOrNodes::Nodes { nodes } => {
                let list = nodes.iter();
                let ghost e1 = self.nodes@;
                let mut out: Vec<Peer> = Vec::new();
                let mut k: usize = 0;
                while k < list.len()
                    invariant
                        0 <= k <= list@.len(),
                        self.wf(),
                        self.spec_info_hash() == old(self).spec_info_hash(),
                        self.entries() == add_absent(e1, list@.take(k as int)),
                        out@ == absent_addrs(e1, list@.take(k as int)),
                    decreases list@.len() - k,
                {
                    let n = list[k];
                    assert(list@.take(k + 1).drop_last() == list@.take(k as int));
                    assert(list@.take(k + 1).last() == n);
                    let ghost before = self.nodes@;
                    match self.position(&n.addr) {
                        Some(_) => {},
                        None => {
                            self.nodes.push((n.addr, NodeCloseToInfoHash::Unknown(n.id)));
                            out.push(n.addr);
                            proof {
                                assert forall|x: int, y: int| 0 <= x < y < self.nodes@.len() implies #[trigger] self.nodes@[x].0
                                    != #[trigger] self.nodes@[y].0 by {
                                    if y == before.len() {
                                        assert(before[x].0 != n.addr);
                                    } else {
                                        assert(before[x].0 != before[y].0);
                                    }
                                }
                            }
                        },
                    }
                    k += 1;
                }
                assert(list@.take(list@.len() as int) == list@);
                out
            },
        }
    }

    /// Keeps only the `ACTIVE_CLOSE_NODES_CAP_LOW` nodes that come first: those that gave
    /// peers, then those that gave nodes, then those not heard from, each kind nearest to
    /// the info hash first.
    pub fn forget_far_nodes(&mut self)
        requires
            old(self).wf(),
        ensures
            final(self).wf(),
            final(self).spec_info_hash() == old(self).spec_info_hash(),
            forgot_far(*old(self), *final(self)),
    {
        let ord = fetch_order(&self.nodes, &self.info_hash);
        let n = self.nodes.len();
        let m = if n < ACTIVE_CLOSE_NODES_CAP_LOW {
            n
        } else {
            ACTIVE_CLOSE_NODES_CAP_LOW
        };
        let mut old_nodes: Vec<(Peer, NodeCloseToInfoHash)> = Vec::new();
        std::mem::swap(&mut old_nodes, &mut self.nodes);
        let ghost e = old_nodes@;
        let ghost ih = self.info_hash;
        let mut kept: Vec<(Peer, NodeCloseToInfoHash)> = Vec::new();
        let mut k: usize = 0;
        while k < m
            invariant
                0 <= k <= m <= n,
                n == e.len(),
                m == if n < ACTIVE_CLOSE_NODES_CAP_LOW { n } else { ACTIVE_CLOSE_NODES_CAP_LOW },
                old_nodes@.len() == n,
                is_fetch_order(e, ord@, ih),
                kept@ == in_order(e, ord@).take(k as int),
                forall|t: int| k <= t < n ==> old_nodes@[#[trigger] ord@[t] as int] == e[ord@[t] as int],
            decreases m - k,
        {
            let idx = ord[k];
            let mut slot = (Peer::new([0u8, 0, 0, 0], 0), NodeCloseToInfoHash::Unknown(ID::new([0u8; 20])));
            let ghost before = old_nodes@;
            std::mem::swap(&mut slot, &mut old_nodes[idx]);
            proof {
                assert forall|t: int| k + 1 <= t < n implies old_nodes@[#[trigger] ord@[t] as int] == e[ord@[t] as int] by {
                    assert(ord@[t] != ord@[k as int]);
                    assert(before[ord@[t] as int] == e[ord@[t] as int]);
                }
            }
            kept.push(slot);
            k += 1;
            assert(kept@ == in_order(e, ord@).take(k as int));
        }
        self.nodes = kept;
        proof {
            assert(in_order(e, ord@).take(m as int) == first_up_to(in_order(e, ord@), ACTIVE_CLOSE_NODES_CAP_LOW as int));
            assert forall|x: int, y: int| 0 <= x < y < self.nodes@.len() implies #[trigger] self.nodes@[x].0
                != #[trigger] self.nodes@[y].0 by {
                let a = ord@[x] as int;
                let b = ord@[y] as int;
                assert(a != b);
                if a < b {
                    assert(e[a].0 != e[b].0);
                } else {
                    assert(e[b].0 != e[a].0);
                }
            }
            assert(e == old(self).entries());
            assert(is_fetch_order(old(self).entries(), ord@, old(self).spec_info_hash()));
            assert(self.entries() == first_up_to(in_order(old(self).entries(), ord@), ACTIVE_CLOSE_NODES_CAP_LOW as int));
        }
    }

    /// The nodes to tell of this peer, with the token each handed out: those that answered,
    /// in the order `forget_far_nodes` keeps nodes, at most `ANNOUNCE_TO_N_TOP_NODES`.
    pub fn announce_targets(&self) -> (r: Vec<(Peer, Vec<u8>)>)
        ensures
            exists|ord: Seq<usize>| #[trigger] is_fetch_order(self.entries(), ord, self.spec_info_hash())
                && targets_view(r@) == first_up_to(tokens_in_order(self.entries(), ord), ANNOUNCE_TO_N_TOP_NODES as int),
    {
        let ord = fetch_order(&self.nodes, &self.info_hash);
        let ghost e = self.nodes@;
        let mut out: Vec<(Peer, Vec<u8>)> = Vec::new();
        let mut k: usize = 0;
        while k < ord.len()
            invariant
                0 <= k <= ord@.len(),
                ord@.len() == e.len(),
                e == self.nodes@,
                is_fetch_order(e, ord@, self.info_hash),
                targets_view(out@) == first_up_to(tokens_in_order(e, ord@.take(k as int)), ANNOUNCE_TO_N_TOP_NODES as int),
            decreases ord@.len() - k,
        {
            let idx = ord[k];
            let ghost prev = tokens_in_order(e, ord@.take(k as int));
            assert(ord@.take(k + 1).drop_last() == ord@.take(k as int));
            assert(ord@.take(k + 1).last() == idx);
            let ghost before = out@;
            match self.nodes[idx].1.token() {
                Some(t) => {
                    if out.len() < ANNOUNCE_TO_N_TOP_NODES {
                        out.push((self.nodes[idx].0, t.as_bytes()));
                        assert(targets_view(out@) == targets_view(before).push((e[idx as int].0, t.0@)));
                    }
                },
                None => {},
            }
            k += 1;
            proof {
                let cur = tokens_in_order(e, ord@.take(k as int));
                assert(targets_view(out@) == first_up_to(cur, ANNOUNCE_TO_N_TOP_NODES as int));
            }
        }
        assert(ord@.take(ord@.len() as int) == ord@);
        assert(is_fetch_order(self.entries(), ord@, self.spec_info_hash()));
        assert(targets_view(out@) == first_up_to(tokens_in_order(self.entries(), ord@), ANNOUNCE_TO_N_TOP_NODES as int));
        out
    }
}

} // verus!
