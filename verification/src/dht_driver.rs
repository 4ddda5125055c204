//! The decisions of a DHT node: for each thing that happens to it (a timer firing, a query
//! handed on by the connection, a response to one of its own queries), what it asks, what it
//! answers and which peers it hands on to the torrent.
use vstd::prelude::*;
use crate::dht_connection::{FromConQuery, FromConResp, QueryId};
use crate::dht_node::{
    fetch_peers_targets, find_node, get_peers, ping_unknown_nodes, store_new_peers, lookup_ok,
    lookup_targets, node_answered, peers_answered, peers_stored, unheld_addrs, PeerMap,
};
use crate::id::ID;
use crate::krpc::{ToConQuery, ToConResp};
use crate::peer::{Peer, Peers};
use crate::peer_fetcher::{
    addrs_of, first_up_to, forgot_far, is_fetch_order, put_unknowns, tokens_in_order,
    took_peers_resp, PeerFetch, ACTIVE_CLOSE_NODES_CAP_HIGH, ANNOUNCE_TO_N_TOP_NODES,
};
use crate::peer_message::NoSizeBytes;
use crate::routing_table::{fillable_ids, nodes_seq, touched, Nodes, RoutingTable};

verus! {

/// What happens to the node.
#[derive(Debug)]
pub enum DhtEvent {
    /// Time to look for nodes that would fill the table.
    RefreshTick,
    /// Time to ask for peers of the torrent and to announce it.
    FetchTick,
    /// A query of another node, handed on by the connection.
    Query(FromConQuery),
    /// A response to one of the node's own queries.
    Response(FromConResp),
}

/// What the node does in turn.
#[derive(Debug)]
pub enum DhtAction {
    /// Send this query to `to`.
    Query { to: Peer, variant: ToConQuery },
    /// Answer the query `query_id`.
    Answer { query_id: QueryId, variant: ToConResp },
    /// Hand these peers on to the torrent.
    FoundPeers(Vec<Peer>),
}

/// The node's state: its routing table, the peers announced to it, the lookup of the
/// torrent's peers, the peers found so far, the torrent's hash and the port peers reach it on.
pub struct DhtState {
    pub table: RoutingTable,
    pub peer_map: PeerMap,
    pub fetch: PeerFetch,
    pub torrent_peers: Peers,
    pub info_hash: ID,
    pub tcp_port: u16,
}

impl DhtState {
    pub open spec fn wf(self) -> bool {
        &&& self.table.wf()
        &&& self.peer_map.wf()
        &&& self.fetch.wf()
        &&& self.torrent_peers.wf()
    }

    /// A node around `table` that looks for the peers of `info_hash`: no peer known, no
    /// lookup under way.
    pub fn new(table: RoutingTable, info_hash: ID, tcp_port: u16) -> (r: Self)
        requires
            table.wf(),
        ensures
            r.wf(),
            r.table == table,
            r.peer_map.entries().len() == 1,
            r.peer_map.entries()[0].0 == info_hash,
            r.peer_map.entries()[0].1.len() == 0,
            r.fetch.spec_info_hash() == info_hash,
            r.fetch.entries().len() == 0,
            r.torrent_peers.entries().len() == 0,
            r.torrent_peers.spec_info_hash() == info_hash,
            r.info_hash == info_hash,
            r.tcp_port == tcp_port,
    {
        let no_peers: Vec<Peer> = Vec::new();
        let peer_map = PeerMap::with_known(info_hash, no_peers.as_slice());
        proof {
            let s = peer_map.entries()[0].1;
            if s.len() > 0 {
                assert(s.to_set().contains(s[0]));
            }
        }
        let fetch = PeerFetch::new(info_hash, Vec::new());
        proof {
            assert(put_unknowns(Seq::empty(), Seq::<crate::routing_table::Node>::empty()).len() == 0);
        }
        DhtState { table, peer_map, fetch, torrent_peers: Peers::new(&info_hash), info_hash, tcp_port }
    }
}

/// A query for the peers of `h` sent to `to`.
pub open spec fn get_peers_query(to: Peer, h: ID) -> DhtAction {
    DhtAction::Query { to, variant: ToConQuery::GetPeers { info_hash: h } }
}

/// A ping sent to `to`.
pub open spec fn ping_query(to: Peer) -> DhtAction {
    DhtAction::Query { to, variant: ToConQuery::Ping }
}

/// From position `from` on, `r` asks each of `addrs` in turn for the peers of `h`.
pub open spec fn asks_for_peers(r: Seq<DhtAction>, from: int, addrs: Seq<Peer>, h: ID) -> bool {
    &&& from + addrs.len() <= r.len()
    &&& forall|k: int| 0 <= k < addrs.len() ==> r[from + k] == get_peers_query(#[trigger] addrs[k], h)
}

/// `a` announces to `target.0`, with its token `target.1`, that the node has the peers of
/// `h` on port `port`.
pub open spec fn announces(a: DhtAction, target: (Peer, Seq<u8>), h: ID, port: u16) -> bool {
    a matches DhtAction::Query {
        to,
        variant: ToConQuery::AnnouncePeer { info_hash, port: p, token },
    } && to == target.0 && info_hash == h && p == port && token.0@ == target.1
}

/// From position `from` on, `r` hands the torrent's peers `tp` on, when there are any, and
/// ends there.
pub open spec fn forwards(r: Seq<DhtAction>, from: int, tp: Peers) -> bool {
    if tp.entries().len() > 0 {
        &&& r.len() == from + 1
        &&& r[from] matches DhtAction::FoundPeers(v) && v@.len() == tp.entries().len() && forall|i: int|
            0 <= i < v@.len() ==> #[trigger] v@[i] == tp.entries()[i].0
    } else {
        r.len() == from
    }
}

/// The nodes first asked for peers: when no lookup is under way, the first nodes a lookup
/// of the torrent's hash finds; none otherwise.
pub open spec fn first_asked(s: DhtState, first: Seq<Peer>) -> bool {
    if s.fetch.entries().len() == 0 {
        exists|found: Option<Nodes>| #[trigger] lookup_ok(s.table, s.info_hash, found) && first
            == lookup_targets(found)
    } else {
        first.len() == 0
    }
}

/// What the node does when it is time to fetch: it asks the first nodes (when no lookup is
/// under way) and every node of the lookup for peers, then announces the torrent to the
/// nearest nodes that gave it a token.
pub open spec fn fetched(s: DhtState, r: Seq<DhtAction>) -> bool {
    let e = s.fetch.entries();
    exists|first: Seq<Peer>| #[trigger] first_asked(s, first) && exists|ord: Seq<usize>|
        #[trigger] is_fetch_order(e, ord, s.fetch.spec_info_hash()) && {
            let asked = first + addrs_of(e);
            let ann = first_up_to(tokens_in_order(e, ord), ANNOUNCE_TO_N_TOP_NODES as int);
            &&& r.len() == asked.len() + ann.len()
            &&& asks_for_peers(r, 0, asked, s.info_hash)
            &&& forall|k: int| 0 <= k < ann.len() ==> announces(r[asked.len() + k], #[trigger] ann[k], s.info_hash, s.tcp_port)
        }
}

/// The answer to the query `query_id`, when there is one.
pub open spec fn answered(r: Seq<DhtAction>, query_id: QueryId, res: Option<ToConResp>) -> bool {
    match res {
        Some(v) => r == seq![DhtAction::Answer { query_id, variant: v }],
        None => r.len() == 0,
    }
}

/// Only the peers and the peer map may change.
pub open spec fn same_but_peers(a: DhtState, b: DhtState) -> bool {
    &&& b.table == a.table
    &&& b.fetch == a.fetch
    &&& b.info_hash == a.info_hash
    &&& b.tcp_port == a.tcp_port
}

/// Appends a query for the peers of `h` to each of `addrs`.
fn push_get_peers(out: &mut Vec<DhtAction>, addrs: &Vec<Peer>, h: ID)
    ensures
        final(out)@.len() == old(out)@.len() + addrs@.len(),
        forall|k: int| 0 <= k < old(out)@.len() ==> #[trigger] final(out)@[k] == old(out)@[k],
        asks_for_peers(final(out)@, old(out)@.len() as int, addrs@, h),
{
    let ghost start = out@.len();
    let mut i: usize = 0;
    while i < addrs.len()
        invariant
            0 <= i <= addrs@.len(),
            out@.len() == start + i,
            start == old(out)@.len(),
            forall|k: int| 0 <= k < start ==> #[trigger] out@[k] == old(out)@[k],
            forall|k: int| 0 <= k < i ==> out@[start + k] == get_peers_query(#[trigger] addrs@[k], h),
        decreases addrs@.len() - i,
    {
        out.push(DhtAction::Query { to: addrs[i], variant: ToConQuery::GetPeers { info_hash: h } });
        i += 1;
    }
}

/// Appends the announcements to each of `targets`.
fn push_announces(out: &mut Vec<DhtAction>, targets: Vec<(Peer, Vec<u8>)>, h: ID, port: u16)
    ensures
        final(out)@.len() == old(out)@.len() + targets@.len(),
        forall|k: int| 0 <= k < old(out)@.len() ==> #[trigger] final(out)@[k] == old(out)@[k],
        forall|k: int| 0 <= k < targets@.len() ==> announces(
            final(out)@[old(out)@.len() + k],
            (#[trigger] targets@[k].0, targets@[k].1@),
            h,
            port,
        ),
{
    let ghost start = out@.len();
    let ghost all = targets@;
    let mut rest = targets;
    let n = rest.len();
    let mut i: usize = 0;
    while rest.len() > 0
        invariant
            0 <= i <= all.len(),
            all.len() == n,
            rest@ == all.subrange(i as int, all.len() as int),
            out@.len() == start + i,
            start == old(out)@.len(),
            forall|k: int| 0 <= k < start ==> #[trigger] out@[k] == old(out)@[k],
            forall|k: int| 0 <= k < i ==> announces(out@[start + k], (#[trigger] all[k].0, all[k].1@), h, port),
        decreases rest@.len(),
    {
        let (to, token) = rest.remove(0);
        assert(to == all[i as int].0 && token@ == all[i as int].1@);
        out.push(
            DhtAction::Query {
                to,
                variant: ToConQuery::AnnouncePeer { info_hash: h, port, token: NoSizeBytes::new(token) },
            },
        );
        i += 1;
    }
}

/// Appends a ping to each of `addrs`.
fn push_pings(out: &mut Vec<DhtAction>, addrs: &Vec<Peer>)
    ensures
        final(out)@.len() == old(out)@.len() + addrs@.len(),
        forall|k: int| 0 <= k < old(out)@.len() ==> #[trigger] final(out)@[k] == old(out)@[k],
        forall|k: int| 0 <= k < addrs@.len() ==> final(out)@[old(out)@.len() + k] == ping_query(#[trigger] addrs@[k]),
{
    let ghost start = out@.len();
    let mut i: usize = 0;
    while i < addrs.len()
        invariant
            0 <= i <= addrs@.len(),
            out@.len() == start + i,
            start == old(out)@.len(),
            forall|k: int| 0 <= k < start ==> #[trigger] out@[k] == old(out)@[k],
            forall|k: int| 0 <= k < i ==> out@[start + k] == ping_query(#[trigger] addrs@[k]),
        decreases addrs@.len() - i,
    {
        out.push(DhtAction::Query { to: addrs[i], variant: ToConQuery::Ping });
        i += 1;
    }
}

/// Appends the torrent's peers, when there are any.
fn push_found_peers(out: &mut Vec<DhtAction>, tp: &Peers)
    ensures
        forall|k: int| 0 <= k < old(out)@.len() ==> #[trigger] final(out)@[k] == old(out)@[k],
        forwards(final(out)@, old(out)@.len() as int, *tp),
{
    let addrs = tp.peer_addresses();
    if addrs.len() > 0 {
        out.push(DhtAction::FoundPeers(addrs));
    }
}

/// The query a refresh sends for `id` when a lookup of it finds `found`: a node lookup for
/// `id` sent to the first node found, if any.
pub open spec fn refresh_query(id: ID, found: Option<Nodes>) -> Seq<DhtAction> {
    match found {
        Some(n) => if nodes_seq(n).len() > 0 {
            seq![DhtAction::Query { to: nodes_seq(n)[0].addr, variant: ToConQuery::FindNode { target: id } }]
        } else {
            Seq::empty()
        },
        None => Seq::empty(),
    }
}

/// The queries a refresh sends for the identifiers `ids`, the lookups finding `founds`.
pub open spec fn refresh_queries(ids: Seq<ID>, founds: Seq<Option<Nodes>>) -> Seq<DhtAction>
    decreases ids.len(),
{
    if ids.len() == 0 || founds.len() == 0 {
        Seq::empty()
    } else {
        refresh_queries(ids.drop_last(), founds.drop_last()) + refresh_query(ids.last(), founds.last())
    }
}

/// `ids` are the identifiers drawn for the buckets that could take more nodes, and
/// `founds[k]` is what a lookup of `ids[k]` in the table finds.
pub open spec fn refresh_lookups(t: RoutingTable, ids: Seq<ID>, founds: Seq<Option<Nodes>>) -> bool {
    &&& exists|now: u64| now >= t.latest() && #[trigger] fillable_ids(t, now, ids)
    &&& founds.len() == ids.len()
    &&& forall|k: int| 0 <= k < ids.len() ==> #[trigger] lookup_ok(t, ids[k], founds[k])
}

/// What the node does when it is time to refresh: for each identifier drawn for a bucket
/// that could take more nodes (drawn at random, which buckets can depending on the clock),
/// it asks the first node a lookup of that identifier finds for nodes near it.
pub open spec fn refreshed(s: DhtState, r: Seq<DhtAction>) -> bool {
    exists|ids: Seq<ID>, founds: Seq<Option<Nodes>>| #[trigger] refresh_lookups(s.table, ids, founds)
        && r == refresh_queries(ids, founds)
}

/// What the node does, and becomes, on `event`.
pub open spec fn stepped(before: DhtState, after: DhtState, event: DhtEvent, r: Seq<DhtAction>) -> bool {
    match event {
        DhtEvent::RefreshTick => after == before && refreshed(before, r),
        DhtEvent::FetchTick => after == before && fetched(before, r),
        DhtEvent::Query(q) => match q {
            FromConQuery::FindNode { target, query_id } => after == before && exists|res: Option<ToConResp>|
                #[trigger] node_answered(before.table, target, res) && answered(r, query_id, res),
            FromConQuery::GetPeers { info_hash, query_id } => after == before && exists|res: Option<ToConResp>|
                #[trigger] peers_answered(before.table, before.peer_map, info_hash, res) && answered(r, query_id, res),
            FromConQuery::NewPeer { new_peer, info_hash } => {
                &&& same_but_peers(before, after)
                &&& peers_stored(
                    before.table,
                    info_hash,
                    seq![new_peer],
                    before.torrent_peers,
                    after.torrent_peers,
                    before.peer_map,
                    after.peer_map,
                )
                &&& forwards(r, 0, after.torrent_peers)
            },
        },
        DhtEvent::Response(resp) => match resp {
            FromConResp::Touch { id, from } => {
                &&& touched(before.table, after.table, id)
                &&& after.peer_map == before.peer_map
                &&& after.fetch == before.fetch
                &&& after.torrent_peers == before.torrent_peers
                &&& after.info_hash == before.info_hash
                &&& after.tcp_port == before.tcp_port
                &&& r.len() == 0
            },
            FromConResp::NewNodes { nodes, from, id } => {
                let unknown = unheld_addrs(after.table, nodes_seq(nodes));
                &&& touched(before.table, after.table, id)
                &&& after.peer_map == before.peer_map
                &&& after.torrent_peers == before.torrent_peers
                &&& after.info_hash == before.info_hash
                &&& after.tcp_port == before.tcp_port
                &&& r.len() == unknown.len()
                &&& forall|k: int| 0 <= k < unknown.len() ==> r[k] == ping_query(#[trigger] unknown[k])
                &&& if before.fetch.entries().len() == 0 {
                    &&& after.fetch.spec_info_hash() == before.info_hash
                    &&& after.fetch.entries() == put_unknowns(Seq::empty(), nodes_seq(nodes))
                } else {
                    after.fetch == before.fetch
                }
            },
            FromConResp::GetPeers { from, token, v_or_n } => {
                &&& after.table == before.table
                &&& after.peer_map == before.peer_map
                &&& after.info_hash == before.info_hash
                &&& after.tcp_port == before.tcp_port
                &&& exists|mid: PeerFetch, asked: Seq<Peer>|
                    #[trigger] took_peers_resp(before.fetch, mid, before.torrent_peers, after.torrent_peers, from, token, v_or_n, asked)
                    && (if mid.entries().len() >= ACTIVE_CLOSE_NODES_CAP_HIGH {
                        forgot_far(mid, after.fetch)
                    } else {
                        after.fetch == mid
                    }) && asks_for_peers(r, 0, asked, before.info_hash) && forwards(r, asked.len() as int, after.torrent_peers)
            },
        },
    }
}

/// The answer `res` to the query `query_id`, if any.
fn answer(query_id: QueryId, res: Option<ToConResp>) -> (r: Vec<DhtAction>)
    ensures
        answered(r@, query_id, res),
{
    let mut out: Vec<DhtAction> = Vec::new();
    match res {
        Some(variant) => {
            out.push(DhtAction::Answer { query_id, variant });
            assert(out@ == seq![DhtAction::Answer { query_id, variant }]);
        },
        None => {},
    }
    out
}

fn on_refresh(state: &DhtState) -> (r: Vec<DhtAction>)
    requires
        state.wf(),
    ensures
        refreshed(*state, r@),
{
    let ids = state.table.iter_over_ids_within_fillable_buckets();
    let ghost mut founds: Seq<Option<Nodes>> = Seq::empty();
    let mut out: Vec<DhtAction> = Vec::new();
    let mut i: usize = 0;
    while i < ids.len()
        invariant
            state.wf(),
            0 <= i <= ids@.len(),
            founds.len() == i,
            forall|k: int| 0 <= k < i ==> #[trigger] lookup_ok(state.table, ids@[k], founds[k]),
            out@ == refresh_queries(ids@.take(i as int), founds),
        decreases ids@.len() - i,
    {
        let id = ids[i];
        let found = state.table.find_node(&id);
        let ghost before = out@;
        match &found {
            Some(nodes) => {
                let list = nodes.iter();
                if list.len() > 0 {
                    out.push(DhtAction::Query { to: list[0].addr, variant: ToConQuery::FindNode { target: id } });
                }
            },
            None => {},
        }
        proof {
            let f2 = founds.push(found);
            assert(ids@.take(i + 1).drop_last() == ids@.take(i as int));
            assert(f2.drop_last() == founds);
            assert(ids@.take(i + 1).last() == id);
            assert(out@ == before + refresh_query(id, found));
            assert(lookup_ok(state.table, id, found));
            founds = f2;
        }
        i += 1;
    }
    proof {
        assert(ids@.take(i as int) == ids@);
        assert(refresh_lookups(state.table, ids@, founds));
    }
    out
}

fn on_fetch(state: &DhtState) -> (r: Vec<DhtAction>)
    requires
        state.wf(),
    ensures
        fetched(*state, r@),
{
    let mut out: Vec<DhtAction> = Vec::new();
    let targets = state.fetch.targets();
    let first = if targets.len() == 0 {
        fetch_peers_targets(&state.table, &state.info_hash)
    } else {
        Vec::new()
    };
    assert(first_asked(*state, first@));
    push_get_peers(&mut out, &first, state.info_hash);
    let ghost after_first = out@;
    push_get_peers(&mut out, &targets, state.info_hash);
    let ghost asked = first@ + targets@;
    assert(asks_for_peers(out@, 0, asked, state.info_hash)) by {
        assert forall|k: int| 0 <= k < asked.len() implies out@[0 + k] == get_peers_query(#[trigger] asked[k], state.info_hash) by {
            if k < first@.len() {
                assert(after_first[k] == get_peers_query(first@[k], state.info_hash));
                assert(out@[k] == after_first[k]);
            } else {
                assert(asked[k] == targets@[k - first@.len()]);
            }
        }
    }
    let ann = state.fetch.announce_targets();
    let ghost before_ann = out@;
    let ghost ann_v = ann@;
    push_announces(&mut out, ann, state.info_hash, state.tcp_port);
    proof {
        let e = state.fetch.entries();
        let ord = choose|ord: Seq<usize>| #[trigger] is_fetch_order(e, ord, state.fetch.spec_info_hash())
            && crate::peer_fetcher::targets_view(ann_v) == first_up_to(tokens_in_order(e, ord), ANNOUNCE_TO_N_TOP_NODES as int);
        let a2 = first_up_to(tokens_in_order(e, ord), ANNOUNCE_TO_N_TOP_NODES as int);
        assert(crate::peer_fetcher::targets_view(ann_v).len() == ann_v.len());
        assert forall|k: int| 0 <= k < a2.len() implies announces(out@[asked.len() + k], #[trigger] a2[k], state.info_hash, state.tcp_port) by {
            assert(crate::peer_fetcher::targets_view(ann_v)[k] == (ann_v[k].0, ann_v[k].1@));
        }
        assert(asks_for_peers(out@, 0, asked, state.info_hash)) by {
            assert forall|k: int| 0 <= k < asked.len() implies out@[0 + k] == get_peers_query(#[trigger] asked[k], state.info_hash) by {
                assert(out@[k] == before_ann[k]);
            }
        }
        assert(addrs_of(e) == targets@);
    }
    out
}

/// Decides what the node does on `event`, and updates its state.
pub fn dht_step(state: &mut DhtState, event: DhtEvent) -> (r: Vec<DhtAction>)
    requires
        old(state).wf(),
    ensures
        final(state).wf(),
        stepped(*old(state), *final(state), event, r@),
{
    match event {
        DhtEvent::RefreshTick => on_refresh(state),
        DhtEvent::FetchTick => on_fetch(state),
        DhtEvent::Query(q) => match q {
            FromConQuery::FindNode { target, query_id } => {
                let res = find_node(&state.table, &target);
                assert(node_answered(state.table, target, res));
                answer(query_id, res)
            },
            FromConQuery::GetPeers { info_hash, query_id } => {
                let res = get_peers(&state.table, &state.peer_map, &info_hash);
                assert(peers_answered(state.table, state.peer_map, info_hash, res));
                answer(query_id, res)
            },
            FromConQuery::NewPeer { new_peer, info_hash } => {
                let new_peers = vec![new_peer];
                assert(new_peers@ == seq![new_peer]);
                store_new_peers(new_peers, info_hash, &state.table, &mut state.torrent_peers, &mut state.peer_map);
                let mut out: Vec<DhtAction> = Vec::new();
                push_found_peers(&mut out, &state.torrent_peers);
                out
            },
        },
        DhtEvent::Response(resp) => match resp {
            FromConResp::Touch { id, from } => {
                state.table.touch_node(id, from);
                Vec::new()
            },
            FromConResp::NewNodes { nodes, from, id } => {
                state.table.touch_node(id, from);
                let unknown = ping_unknown_nodes(&nodes, &state.table);
                let mut out: Vec<DhtAction> = Vec::new();
                push_pings(&mut out, &unknown);
                if state.fetch.targets().len() == 0 {
                    state.fetch = PeerFetch::new(state.info_hash, nodes.iter());
                }
                out
            },
            FromConResp::GetPeers { from, token, v_or_n } => {
                let ghost f0 = state.fetch;
                let asked = state.fetch.on_get_peers_resp(from, token, v_or_n, &mut state.torrent_peers);
                let ghost mid = state.fetch;
                let mut out: Vec<DhtAction> = Vec::new();
                push_get_peers(&mut out, &asked, state.info_hash);
                if state.fetch.crowded() {
                    state.fetch.forget_far_nodes();
                }
                let ghost before_fwd = out@;
                push_found_peers(&mut out, &state.torrent_peers);
                proof {
                    assert(asks_for_peers(out@, 0, asked@, state.info_hash)) by {
                        assert forall|k: int| 0 <= k < asked@.len() implies out@[0 + k] == get_peers_query(#[trigger] asked@[k], state.info_hash) by {
                            assert(out@[k] == before_fwd[k]);
                        }
                    }
                    assert(took_peers_resp(f0, mid, old(state).torrent_peers, state.torrent_peers, from, token, v_or_n, asked@));
                }
                out
            },
        },
    }
}

} // verus!
