use nargun::dht_connection::{FromConQuery, FromConResp, QueryId};
use nargun::dht_driver::{dht_step, DhtAction, DhtEvent, DhtState};
use nargun::id::{ID, ID_LEN};
use nargun::krpc::{ToConQuery, ToConResp, ValuesOrNodes};
use nargun::peer::Peer;
use nargun::peer_message::NoSizeBytes;
use nargun::routing_table::{Node, Nodes, RoutingTable};

fn id_with_first(first: u8) -> ID {
    let mut arr = [0u8; ID_LEN];
    arr[0] = first;
    ID::new(arr)
}

fn peer(n: u8) -> Peer {
    Peer::new([10, 0, 0, n], 6881)
}

fn state_with(nodes: &[u8], hash: ID) -> DhtState {
    let mut table = RoutingTable::with_own_id(id_with_first(0));
    for n in nodes {
        table.insert_new_good(id_with_first(*n), peer(*n));
    }
    DhtState::new(table, hash, 7000)
}

fn get_peers_targets(actions: &[DhtAction]) -> Vec<Peer> {
    actions
        .iter()
        .filter_map(|a| match a {
            DhtAction::Query { to, variant: ToConQuery::GetPeers { .. } } => Some(*to),
            _ => None,
        })
        .collect()
}

#[test]
fn fetch_with_no_lookup_asks_the_nearest_nodes() {
    let hash = id_with_first(40);
    let mut s = state_with(&[16, 32, 48, 64, 80], hash);
    let actions = dht_step(&mut s, DhtEvent::FetchTick);
    assert_eq!(actions.len(), 3);
    assert_eq!(get_peers_targets(&actions).len(), 3);
}

#[test]
fn fetch_on_an_empty_table_does_nothing() {
    let mut s = state_with(&[], id_with_first(40));
    assert!(dht_step(&mut s, DhtEvent::FetchTick).is_empty());
}

#[test]
fn find_node_query_is_answered() {
    let mut s = state_with(&[5], id_with_first(40));
    let query_id = QueryId { target: peer(9), transaction_id: NoSizeBytes::new(vec![1, 2]) };
    let actions = dht_step(&mut s, DhtEvent::Query(FromConQuery::FindNode { target: id_with_first(5), query_id }));
    assert_eq!(actions.len(), 1);
    match &actions[0] {
        DhtAction::Answer { query_id, variant: ToConResp::FindNode { nodes: Nodes::Exact(n) } } => {
            assert_eq!(query_id.target, peer(9));
            assert_eq!(n.addr, peer(5));
        }
        other => panic!("unexpected {:?}", other),
    }
}

#[test]
fn new_nodes_are_pinged_and_start_a_lookup() {
    let mut s = state_with(&[5], id_with_first(40));
    let nodes = Nodes::Closest(vec![Node::new_good(id_with_first(5), peer(5)), Node::new_good(id_with_first(6), peer(6))]);
    let actions = dht_step(&mut s, DhtEvent::Response(FromConResp::NewNodes { nodes, from: peer(5), id: id_with_first(5) }));
    assert_eq!(actions.len(), 1);
    assert!(matches!(actions[0], DhtAction::Query { to, variant: ToConQuery::Ping } if to == peer(6)));
    let mut targets = s.fetch.targets();
    targets.sort_by_key(|p| p.octets());
    assert_eq!(targets, vec![peer(5), peer(6)]);
}

#[test]
fn peers_from_a_lookup_reach_the_torrent() {
    let hash = id_with_first(40);
    let mut s = state_with(&[5], hash);
    let nodes = Nodes::Closest(vec![Node::new_good(id_with_first(5), peer(5))]);
    dht_step(&mut s, DhtEvent::Response(FromConResp::NewNodes { nodes, from: peer(5), id: id_with_first(5) }));
    let values = ValuesOrNodes::Values { values: vec![peer(20), peer(21)] };
    let token = NoSizeBytes::new(vec![7, 7]);
    let actions = dht_step(&mut s, DhtEvent::Response(FromConResp::GetPeers { from: peer(5), token, v_or_n: values }));
    assert_eq!(actions.len(), 1);
    match &actions[0] {
        DhtAction::FoundPeers(found) => assert_eq!(found, &vec![peer(20), peer(21)]),
        other => panic!("unexpected {:?}", other),
    }
    // the node that answered with peers is announced to on the next fetch
    let actions = dht_step(&mut s, DhtEvent::FetchTick);
    assert!(actions.iter().any(|a| matches!(a,
        DhtAction::Query { to, variant: ToConQuery::AnnouncePeer { port: 7000, token, .. } } if *to == peer(5) && token.0 == vec![7, 7])));
}

#[test]
fn refresh_asks_one_node_per_drawn_id() {
    let mut s = state_with(&[5], id_with_first(40));
    let actions = dht_step(&mut s, DhtEvent::RefreshTick);
    assert!(!actions.is_empty());
    for a in &actions {
        assert!(matches!(a, DhtAction::Query { to, variant: ToConQuery::FindNode { .. } } if *to == peer(5)));
    }
}
