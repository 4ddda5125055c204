use nargun::dht_node::{
    fetch_peers_targets, find_node, get_peers, get_peers_answer, ping_unknown_nodes, store_new_peers, PeerMap,
    FETCH_PEER_PARALLEL, MAX_PEERS_IN_ANSWER,
};
use nargun::id::{ID, ID_LEN};
use nargun::krpc::{ToConResp, ValuesOrNodes};
use nargun::peer::{Peer, Peers};
use nargun::routing_table::{Node, Nodes, RoutingTable};

fn id_with_first(first: u8) -> ID {
    let mut arr = [0u8; ID_LEN];
    arr[0] = first;
    ID::new(arr)
}

fn peer(n: u8) -> Peer {
    Peer::new([10, 0, 0, n], 6881)
}

#[test]
fn answer_size_fits_the_mtu() {
    assert_eq!(MAX_PEERS_IN_ANSWER, 216);
    assert_eq!(FETCH_PEER_PARALLEL, 3);
}

#[test]
fn peer_map_keeps_each_peer_once() {
    let hash = id_with_first(1);
    let mut map = PeerMap::with_known(hash, &[peer(1), peer(2), peer(1)]);
    let mut stored = map.stored(&hash).unwrap();
    stored.sort_by_key(|p| p.octets());
    assert_eq!(stored, vec![peer(1), peer(2)]);
    assert!(map.stored(&id_with_first(2)).is_none());

    map.insert_peers(hash, &[peer(2), peer(3)]);
    let mut stored = map.stored(&hash).unwrap();
    stored.sort_by_key(|p| p.octets());
    assert_eq!(stored, vec![peer(1), peer(2), peer(3)]);

    map.insert_peers(id_with_first(2), &[peer(4)]);
    assert_eq!(map.stored(&id_with_first(2)).unwrap(), vec![peer(4)]);
}

#[test]
fn get_peers_answers_with_stored_values() {
    let rt = RoutingTable::with_own_id(id_with_first(0));
    let hash = id_with_first(1);
    let map = PeerMap::with_known(hash, &[peer(1), peer(2)]);
    match get_peers_answer(&rt, &map, &hash) {
        Some(ValuesOrNodes::Values { mut values }) => {
            values.sort_by_key(|p| p.octets());
            assert_eq!(values, vec![peer(1), peer(2)]);
        },
        other => panic!("unexpected {:?}", other),
    }
    match get_peers(&rt, &map, &hash) {
        Some(ToConResp::GetPeers { values_or_nodes: ValuesOrNodes::Values { values } }) => assert_eq!(values.len(), 2),
        other => panic!("unexpected {:?}", other),
    }
}

#[test]
fn get_peers_answer_is_capped() {
    let rt = RoutingTable::with_own_id(id_with_first(0));
    let hash = id_with_first(1);
    let many: Vec<Peer> = (0..300u16).map(|i| Peer::new([10, 1, (i / 256) as u8, (i % 256) as u8], 1)).collect();
    let map = PeerMap::with_known(hash, &many);
    match get_peers_answer(&rt, &map, &hash) {
        Some(ValuesOrNodes::Values { values }) => assert_eq!(values.len(), MAX_PEERS_IN_ANSWER),
        other => panic!("unexpected {:?}", other),
    }
}

#[test]
fn unknown_hash_is_answered_with_nodes() {
    let mut rt = RoutingTable::with_own_id(id_with_first(0));
    let map = PeerMap::with_known(id_with_first(1), &[peer(1)]);
    assert!(get_peers_answer(&rt, &map, &id_with_first(9)).is_none());
    rt.insert_new_good(id_with_first(200), peer(7));
    match get_peers_answer(&rt, &map, &id_with_first(9)) {
        Some(ValuesOrNodes::Nodes { nodes: Nodes::Closest(list) }) => {
            assert_eq!(list.len(), 1);
            assert_eq!(list[0].id, id_with_first(200));
        },
        other => panic!("unexpected {:?}", other),
    }
}

#[test]
fn find_node_finds_exact() {
    let mut rt = RoutingTable::with_own_id(id_with_first(0));
    assert!(find_node(&rt, &id_with_first(5)).is_none());
    rt.insert_new_good(id_with_first(5), peer(5));
    match find_node(&rt, &id_with_first(5)) {
        Some(ToConResp::FindNode { nodes: Nodes::Exact(n) }) => assert_eq!(n.addr, peer(5)),
        other => panic!("unexpected {:?}", other),
    }
}

#[test]
fn only_unknown_nodes_are_pinged() {
    let mut rt = RoutingTable::with_own_id(id_with_first(0));
    rt.insert_new_good(id_with_first(5), peer(5));
    let nodes = Nodes::Closest(vec![Node::new_good(id_with_first(5), peer(5)), Node::new_good(id_with_first(6), peer(6))]);
    // The table holds the first node; only the second is unknown.
    let pinged = ping_unknown_nodes(&nodes, &rt);
    assert_eq!(pinged, vec![peer(6)]);
    let empty = RoutingTable::with_own_id(id_with_first(0));
    assert_eq!(ping_unknown_nodes(&nodes, &empty), vec![peer(5), peer(6)]);
}

#[test]
fn fetch_targets_are_at_most_three() {
    let mut rt = RoutingTable::with_own_id(id_with_first(0));
    for i in 1..6u8 {
        rt.insert_new_good(id_with_first(i * 16), peer(i));
    }
    let targets = fetch_peers_targets(&rt, &id_with_first(77));
    assert_eq!(targets.len(), 3);
}

#[test]
fn new_peers_reach_the_torrent_only_for_own_hash() {
    let own = id_with_first(0);
    let rt = RoutingTable::with_own_id(own);
    let mut torrent_peers = Peers::new(&own);
    let mut map = PeerMap::with_known(id_with_first(3), &[]);
    store_new_peers(vec![peer(1), peer(2)], own, &rt, &mut torrent_peers, &mut map);
    assert_eq!(torrent_peers.peer_addresses().len(), 2);
    assert_eq!(map.stored(&own).unwrap().len(), 2);

    store_new_peers(vec![peer(3)], id_with_first(4), &rt, &mut torrent_peers, &mut map);
    assert_eq!(torrent_peers.peer_addresses().len(), 2);
    assert_eq!(map.stored(&id_with_first(4)).unwrap(), vec![peer(3)]);
}
