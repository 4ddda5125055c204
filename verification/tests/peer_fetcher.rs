use nargun::id::{ID, ID_LEN};
use nargun::krpc::ValuesOrNodes;
use nargun::peer::{Peer, Peers};
use nargun::peer_fetcher::{
    NodeCloseToInfoHash, PeerFetch, ACTIVE_CLOSE_NODES_CAP_HIGH, ACTIVE_CLOSE_NODES_CAP_LOW, ANNOUNCE_TO_N_TOP_NODES,
};
use nargun::peer_message::NoSizeBytes;
use nargun::routing_table::{Node, Nodes};
use std::cmp::Ordering;

fn id_with(first: u8, second: u8) -> ID {
    let mut arr = [0u8; ID_LEN];
    arr[0] = first;
    arr[1] = second;
    ID::new(arr)
}

fn addr(n: u8) -> Peer {
    Peer::new([10, 0, 0, n], 6881)
}

fn node(first: u8, n: u8) -> Node {
    Node { id: id_with(first, 0), addr: addr(n), last_seen: None }
}

fn token(t: &[u8]) -> NoSizeBytes {
    NoSizeBytes::new(t.to_vec())
}

#[test]
fn fetch_constants() {
    assert_eq!(ANNOUNCE_TO_N_TOP_NODES, 16);
    assert_eq!(ACTIVE_CLOSE_NODES_CAP_LOW, 128);
    assert_eq!(ACTIVE_CLOSE_NODES_CAP_HIGH, 512);
}

#[test]
fn kinds_order() {
    let has = NodeCloseToInfoHash::HasPeers { id: id_with(1, 0), token: token(b"a") };
    let less = NodeCloseToInfoHash::Peerless { id: id_with(1, 0), token: token(b"a") };
    let unknown = NodeCloseToInfoHash::Unknown(id_with(1, 0));
    assert_eq!(has.cmp_discriminant(&less), Ordering::Less);
    assert_eq!(unknown.cmp_discriminant(&has), Ordering::Greater);
    assert_eq!(less.cmp_discriminant(&less), Ordering::Equal);
    assert_eq!(unknown.id(), id_with(1, 0));
    assert!(unknown.token().is_none());
    assert_eq!(has.token().unwrap().as_bytes(), b"a".to_vec());
}

#[test]
fn starts_with_each_address_once() {
    let fetch = PeerFetch::new(id_with(0, 0), vec![node(1, 1), node(2, 2), node(3, 1)]);
    assert_eq!(fetch.targets(), vec![addr(1), addr(2)]);
    assert!(!fetch.crowded());
}

#[test]
fn answers_with_peers_and_with_nodes() {
    let info_hash = id_with(0, 0);
    let mut fetch = PeerFetch::new(info_hash, vec![node(1, 1), node(2, 2)]);
    let mut peers = Peers::new(&info_hash);

    // From a node not followed: ignored.
    let asked = fetch.on_get_peers_resp(
        addr(9),
        token(b"x"),
        ValuesOrNodes::Values { values: vec![Peer::new([1, 1, 1, 1], 1)] },
        &mut peers,
    );
    assert!(asked.is_empty());
    assert!(peers.peer_addresses().is_empty());

    let asked = fetch.on_get_peers_resp(
        addr(1),
        token(b"t1"),
        ValuesOrNodes::Values { values: vec![Peer::new([1, 1, 1, 1], 1)] },
        &mut peers,
    );
    assert!(asked.is_empty());
    assert_eq!(peers.peer_addresses(), vec![Peer::new([1, 1, 1, 1], 1)]);

    let asked = fetch.on_get_peers_resp(
        addr(2),
        token(b"t2"),
        ValuesOrNodes::Nodes { nodes: Nodes::Closest(vec![node(4, 4), node(1, 1), node(5, 4)]) },
        &mut peers,
    );
    assert_eq!(asked, vec![addr(4)]);
    assert_eq!(fetch.targets(), vec![addr(1), addr(2), addr(4)]);

    // Nodes that gave peers are told first, then those that gave nodes; silent ones never.
    assert_eq!(fetch.announce_targets(), vec![(addr(1), b"t1".to_vec()), (addr(2), b"t2".to_vec())]);
}

#[test]
fn far_nodes_are_forgotten() {
    let info_hash = id_with(0, 0);
    let nodes: Vec<Node> = (0..600u32)
        .map(|i| Node { id: id_with((i / 256) as u8 + 1, (i % 256) as u8), addr: Peer::new([10, 1, (i / 256) as u8, (i % 256) as u8], 1), last_seen: None })
        .collect();
    let mut fetch = PeerFetch::new(info_hash, nodes);
    assert!(fetch.crowded());
    let mut peers = Peers::new(&info_hash);
    // The farthest node answers with peers, so it is kept first.
    let far = Peer::new([10, 1, 2, 87], 1);
    fetch.on_get_peers_resp(far, token(b"far"), ValuesOrNodes::Values { values: vec![] }, &mut peers);
    fetch.forget_far_nodes();
    let kept = fetch.targets();
    assert_eq!(kept.len(), ACTIVE_CLOSE_NODES_CAP_LOW);
    assert_eq!(kept[0], far);
    assert_eq!(kept[1], Peer::new([10, 1, 0, 0], 1));
    assert_eq!(kept[127], Peer::new([10, 1, 0, 126], 1));
    assert_eq!(fetch.announce_targets(), vec![(far, b"far".to_vec())]);
}

#[test]
fn at_most_sixteen_are_told() {
    let info_hash = id_with(0, 0);
    let nodes: Vec<Node> = (1..30u8).map(|i| node(i, i)).collect();
    let mut fetch = PeerFetch::new(info_hash, nodes);
    let mut peers = Peers::new(&info_hash);
    for i in (1..30u8).rev() {
        fetch.on_get_peers_resp(addr(i), token(&[i]), ValuesOrNodes::Values { values: vec![] }, &mut peers);
    }
    let told = fetch.announce_targets();
    assert_eq!(told.len(), 16);
    assert_eq!(told[0], (addr(1), vec![1]));
    assert_eq!(told[15], (addr(16), vec![16]));
}
