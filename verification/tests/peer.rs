use nargun::id::ID;
use nargun::peer::{socketaddr_from_compact_bytes, CompactLenError, Peer, Peers, Status};

fn addr_string(p: &Peer) -> String {
    let (o, port) = p.addr();
    format!("{}.{}.{}.{}:{}", o[0], o[1], o[2], o[3], port)
}

#[test]
fn peer_peer_from_compact() {
    let data = "yhf5aa".as_bytes();
    let result = Peer::from_compact_bytes(data);
    assert!(result.is_ok());
    assert_eq!(addr_string(&result.unwrap()), "121.104.102.53:24929");

    let long_data = "yhf5aa++".as_bytes();
    let result = Peer::from_compact_bytes(long_data);
    assert!(result.is_err());

    let short_data = "yhf".as_bytes();
    let result = Peer::from_compact_bytes(short_data);
    assert!(result.is_err());

    let short_data = "yhf".as_bytes();
    let result = socketaddr_from_compact_bytes(short_data);
    assert!(result.is_err());
}

#[test]
fn peer_peers() {
    let info_hash = ID::new(rand::random());
    let mut peers = Peers::new(&info_hash);

    assert!(peers.serve(&info_hash));
    let mut other = info_hash;
    other.flip_bit(0);
    assert!(!peers.serve(&other));

    let new_peers: [Peer; 3] = [
        Peer::new([127, 0, 0, 1], 52),
        Peer::new([127, 0, 0, 1], 53),
        Peer::new([127, 0, 0, 1], 54),
    ];

    peers.extend(&new_peers);

    assert_eq!(Some(Status::Unknown), peers.status_of(&new_peers[0]));
    assert_eq!(Some(Status::Unknown), peers.status_of(&new_peers[1]));
    assert_eq!(Some(Status::Unknown), peers.status_of(&new_peers[2]));

    let unknown_peers = peers.return_batch_of_bad_peers_and_get_new_batch(&Vec::new(), 2);

    assert_eq!(2, unknown_peers.len());
    assert_eq!(Some(Status::Active), peers.status_of(&unknown_peers[0]));
    assert_eq!(Some(Status::Active), peers.status_of(&unknown_peers[1]));

    let return_peers = vec![(unknown_peers[0], Status::UnableToConnect)];

    let unknown_peers_2 = peers.return_batch_of_bad_peers_and_get_new_batch(&return_peers, 100);

    assert_eq!(2, unknown_peers_2.len());
    assert_eq!(Some(Status::Active), peers.status_of(&unknown_peers_2[0]));
    assert_eq!(Some(Status::Active), peers.status_of(&unknown_peers_2[1]));

    assert_ne!(return_peers[0].0, unknown_peers_2[0]);
    assert_eq!(return_peers[0].0, unknown_peers_2[1]);

    assert_eq!(3, peers.peer_addresses().len());
}

#[test]
fn compact_roundtrip_and_errors() {
    let p = Peer::new([10, 0, 200, 7], 6881);
    let bytes = p.to_compact_bytes();
    assert_eq!(bytes, vec![10, 0, 200, 7, 0x1a, 0xe1]);
    assert_eq!(Peer::from_compact_bytes(&bytes), Ok(p));
    assert_eq!(p.octets(), [10, 0, 200, 7]);
    assert_eq!(p.port(), 6881);
    assert_eq!(
        Peer::from_compact_bytes(&bytes[..5]),
        Err(CompactLenError { found: 5, expected: 6 })
    );
}

#[test]
fn batch_prefers_unknown_then_no_useful_pieces() {
    let mut peers = Peers::new(&ID::new([0; 20]));
    let a = Peer::new([1, 1, 1, 1], 1);
    let b = Peer::new([2, 2, 2, 2], 2);
    let c = Peer::new([3, 3, 3, 3], 3);
    peers.extend(&[a, b]);
    let got = peers.return_batch_of_bad_peers_and_get_new_batch(&Vec::new(), 10);
    assert_eq!(got, vec![a, b]);
    let back = vec![(a, Status::ChokedForTooLong), (b, Status::NoUsefulPieces), (c, Status::UnableToConnect)];
    let got = peers.return_batch_of_bad_peers_and_get_new_batch(&back, 10);
    assert_eq!(got, vec![b, a, c]);
    let got = peers.return_batch_of_bad_peers_and_get_new_batch(&Vec::new(), 10);
    assert!(got.is_empty());
}
