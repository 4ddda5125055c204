use nargun::id::ID;
use nargun::peer::{Peer, Peers, Status};
use nargun::peer_message::{Message, NoSizeBytes};
use nargun::torrent_state::{ConMessageType, ConnectionMessage, TorrentManager, UnhandledMessage};

fn manager(pieces: usize, known: &[Peer]) -> TorrentManager {
    let mut peers = Peers::new(&ID::new([1; 20]));
    peers.extend(known);
    let hashes: Vec<ID> = (0..pieces).map(|i| ID::new([i as u8; 20])).collect();
    TorrentManager::new(ID::new([9; 20]), hashes, peers)
}

fn report(peer: Peer, message: ConMessageType) -> ConnectionMessage {
    ConnectionMessage { peer, message }
}

#[test]
fn report_from_wire_message() {
    assert!(matches!(ConMessageType::from_message(Message::Have(3)), Ok(ConMessageType::Have(3))));
    assert!(matches!(ConMessageType::from_message(Message::Choke), Ok(ConMessageType::Choke)));
    assert_eq!(ConMessageType::from_message(Message::Port(1)).err(), Some(UnhandledMessage));
}

#[test]
fn refresh_then_select_a_piece() {
    let a = Peer::new([10, 0, 0, 1], 1);
    let b = Peer::new([10, 0, 0, 2], 2);
    let mut m = manager(12, &[a, b]);
    let connected = m.refresh_peer_list();
    assert_eq!(connected, vec![a, b]);
    assert!(m.select_piece().is_none());

    // b has pieces 8 and 9 (bitfield 0000_0000 1100_0000) but chokes
    m.handle_command_tmp(report(b, ConMessageType::Bitfield(NoSizeBytes::new(vec![0, 0b1100_0000]))));
    assert_eq!(m.iter_over_remaining_downloadable_pieces(), vec![(8, 1, 0), (9, 1, 0)]);
    assert!(m.select_piece().is_none());

    m.handle_command_tmp(report(b, ConMessageType::Unchoke));
    let (peer, idx, hash) = m.select_piece().unwrap();
    assert_eq!((peer, idx), (b, 8));
    assert_eq!(hash, ID::new([8; 20]));

    // a has piece 8 too
    m.handle_command_tmp(report(a, ConMessageType::Have(8)));
    m.handle_command_tmp(report(a, ConMessageType::Have(8)));
    assert_eq!(m.iter_over_remaining_downloadable_pieces(), vec![(8, 2, 0), (9, 1, 0)]);

    assert_eq!(m.pieces_to_start(), 9);
    m.mark_piece_as_ongoing(b, 8);
    assert_eq!(m.ongoing_count(), 1);
    assert_eq!(m.pieces_to_start(), 8);
    // b now works on one piece; a still chokes, so nobody fits at zero load and b fits at one
    assert_eq!(m.find_peer_with_piece(8, 0), None);
    assert_eq!(m.find_peer_with_piece(8, 1), Some(b));
    assert_eq!(m.sequential_select_piece(), Some((b, 8)));
}

#[test]
fn dropped_peer_stops_counting() {
    let a = Peer::new([10, 0, 0, 1], 1);
    let mut m = manager(3, &[a]);
    m.refresh_peer_list();
    m.handle_command_tmp(report(a, ConMessageType::Have(1)));
    assert_eq!(m.iter_over_remaining_downloadable_pieces(), vec![(1, 1, 0)]);
    // a second bitfield is ignored once something is claimed
    m.handle_command_tmp(report(a, ConMessageType::Bitfield(NoSizeBytes::new(vec![0b1110_0000]))));
    assert_eq!(m.iter_over_remaining_downloadable_pieces(), vec![(1, 1, 0)]);
    m.handle_command_tmp(report(a, ConMessageType::KeepAlive));
    m.handle_command_tmp(report(a, ConMessageType::Interested));
    m.handle_command_tmp(report(a, ConMessageType::Unreachable));
    assert!(m.iter_over_remaining_downloadable_pieces().is_empty());
    // the dropped peer goes back with its reason; the next refresh takes it again
    let again = m.refresh_peer_list();
    assert_eq!(again, vec![a]);
    let _ = Status::Active;
}

#[test]
fn full_table_takes_no_one() {
    let known: Vec<Peer> = (0..12u8).map(|i| Peer::new([10, 0, 1, i], 7)).collect();
    let mut m = manager(1, &known);
    assert_eq!(m.refresh_peer_list().len(), 10);
    assert!(m.refresh_peer_list().is_empty());
    m.mark_peer_as_inactive(known[0], Status::NoUsefulPieces);
    let next = m.refresh_peer_list();
    assert_eq!(next, vec![known[10]]);
}

#[test]
fn found_peers_are_learned_and_active_ones_stay() {
    let a = Peer::new([10, 0, 0, 1], 1);
    let b = Peer::new([10, 0, 0, 2], 2);
    let mut m = manager(12, &[a]);
    assert_eq!(m.refresh_peer_list(), vec![a]);
    m.learn_peers(&[a, b]);
    // a stays active and is not handed out again; b is new.
    assert_eq!(m.refresh_peer_list(), vec![b]);
}

#[test]
fn reports_it_takes_and_refuses() {
    let a = Peer::new([10, 0, 0, 1], 1);
    let mut m = manager(12, &[a]);
    m.refresh_peer_list();
    let request = nargun::peer_message::Request { index: 1, begin: 0, length: 16384 };
    // requests and cancels are taken and change nothing
    assert!(m.handles(&report(a, ConMessageType::Request(request))));
    assert!(m.handles(&report(a, ConMessageType::Cancel(request))));
    m.handle_command_tmp(report(a, ConMessageType::Request(request)));
    m.handle_command_tmp(report(a, ConMessageType::Cancel(request)));
    assert!(m.handles(&report(a, ConMessageType::Choke)));
    assert!(m.handles(&report(a, ConMessageType::Have(11))));
    // pieces 12 .. 15 share the last byte; 16 is past it
    assert!(!m.handles(&report(a, ConMessageType::Have(12))));
    assert!(!m.handles(&report(a, ConMessageType::Have(16))));
    // a peer that is not active: nothing to record
    assert!(m.handles(&report(Peer::new([1, 1, 1, 1], 1), ConMessageType::Have(100))));
}
