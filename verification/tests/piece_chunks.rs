use nargun::peer_message::{NoSizeBytes, Piece};
use nargun::piece_chunks::{ChunkNotSaved, Chunks, NotDownloading, PendingPieces, CHUNK_SIZE};

fn piece(index: u32, begin: u32, len: usize) -> Piece {
    Piece { index, begin, block: NoSizeBytes::new(vec![7u8; len]) }
}

#[test]
fn chunks_hand_out_unbegun_round_from_random_start() {
    let mut c = Chunks::new(5);
    assert_eq!(c.len(), 5);
    assert_eq!(c.get_unbegun(0), None);
    let got = c.get_unbegun(3).unwrap();
    assert_eq!(got.len(), 3);
    // indices go round: consecutive modulo the chunk count
    for w in got.windows(2) {
        assert_eq!((w[0] + 1) % 5, w[1]);
    }
    c.set_pending(1);
    c.set_pending(3);
    assert!(c.is_pending(1));
    assert_eq!(c.count_pending(), 2);
    let got = c.get_unbegun(10).unwrap();
    let mut sorted = got.clone();
    sorted.sort();
    assert_eq!(sorted, vec![0, 2, 4]);
    c.set_downloaded(0, vec![1, 2, 3]);
    assert_eq!(c.remaining(), 4);
    c.cancel_pending();
    assert_eq!(c.count_pending(), 0);
    assert_eq!(c.remaining(), 4);
    for i in [1, 2, 3, 4] {
        c.set_downloaded(i, vec![]);
    }
    assert_eq!(c.get_unbegun(1), None);
    assert_eq!(c.remaining(), 0);
}

#[test]
fn pending_pieces_store_and_remove() {
    let mut p: PendingPieces<&str> = PendingPieces::new();
    p.add_piece(4, 2 * CHUNK_SIZE + 1, "four");
    assert_eq!(p.count_pending(), 0);
    assert_eq!(p.chunk_requested(9, 0), Err(NotDownloading { piece_idx: 9 }));
    assert_eq!(p.chunk_requested(4, 2), Ok(()));
    assert_eq!(p.count_pending(), 1);
    // not requested: refused
    assert_eq!(
        p.store_chunk_get_remaining(&piece(4, 0, 16384)),
        Err(ChunkNotSaved { index: 4, begin: 0 })
    );
    // not on a chunk boundary: refused
    assert_eq!(
        p.store_chunk_get_remaining(&piece(4, 5, 16384)),
        Err(ChunkNotSaved { index: 4, begin: 5 })
    );
    assert_eq!(p.store_chunk_get_remaining(&piece(4, 2 * CHUNK_SIZE, 1)), Ok(2));
    assert_eq!(p.count_pending(), 0);
    assert_eq!(p.remove(7), None);
    assert_eq!(p.remove(4), Some("four"));
    assert_eq!(p.remove(4), None);
}

#[test]
fn pending_pieces_pick_round_the_pieces() {
    let mut p: PendingPieces<u8> = PendingPieces::new();
    assert_eq!(p.get_random_unbeguns(2), None);
    p.add_piece(1, CHUNK_SIZE, 1);
    p.add_piece(2, 3 * CHUNK_SIZE, 2);
    let first = p.get_random_unbeguns(5).unwrap();
    assert_eq!(first, vec![(1, 0)]);
    let second = p.get_random_unbeguns(5).unwrap();
    assert_eq!(second.len(), 3);
    assert!(second.iter().all(|(piece, _)| *piece == 2));
    p.chunk_requested(1, 0).unwrap();
    // piece 1 has nothing unbegun: the cursor moves on to piece 2
    let third = p.get_random_unbeguns(1).unwrap();
    assert_eq!(third.len(), 1);
    assert_eq!(third[0].0, 2);
    assert_eq!(p.get_random_unbeguns(0), None);
    p.cancel_pending();
    assert_eq!(p.count_pending(), 0);
}

#[test]
fn pending_pieces_re_added_piece_starts_over() {
    let mut p: PendingPieces<u8> = PendingPieces::new();
    p.add_piece(3, CHUNK_SIZE, 1);
    p.chunk_requested(3, 0).unwrap();
    p.add_piece(3, CHUNK_SIZE, 2);
    assert_eq!(p.count_pending(), 0);
    assert_eq!(p.remove(3), Some(2));
    // listed twice: the second listing stays, with no chunks behind it
    assert_eq!(p.remove(3), None);
    assert_eq!(p.get_random_unbeguns(1), None);
}
