use nargun::id::ID;
use nargun::peer::Peer;
use nargun::pending_pieces::{BlockAddress, BlockStatus, PeerManagerCommand, PendingPieces};
use nargun::piece_downloader::{BlockRefused, PieceDownloader, ACTIVE_BLOCKS_PER_PEER, CLAIM_EVERY_ROUNDS};

fn owner() -> Peer {
    Peer::new([10, 0, 0, 1], 6881)
}

fn pending(piece_length: usize, pieces: &[usize]) -> PendingPieces {
    let mut p = PendingPieces::new(piece_length);
    p.set_owner_peer(owner());
    for idx in pieces {
        p.add_piece(*idx).unwrap();
    }
    p
}

fn hash_of(data: &[u8]) -> ID {
    ID::new(openssl::sha::sha1(data))
}

#[test]
fn downloader_constants() {
    assert_eq!(ACTIVE_BLOCKS_PER_PEER, 16);
    assert_eq!(CLAIM_EVERY_ROUNDS, ACTIVE_BLOCKS_PER_PEER / 3);
}

#[test]
fn claims_on_the_first_round_and_every_fifth() {
    let mut p = pending(2 * 16384, &[3]);
    let mut d = PieceDownloader::new();
    d.on_command(PeerManagerCommand::StartPiece((ID::new([7; 20]), 3)));
    let asked = d.end_round(&mut p);
    assert_eq!(asked, vec![BlockAddress::new(3, 0), BlockAddress::new(3, 1)]);
    for _ in 1..CLAIM_EVERY_ROUNDS {
        assert!(d.end_round(&mut p).is_empty());
    }
}

#[test]
fn refuses_blocks_it_did_not_ask_for() {
    let mut p = pending(16384, &[3, 4]);
    let mut d = PieceDownloader::new();
    d.on_command(PeerManagerCommand::StartPiece((ID::new([7; 20]), 3)));
    d.on_command(PeerManagerCommand::StartPiece((ID::new([8; 20]), 4)));
    d.on_command(PeerManagerCommand::StopPiece(4));
    d.end_round(&mut p);
    assert_eq!(d.on_block(&mut p, 3, 100, vec![0; 16384]).unwrap_err(), BlockRefused::Misaligned);
    assert_eq!(d.on_block(&mut p, 4, 0, vec![0; 16384]).unwrap_err(), BlockRefused::NotCurrentPiece);
    assert_eq!(d.on_block(&mut p, 3, 16384, vec![0; 16384]).unwrap_err(), BlockRefused::NotRequested);
}

#[test]
fn completes_a_piece_with_the_right_hash() {
    let data = vec![5u8; 100];
    let mut p = pending(100, &[3]);
    let mut d = PieceDownloader::new();
    d.on_command(PeerManagerCommand::StartPiece((hash_of(&data), 3)));
    d.end_round(&mut p);
    assert!(!d.would_leave_piece_unfinished(&p, 3, 0, &data));
    let finished = d.on_block(&mut p, 3, 0, data.clone()).unwrap().unwrap();
    assert_eq!(finished.idx, 3);
    assert_eq!(finished.data, vec![data]);
    // The block has left the claimed blocks.
    assert_eq!(d.on_block(&mut p, 3, 0, vec![5u8; 100]).unwrap_err(), BlockRefused::NotRequested);
}

#[test]
fn a_piece_with_the_wrong_hash_starts_again() {
    let mut p = pending(100, &[3]);
    let mut d = PieceDownloader::new();
    d.on_command(PeerManagerCommand::StartPiece((ID::new([7; 20]), 3)));
    d.end_round(&mut p);
    assert_eq!(d.on_block(&mut p, 3, 0, vec![1u8; 100]).unwrap_err(), BlockRefused::HashMismatch);
    // The piece is pending again, all of it unbegun: the next claim asks for its block.
    for _ in 1..CLAIM_EVERY_ROUNDS {
        d.end_round(&mut p);
    }
    assert_eq!(d.end_round(&mut p), vec![BlockAddress::new(3, 0)]);
}

#[test]
fn a_block_that_cannot_be_stored_is_queued_again() {
    let mut p = pending(100, &[3]);
    let mut d = PieceDownloader::new();
    d.on_command(PeerManagerCommand::StartPiece((ID::new([7; 20]), 3)));
    d.end_round(&mut p);
    assert!(d.on_block(&mut p, 3, 0, vec![1u8; 10]).unwrap().is_none());
    let again = d.end_round(&mut p);
    assert_eq!(again, vec![BlockAddress { piece_idx: 3, block_idx: 0, status: BlockStatus::Queued }]);
}

#[test]
fn the_first_of_two_blocks_may_not_be_handed_over() {
    let mut p = pending(2 * 16384, &[3]);
    let mut d = PieceDownloader::new();
    d.on_command(PeerManagerCommand::StartPiece((ID::new([7; 20]), 3)));
    d.end_round(&mut p);
    assert!(d.would_leave_piece_unfinished(&p, 3, 0, &[0u8; 16384]));
    assert!(!d.would_leave_piece_unfinished(&p, 3, 0, &[0u8; 3]));
}
