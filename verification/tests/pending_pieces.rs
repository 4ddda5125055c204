use nargun::id::ID;
use nargun::peer::Peer;
use nargun::peer_message::Request;
use nargun::pending_pieces::{
    AddBlockRes, Block, BlockAddress, BlockBoundsError, BlockStatus, PendingFull, PendingPieces,
    MAINLINE_TCP_REQUEST_TIMEOUT_MILLIS, MAX_PIECES_DOWNLOADING,
};

const PIECE_LENGTH: usize = 40000;

fn owner() -> Peer {
    Peer::new([10, 0, 0, 1], 6881)
}

fn with_piece(idx: usize) -> PendingPieces {
    let mut p = PendingPieces::new(PIECE_LENGTH);
    p.set_owner_peer(owner());
    assert!(p.add_piece(idx).is_ok());
    p
}

fn addrs(buf: &[BlockAddress]) -> Vec<(usize, usize)> {
    buf.iter().map(|b| (b.piece_idx, b.block_idx)).collect()
}

#[test]
fn block_bounds() {
    let p = PendingPieces::new(PIECE_LENGTH);
    assert_eq!(p.check_block_bounds(0, &vec![0; 16384]), Ok(()));
    assert_eq!(p.check_block_bounds(2, &vec![0; 40000 - 32768]), Ok(()));
    assert_eq!(
        p.check_block_bounds(3, &vec![0; 16384]),
        Err(BlockBoundsError::OutOfBounds { block_idx: 3, blocks_per_piece: 3 })
    );
    assert_eq!(
        p.check_block_bounds(1, &vec![0; 100]),
        Err(BlockBoundsError::TooSmall { expected: 16384, found: 100 })
    );
    assert_eq!(
        p.check_block_bounds(2, &vec![0; 16384]),
        Err(BlockBoundsError::TooLarge { expected: 7232, found: 16384 })
    );
}

#[test]
fn claim_then_expire() {
    let mut p = with_piece(5);
    let mut buf = Vec::new();
    p.claim_blocks(&[5], false, 1000, &mut buf);
    assert_eq!(addrs(&buf), vec![(5, 0), (5, 1), (5, 2)]);
    assert!(buf.iter().all(|b| b.status == BlockStatus::Queued));

    let mut again = Vec::new();
    p.claim_blocks(&[5], false, 1000, &mut again);
    assert!(again.is_empty());

    let mut not_yet = Vec::new();
    p.claim_blocks(&[5], true, 1000 + MAINLINE_TCP_REQUEST_TIMEOUT_MILLIS, &mut not_yet);
    assert!(not_yet.is_empty());

    let mut expired = Vec::new();
    p.claim_blocks(&[5], true, 1001 + MAINLINE_TCP_REQUEST_TIMEOUT_MILLIS, &mut expired);
    assert_eq!(addrs(&expired), vec![(5, 0), (5, 1), (5, 2)]);

    let mut unlisted = Vec::new();
    p.claim_blocks(&[6], true, u64::MAX, &mut unlisted);
    assert!(unlisted.is_empty());
}

#[test]
fn blocks_complete_a_piece() {
    let mut p = with_piece(5);
    assert!(matches!(p.add_block_data(5, 0, vec![1; 16384]), AddBlockRes::Added));
    assert!(matches!(p.add_block_data(5, 1, vec![2; 10]), AddBlockRes::Failed));
    assert!(matches!(p.add_block_data(9, 1, vec![2; 16384]), AddBlockRes::Failed));
    assert!(matches!(p.add_block_data(5, 1, vec![2; 16384]), AddBlockRes::Added));
    match p.add_block_data(5, 2, vec![3; 7232]) {
        AddBlockRes::AddedLast(f) => {
            assert_eq!(f.idx, 5);
            assert_eq!(f.data.len(), 3);
            assert_eq!(f.data[0], vec![1; 16384]);
            assert_eq!(f.data[2], vec![3; 7232]);
        }
        _ => panic!("expected the piece to be finished"),
    }
    // the finished piece has left: its blocks are refused now
    assert!(matches!(p.add_block_data(5, 0, vec![1; 16384]), AddBlockRes::Failed));
}

#[test]
fn at_most_ten_pieces() {
    let mut p = PendingPieces::new(PIECE_LENGTH);
    for i in 0..MAX_PIECES_DOWNLOADING {
        assert!(p.add_piece(i).is_ok());
    }
    assert!(p.add_piece(3).is_ok());
    assert_eq!(p.add_piece(100), Err(PendingFull));
}

#[test]
fn cancel_makes_blocks_unbegun() {
    let mut p = with_piece(1);
    let mut buf = Vec::new();
    p.claim_blocks(&[1], false, 50, &mut buf);
    assert_eq!(buf.len(), 3);
    p.cancel_pending(&Peer::new([9, 9, 9, 9], 1));
    let mut none = Vec::new();
    p.claim_blocks(&[1], false, 60, &mut none);
    assert!(none.is_empty());
    p.cancel_pending(&owner());
    let mut again = Vec::new();
    p.claim_blocks(&[1], false, 70, &mut again);
    assert_eq!(addrs(&again), vec![(1, 0), (1, 1), (1, 2)]);
}

#[test]
fn take_not_good_blocks_hands_out_unbegun() {
    let mut p = with_piece(2);
    let mut buf = Vec::with_capacity(16);
    p.take_not_good_blocks(vec![2], &mut buf);
    assert_eq!(addrs(&buf), vec![(2, 0), (2, 1), (2, 2)]);
}

#[test]
fn block_predicates() {
    let b = Block::Pending { target: owner(), time_sent: 100 };
    assert!(b.is_expected_from(&owner()));
    assert!(!b.is_expected_from(&Peer::new([1, 2, 3, 4], 5)));
    assert!(!b.is_expired_pending(100 + MAINLINE_TCP_REQUEST_TIMEOUT_MILLIS));
    assert!(b.is_expired_pending(101 + MAINLINE_TCP_REQUEST_TIMEOUT_MILLIS));
    assert!(!Block::Unbegun.is_expired_pending(u64::MAX));
}

#[test]
fn request_from_block_address() {
    let r = Request::from_block_address(BlockAddress::new(7, 3));
    assert_eq!(r, Request { index: 7, begin: 3 * 16384, length: 16384 });
    let _ = ID::new([0; 20]);
}

#[test]
fn blocks_in_any_order_complete_a_piece_in_block_order() {
    let mut p = with_piece(7);
    assert!(matches!(p.add_block_data(7, 2, vec![3; 7232]), AddBlockRes::Added));
    assert!(matches!(p.add_block_data(7, 0, vec![1; 16384]), AddBlockRes::Added));
    match p.add_block_data(7, 1, vec![2; 16384]) {
        AddBlockRes::AddedLast(f) => {
            assert_eq!(f.idx, 7);
            assert_eq!(f.data, vec![vec![1; 16384], vec![2; 16384], vec![3; 7232]]);
        }
        _ => panic!("expected the piece to be finished"),
    }
    assert!(matches!(p.add_block_data(7, 1, vec![2; 16384]), AddBlockRes::Failed));
}
