//! The decisions of the piece downloader that works for one peer: the pieces it works on,
//! what it makes of an arriving block, when it claims blocks, and which blocks it asks for.
use vstd::prelude::*;
use crate::id::{ID, sha1, spec_sha1};
use crate::pending_pieces::{
    AddBlockRes, Block, BlockAddress, BlockStatus, FinishedPiece, PeerManagerCommand, PendingPieces,
    block_bytes, block_fits, count_downloaded, find_piece, stores_partially, took_blocks,
    lemma_stores_partially, MAX_PIECES_DOWNLOADING,
};
use crate::peer_message::push_bytes;

verus! {

/// How many blocks a peer is asked for at a time.
pub const ACTIVE_BLOCKS_PER_PEER: usize = 16;

/// Every this many rounds, starting with the first, the downloader claims due blocks.
pub const CLAIM_EVERY_ROUNDS: usize = 5;

/// Why an arriving block was refused.
#[derive(Debug, Clone, Copy, PartialEq, Eq, Structural)]
pub enum BlockRefused {
    /// Its offset is not a multiple of the block size.
    Misaligned,
    /// Its piece is not one the downloader works on.
    NotCurrentPiece,
    /// No block at its place in a piece was asked for.
    NotRequested,
    /// It completed its piece, but the piece's bytes do not have the piece's hash; the piece
    /// is downloaded again from the start.
    HashMismatch,
}

/// No piece index occurs twice.
pub open spec fn unique_keys(m: Seq<(usize, ID)>) -> bool {
    forall|i: int, j: int| 0 <= i < j < m.len() ==> #[trigger] m[i].0 != #[trigger] m[j].0
}

/// The downloader works on piece `k`.
pub open spec fn has_key(m: Seq<(usize, ID)>, k: usize) -> bool {
    exists|i: int| 0 <= i < m.len() && #[trigger] m[i].0 == k
}

/// Where piece `k` is listed (meaningful when it is).
pub open spec fn key_pos(m: Seq<(usize, ID)>, k: usize) -> int {
    choose|i: int| 0 <= i < m.len() && #[trigger] m[i].0 == k
}

/// The list with piece `k` given hash `h`: in its place if listed, else at the end.
pub open spec fn set_hash(m: Seq<(usize, ID)>, k: usize, h: ID) -> Seq<(usize, ID)> {
    if has_key(m, k) {
        m.update(key_pos(m, k), (k, h))
    } else {
        m.push((k, h))
    }
}

/// The list without piece `k`.
pub open spec fn without_key(m: Seq<(usize, ID)>, k: usize) -> Seq<(usize, ID)> {
    if has_key(m, k) {
        m.remove(key_pos(m, k))
    } else {
        m
    }
}

/// The piece indices listed, in order.
pub open spec fn keys_of(m: Seq<(usize, ID)>) -> Seq<usize> {
    Seq::new(m.len(), |i: int| m[i].0)
}

/// `k` is the first position of a block at place `block_idx` in its piece.
pub open spec fn first_with_block(b: Seq<BlockAddress>, block_idx: usize, k: int) -> bool {
    &&& 0 <= k < b.len()
    &&& b[k].block_idx == block_idx
    &&& forall|j: int| 0 <= j < k ==> #[trigger] b[j].block_idx != block_idx
}

/// The queued blocks, in order.
pub open spec fn queued_of(b: Seq<BlockAddress>) -> Seq<BlockAddress>
    decreases b.len(),
{
    if b.len() == 0 {
        Seq::empty()
    } else {
        queued_of(b.drop_last()) + if b.last().status == BlockStatus::Queued {
            seq![b.last()]
        } else {
            Seq::<BlockAddress>::empty()
        }
    }
}

/// The blocks, each marked requested.
pub open spec fn all_requested(b: Seq<BlockAddress>) -> Seq<BlockAddress> {
    Seq::new(b.len(), |i: int| BlockAddress { status: BlockStatus::Requested, ..b[i] })
}

/// A claimed block is asked for once: after a round has handed out the queued blocks, a
/// round that claims nothing hands out none.
pub proof fn lemma_requested_once(b: Seq<BlockAddress>)
    ensures
        queued_of(all_requested(b)).len() == 0,
    decreases b.len(),
{
    if b.len() > 0 {
        assert(all_requested(b).drop_last() =~= all_requested(b.drop_last()));
        lemma_requested_once(b.drop_last());
    }
}

/// The bytes of the first `n` blocks, one after the other.
pub open spec fn piece_bytes(blocks: Seq<Block>, n: int) -> Seq<u8>
    decreases n,
{
    if n <= 0 {
        Seq::empty()
    } else {
        piece_bytes(blocks, n - 1) + block_bytes(blocks[n - 1])
    }
}

/// The bytes of the given blocks, one after the other.
pub open spec fn joined(data: Seq<Vec<u8>>) -> Seq<u8>
    decreases data.len(),
{
    if data.len() == 0 {
        Seq::empty()
    } else {
        joined(data.drop_last()) + data.last()@
    }
}

/// The bytes of the blocks, one after the other.
fn join_blocks(data: &Vec<Vec<u8>>) -> (r: Vec<u8>)
    ensures
        r@ == joined(data@),
{
    let mut out: Vec<u8> = Vec::new();
    let mut i: usize = 0;
    while i < data.len()
        invariant
            0 <= i <= data@.len(),
            out@ == joined(data@.take(i as int)),
        decreases data@.len() - i,
    {
        assert(data@.take(i + 1).drop_last() == data@.take(i as int));
        push_bytes(&mut out, data[i].as_slice());
        i += 1;
    }
    assert(data@.take(data@.len() as int) == data@);
    out
}

/// The joined blocks of a finished piece are its bytes.
proof fn lemma_joined_blocks(data: Seq<Vec<u8>>, blocks: Seq<Block>, n: int)
    requires
        0 <= n <= data.len(),
        forall|b: int| 0 <= b < data.len() ==> #[trigger] data[b]@ == block_bytes(blocks[b]),
    ensures
        joined(data.take(n)) == piece_bytes(blocks, n),
    decreases n,
{
    if n > 0 {
        assert(data.take(n).drop_last() == data.take(n - 1));
        lemma_joined_blocks(data, blocks, n - 1);
    }
}

/// The state of a piece downloader: the pieces it works on, with their hashes; the blocks it
/// has claimed, in order; and how many rounds of its loop have passed.
pub struct PieceDownloader {
    current_pieces: Vec<(usize, ID)>,
    current_blocks: Vec<BlockAddress>,
    rounds: usize,
}

/// An arriving block would reach `add_block_data` and leave its piece unfinished.
pub open spec fn leaves_piece_unfinished(d: PieceDownloader, p: PendingPieces, index: u32, begin: u32, len: nat) -> bool {
    let bi = (begin / 16384) as usize;
    &&& begin % 16384 == 0
    &&& has_key(d.pieces(), index as usize)
    &&& exists|k: int| #[trigger] first_with_block(d.blocks(), bi, k)
    &&& block_fits(p.spec_piece_length() as int, p.spec_blocks_per_piece() as int, bi as int, len as int)
    &&& stores_partially(p, index as usize, bi)
}

impl PieceDownloader {
    pub closed spec fn pieces(self) -> Seq<(usize, ID)> {
        self.current_pieces@
    }

    pub closed spec fn blocks(self) -> Seq<BlockAddress> {
        self.current_blocks@
    }

    pub closed spec fn spec_rounds(self) -> usize {
        self.rounds
    }

    pub open spec fn wf(self) -> bool {
        unique_keys(self.pieces())
    }

    /// A downloader that works on no piece yet.
    pub fn new() -> (r: Self)
        ensures
            r.wf(),
            r.pieces().len() == 0,
            r.blocks().len() == 0,
            r.spec_rounds() == 0,
    {
        PieceDownloader { current_pieces: Vec::new(), current_blocks: Vec::new(), rounds: 0 }
    }

    /// Where piece `k` is listed, if it is.
    fn position(&self, k: usize) -> (r: Option<usize>)
        requires
            self.wf(),
        ensures
            match r {
                Some(i) => i < self.pieces().len() && self.pieces()[i as int].0 == k && key_pos(self.pieces(), k) == i,
                None => !has_key(self.pieces(), k),
            },
    {
        let mut i: usize = 0;
        while i < self.current_pieces.len()
            invariant
                self.wf(),
                0 <= i <= self.current_pieces@.len(),
                forall|j: int| 0 <= j < i ==> self.current_pieces@[j].0 != k,
            decreases self.current_pieces@.len() - i,
        {
            if self.current_pieces[i].0 == k {
                proof {
                    let m = self.pieces();
                    let j = key_pos(m, k);
                    assert(has_key(m, k) && m[i as int].0 == k);
                    if j != i {
                        if j < i {
                            assert(m[j].0 != m[i as int].0);
                        } else {
                            assert(m[i as int].0 != m[j].0);
                        }
                    }
                }
                return Some(i);
            }
            i += 1;
        }
        None
    }

    /// Starts or stops working on a piece; a piece started again takes the new hash.
    pub fn on_command(&mut self, command: PeerManagerCommand)
        requires
            old(self).wf(),
        ensures
            final(self).wf(),
            final(self).blocks() == old(self).blocks(),
            final(self).spec_rounds() == old(self).spec_rounds(),
            match command {
                PeerManagerCommand::StartPiece((hash, idx)) => final(self).pieces() == set_hash(old(self).pieces(), idx, hash),
                PeerManagerCommand::StopPiece(idx) => final(self).pieces() == without_key(old(self).pieces(), idx),
            },
    {
        let ghost m = self.current_pieces@;
        match command {
            PeerManagerCommand::StartPiece((hash, idx)) => {
                match self.position(idx) {
                    Some(i) => {
                        self.current_pieces.set(i, (idx, hash));
                        proof {
                            assert forall|a: int, b: int| 0 <= a < b < self.current_pieces@.len() implies #[trigger] self.current_pieces@[a].0
                                != #[trigger] self.current_pieces@[b].0 by {
                                assert(m[a].0 != m[b].0);
                            }
                        }
                    },
                    None => {
                        self.current_pieces.push((idx, hash));
                        proof {
                            assert forall|a: int, b: int| 0 <= a < b < self.current_pieces@.len() implies #[trigger] self.current_pieces@[a].0
                                != #[trigger] self.current_pieces@[b].0 by {
                                if b == m.len() {
                                    assert(m[a].0 != idx);
                                } else {
                                    assert(m[a].0 != m[b].0);
                                }
                            }
                        }
                    },
                }
            },
            PeerManagerCommand::StopPiece(idx) => {
                match self.position(idx) {
                    Some(i) => {
                        let _ = self.current_pieces.remove(i);
                        proof {
                            assert forall|a: int, b: int| 0 <= a < b < self.current_pieces@.len() implies #[trigger] self.current_pieces@[a].0
                                != #[trigger] self.current_pieces@[b].0 by {
                                let x = if a < i { a } else { a + 1 };
                                let y = if b < i { b } else { b + 1 };
                                assert(m[x].0 != m[y].0);
                            }
                        }
                    },
                    None => {},
                }
            },
        }
    }

    /// Where the first claimed block at place `block_idx` in its piece is, if there is one.
    fn block_position(&self, block_idx: usize) -> (r: Option<usize>)
        ensures
            match r {
                Some(k) => first_with_block(self.blocks(), block_idx, k as int),
                None => !exists|k: int| #[trigger] first_with_block(self.blocks(), block_idx, k),
            },
    {
        let mut k: usize = 0;
        while k < self.current_blocks.len()
            invariant
                0 <= k <= self.current_blocks@.len(),
                forall|j: int| 0 <= j < k ==> #[trigger] self.current_blocks@[j].block_idx != block_idx,
            decreases self.current_blocks@.len() - k,
        {
            if self.current_blocks[k].block_idx == block_idx {
                return Some(k);
            }
            k += 1;
        }
        proof {
            assert forall|j: int| !#[trigger] first_with_block(self.blocks(), block_idx, j) by {
                if 0 <= j < self.blocks().len() {
                    assert(self.current_blocks@[j].block_idx != block_idx);
                }
            }
        }
        None
    }

    /// The pieces worked on, in order.
    fn keys(&self) -> (r: Vec<usize>)
        ensures
            r@ == keys_of(self.pieces()),
    {
        let mut out: Vec<usize> = Vec::new();
        let mut i: usize = 0;
        while i < self.current_pieces.len()
            invariant
                0 <= i <= self.current_pieces@.len(),
                out@ == keys_of(self.pieces()).take(i as int),
            decreases self.current_pieces@.len() - i,
        {
            out.push(self.current_pieces[i].0);
            i += 1;
            assert(out@ == keys_of(self.pieces()).take(i as int));
        }
        assert(keys_of(self.pieces()).take(i as int) == keys_of(self.pieces()));
        out
    }

    /// Whether `on_block` must not be given this block: it would be stored and leave its
    /// piece with blocks still missing.
    pub fn would_leave_piece_unfinished(&self, pending: &PendingPieces, index: u32, begin: u32, data: &[u8]) -> (r: bool)
        requires
            self.wf(),
            pending.wf(),
        ensures
            r == leaves_piece_unfinished(*self, *pending, index, begin, data@.len()),
    {
        if begin % 16384 != 0 {
            return false;
        }
        if self.position(index as usize).is_none() {
            return false;
        }
        let bi = (begin / 16384) as usize;
        if self.block_position(bi).is_none() {
            return false;
        }
        if pending.check_block_bounds(bi, data).is_err() {
            return false;
        }
        pending.stores_partially(index as usize, bi)
    }

    /// Takes a block that arrived for piece `index` at offset `begin`. It is refused when
    /// misaligned, of a piece not worked on, or not asked for; else it leaves the claimed
    /// blocks (the first one at its place) and is stored. When storing fails the block is
    /// queued again; when it completes its piece the piece is handed back if its bytes have
    /// the piece's hash, and else refused and downloaded again from the start.
    pub fn on_block(&mut self, pending: &mut PendingPieces, index: u32, begin: u32, data: Vec<u8>) -> (r: Result<Option<FinishedPiece>, BlockRefused>)
        requires
            old(self).wf(),
            old(pending).wf(),
            !leaves_piece_unfinished(*old(self), *old(pending), index, begin, data@.len()),
        ensures
            final(self).wf(),
            final(self).pieces() == old(self).pieces(),
            final(self).spec_rounds() == old(self).spec_rounds(),
            final(pending).wf(),
            final(pending).owner() == old(pending).owner(),
            final(pending).spec_piece_length() == old(pending).spec_piece_length(),
            ({
                let bi = (begin / 16384) as usize;
                let d = *old(self);
                let p = *old(pending);
                if begin % 16384 != 0 {
                    r matches Err(BlockRefused::Misaligned) && final(self).blocks() == d.blocks() && final(pending).pieces() == p.pieces()
                } else if !has_key(d.pieces(), index as usize) {
                    r matches Err(BlockRefused::NotCurrentPiece) && final(self).blocks() == d.blocks() && final(pending).pieces() == p.pieces()
                } else if !exists|k: int| #[trigger] first_with_block(d.blocks(), bi, k) {
                    r matches Err(BlockRefused::NotRequested) && final(self).blocks() == d.blocks() && final(pending).pieces() == p.pieces()
                } else {
                    let k = choose|k: int| #[trigger] first_with_block(d.blocks(), bi, k);
                    let rest = d.blocks().remove(k);
                    if !block_fits(p.spec_piece_length() as int, p.spec_blocks_per_piece() as int, bi as int, data@.len() as int)
                        || find_piece(p.pieces(), index as usize) is None {
                        &&& r matches Ok(None)
                        &&& final(self).blocks() == rest.push(BlockAddress { status: BlockStatus::Queued, ..d.blocks()[k] })
                        &&& final(pending).pieces() == p.pieces()
                    } else {
                        let i = find_piece(p.pieces(), index as usize)->0;
                        let updated = p.pieces()[i].blocks@.update(bi as int, Block::Downloaded(data));
                        let hash = d.pieces()[key_pos(d.pieces(), index as usize)].1;
                        &&& final(self).blocks() == rest
                        &&& if spec_sha1(piece_bytes(updated, p.spec_blocks_per_piece() as int)) == hash@ {
                            &&& r matches Ok(Some(fp)) && fp.idx == index as usize && fp.data@.len() == p.spec_blocks_per_piece()
                                && forall|b: int| 0 <= b < fp.data@.len() ==> #[trigger] fp.data@[b]@ == block_bytes(updated[b])
                            &&& final(pending).pieces() == p.pieces().remove(i)
                        } else {
                            &&& r matches Err(BlockRefused::HashMismatch)
                            &&& final(pending).pieces().drop_last() == p.pieces().remove(i)
                            &&& final(pending).pieces().last().idx == index as usize
                            &&& final(pending).pieces().last().downloaded == 0
                            &&& forall|b: int| 0 <= b < p.spec_blocks_per_piece() ==> #[trigger] final(pending).pieces().last().blocks@[b] is Unbegun
                        }
                    }
                }
            }),
    {
        if begin % 16384 != 0 {
            return Err(BlockRefused::Misaligned);
        }
        let piece_idx = index as usize;
        let hash = match self.position(piece_idx) {
            Some(i) => self.current_pieces[i].1,
            None => {
                return Err(BlockRefused::NotCurrentPiece);
            },
        };
        let block_idx = (begin / 16384) as usize;
        let k = match self.block_position(block_idx) {
            Some(k) => k,
            None => {
                return Err(BlockRefused::NotRequested);
            },
        };
        proof {
            let kk = choose|kk: int| #[trigger] first_with_block(self.blocks(), block_idx, kk);
            if kk != k {
                if kk < k {
                    assert(self.blocks()[kk].block_idx != block_idx);
                } else {
                    assert(self.blocks()[k as int].block_idx != block_idx);
                }
            }
        }
        let removed = self.current_blocks.remove(k);
        let ghost p = *pending;
        let ghost data_copy = data;
        proof {
            if block_fits(p.spec_piece_length() as int, p.spec_blocks_per_piece() as int, block_idx as int, data@.len() as int)
                && find_piece(p.pieces(), piece_idx) is Some {
                lemma_stores_partially(p, piece_idx, block_idx, data);
            }
        }
        match pending.add_block_data(piece_idx, block_idx, data) {
            AddBlockRes::Added => {
                proof {
                    assert(false);
                }
                Ok(None)
            },
            AddBlockRes::Failed => {
                self.current_blocks.push(BlockAddress { status: BlockStatus::Queued, ..removed });
                Ok(None)
            },
            AddBlockRes::AddedLast(fp) => {
                let bytes = join_blocks(&fp.data);
                proof {
                    let i = find_piece(p.pieces(), piece_idx)->0;
                    let updated = p.pieces()[i].blocks@.update(block_idx as int, Block::Downloaded(data_copy));
                    lemma_joined_blocks(fp.data@, updated, fp.data@.len() as int);
                    assert(fp.data@.take(fp.data@.len() as int) == fp.data@);
                }
                let digest = ID::new(sha1(bytes.as_slice()));
                if digest == hash {
                    Ok(Some(fp))
                } else {
                    proof {
                        let i = find_piece(p.pieces(), piece_idx)->0;
                        assert(find_piece(pending.pieces(), piece_idx) is None) by {
                            if exists|j: int| 0 <= j < pending.pieces().len() && pending.pieces()[j].idx == piece_idx {
                                let j = choose|j: int| 0 <= j < pending.pieces().len() && pending.pieces()[j].idx == piece_idx;
                                let jj = if j < i { j } else { j + 1 };
                                assert(pending.pieces()[j] == p.pieces()[jj]);
                                if jj < i {
                                    assert(p.pieces()[jj].idx != p.pieces()[i].idx);
                                } else {
                                    assert(p.pieces()[i].idx != p.pieces()[jj].idx);
                                }
                            }
                        }
                    }
                    let _ = pending.add_piece(piece_idx);
                    Err(BlockRefused::HashMismatch)
                }
            },
        }
    }

    /// Hands out the queued blocks, in order, and marks every claimed block requested.
    fn hand_out_queued(&mut self) -> (r: Vec<BlockAddress>)
        requires
            old(self).wf(),
        ensures
            final(self).wf(),
            final(self).pieces() == old(self).pieces(),
            final(self).spec_rounds() == old(self).spec_rounds(),
            final(self).blocks() == all_requested(old(self).blocks()),
            r@ == queued_of(old(self).blocks()),
    {
        let ghost b1 = self.current_blocks@;
        let mut out: Vec<BlockAddress> = Vec::new();
        let mut k: usize = 0;
        while k < self.current_blocks.len()
            invariant
                0 <= k <= b1.len(),
                b1 == old(self).blocks(),
                self.current_blocks@.len() == b1.len(),
                self.wf(),
                self.pieces() == old(self).pieces(),
                self.rounds == old(self).rounds,
                out@ == queued_of(b1.take(k as int)),
                forall|j: int| 0 <= j < k ==> #[trigger] self.current_blocks@[j] == all_requested(b1)[j],
                forall|j: int| k <= j < b1.len() ==> #[trigger] self.current_blocks@[j] == b1[j],
            decreases b1.len() - k,
        {
            let b = self.current_blocks[k];
            assert(b1.take(k + 1).drop_last() == b1.take(k as int));
            if b.status == BlockStatus::Queued {
                out.push(b);
            }
            self.current_blocks.set(k, BlockAddress { status: BlockStatus::Requested, ..b });
            k += 1;
        }
        assert(b1.take(b1.len() as int) == b1);
        assert(self.current_blocks@ == all_requested(b1));
        out
    }

    /// Ends a round of the download loop: on the first round and every fifth after it, the
    /// due blocks of the pieces worked on are claimed; then the queued blocks are handed out,
    /// in order, to be asked for, and every claimed block is marked requested.
    pub fn end_round(&mut self, pending: &mut PendingPieces) -> (r: Vec<BlockAddress>)
        requires
            old(self).wf(),
            old(pending).wf(),
            old(pending).owner() is Some,
            old(self).spec_rounds() < usize::MAX,
        ensures
            final(self).wf(),
            final(self).pieces() == old(self).pieces(),
            final(self).spec_rounds() == old(self).spec_rounds() + 1,
            final(pending).wf(),
            final(pending).owner() == old(pending).owner(),
            final(pending).spec_piece_length() == old(pending).spec_piece_length(),
            old(self).spec_rounds() % CLAIM_EVERY_ROUNDS == 0 ==> exists|b1: Seq<BlockAddress>, now: u64|
                #[trigger] took_blocks(
                    old(pending).pieces(),
                    final(pending).pieces(),
                    old(self).blocks(),
                    b1,
                    keys_of(old(self).pieces()),
                    now,
                    old(pending).owner()->0,
                ) && final(self).blocks() == all_requested(b1) && r@ == queued_of(b1),
            old(self).spec_rounds() % CLAIM_EVERY_ROUNDS != 0 ==> final(pending).pieces() == old(pending).pieces()
                && final(self).blocks() == all_requested(old(self).blocks()) && r@ == queued_of(old(self).blocks()),
    {
        if self.rounds % CLAIM_EVERY_ROUNDS == 0 {
            let keys = self.keys();
            pending.take_not_good_blocks(keys, &mut self.current_blocks);
        }
        let ghost b1 = self.current_blocks@;
        let out = self.hand_out_queued();
        self.rounds = self.rounds + 1;
        proof {
            if old(self).spec_rounds() % CLAIM_EVERY_ROUNDS == 0 {
                let now = choose|now: u64| took_blocks(
                    old(pending).pieces(),
                    pending.pieces(),
                    old(self).blocks(),
                    b1,
                    keys_of(old(self).pieces()),
                    now,
                    old(pending).owner()->0,
                );
                assert(took_blocks(
                    old(pending).pieces(),
                    pending.pieces(),
                    old(self).blocks(),
                    b1,
                    keys_of(old(self).pieces()),
                    now,
                    old(pending).owner()->0,
                ));
            }
        }
        out
    }
}

} // verus!
