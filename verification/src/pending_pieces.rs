use vstd::prelude::*;
use crate::id::ID;
use crate::peer::Peer;
use crate::peer_message::Request;
use crate::clock::now_millis;

verus! {

pub const BLOCK_SIZE: usize = 16384;
pub const MAX_PIECES_DOWNLOADING: usize = 10;
pub const MAINLINE_TCP_REQUEST_TIMEOUT_MILLIS: u64 = 7000;

/// Tells a piece downloader to start or stop working on a piece.
#[derive(Debug, Clone, Copy)]
pub enum PeerManagerCommand {
    StartPiece((ID, usize)),
    StopPiece(usize),
}

/// Whether a block has been asked for yet.
#[derive(Debug, Clone, Copy, PartialEq, Eq, Structural)]
pub enum BlockStatus {
    Queued,
    Requested,
}

/// One block of one piece.
#[derive(Debug, Clone, Copy, PartialEq, Eq, Structural)]
pub struct BlockAddress {
    pub piece_idx: usize,
    pub block_idx: usize,
    pub status: BlockStatus,
}

impl BlockAddress {
    pub fn new(piece_idx: usize, block_idx: usize) -> (r: Self)
        ensures
            r.piece_idx == piece_idx,
            r.block_idx == block_idx,
            r.status == BlockStatus::Queued,
    {
        BlockAddress { piece_idx, block_idx, status: BlockStatus::Queued }
    }
}

impl Request {
    /// The request for a whole block: its piece (the index cut to 32 bits), its offset, and
    /// the block size.
    pub fn from_block_address(value: BlockAddress) -> (r: Request)
        requires
            (value.block_idx as u32) * 16384 <= u32::MAX,
        ensures
            r.index == value.piece_idx as u32,
            r.begin == (value.block_idx as u32) * 16384,
            r.length == 16384,
    {
        Request {
            index: #[verifier::truncate] (value.piece_idx as u32),
            begin: #[verifier::truncate] (value.block_idx as u32) * 16384u32,
            length: 16384u32,
        }
    }
}

/// A piece whose blocks have all arrived, in order.
#[derive(Debug)]
pub struct FinishedPiece {
    pub idx: usize,
    pub data: Vec<Vec<u8>>,
}

/// Outcome of storing a block.
#[derive(Debug)]
pub enum AddBlockRes {
    Failed,
    Added,
    AddedLast(FinishedPiece),
}

/// Download state of one block.
#[derive(Debug, Clone)]
pub enum Block {
    Unbegun,
    /// Requested from `target` at time `time_sent` (milliseconds).
    Pending { target: Peer, time_sent: u64 },
    Downloaded(Vec<u8>),
}

/// A piece being downloaded.
#[derive(Debug, Clone)]
pub struct PieceState {
    pub idx: usize,
    pub pending: usize,
    pub downloaded: usize,
    pub blocks: Vec<Block>,
}

/// Number of downloaded blocks among the first `n`.
pub open spec fn count_downloaded(b: Seq<Block>, n: int) -> nat
    decreases n,
{
    if n <= 0 {
        0
    } else {
        count_downloaded(b, n - 1) + if b[n - 1] is Downloaded {
            1nat
        } else {
            0nat
        }
    }
}

/// Number of blocks among the first `n` that have been requested and not yet received.
pub open spec fn count_pending(b: Seq<Block>, n: int) -> nat
    decreases n,
{
    if n <= 0 {
        0
    } else {
        count_pending(b, n - 1) + if b[n - 1] is Pending {
            1nat
        } else {
            0nat
        }
    }
}

/// A pending block whose request is older than the timeout at time `now` (milliseconds).
pub open spec fn is_expired(b: Block, now: u64) -> bool {
    match b {
        Block::Pending { target, time_sent } => now > time_sent && now - time_sent
            > MAINLINE_TCP_REQUEST_TIMEOUT_MILLIS,
        _ => false,
    }
}

/// The first pass of a claim takes the unbegun blocks, the second the expired ones.
pub open spec fn wanted(b: Block, expired_pass: bool, now: u64) -> bool {
    if expired_pass {
        is_expired(b, now)
    } else {
        b is Unbegun
    }
}

/// What a claim by `owner` at `now` makes of a block.
pub open spec fn claim_block(b: Block, expired_pass: bool, now: u64, owner: Peer) -> Block {
    if wanted(b, expired_pass, now) {
        Block::Pending { target: owner, time_sent: now }
    } else {
        b
    }
}

/// Addresses, in order, of the wanted blocks among the first `n` blocks of piece `idx`.
pub open spec fn wanted_in_piece(idx: usize, b: Seq<Block>, n: int, expired_pass: bool, now: u64) -> Seq<BlockAddress>
    decreases n,
{
    if n <= 0 {
        Seq::empty()
    } else {
        wanted_in_piece(idx, b, n - 1, expired_pass, now) + if wanted(b[n - 1], expired_pass, now) {
            seq![BlockAddress { piece_idx: idx, block_idx: (n - 1) as usize, status: BlockStatus::Queued }]
        } else {
            Seq::empty()
        }
    }
}

/// Addresses, in order, of the wanted blocks of the first `n` pieces whose index is listed.
pub open spec fn wanted_blocks(d: Seq<PieceState>, n: int, listed: Seq<usize>, expired_pass: bool, now: u64) -> Seq<BlockAddress>
    decreases n,
{
    if n <= 0 {
        Seq::empty()
    } else {
        wanted_blocks(d, n - 1, listed, expired_pass, now) + if listed.contains(d[n - 1].idx) {
            wanted_in_piece(d[n - 1].idx, d[n - 1].blocks@, d[n - 1].blocks@.len() as int, expired_pass, now)
        } else {
            Seq::empty()
        }
    }
}

/// One piece after a claim: if listed, every wanted block has become pending.
pub open spec fn claimed_piece(o: PieceState, n: PieceState, listed: Seq<usize>, expired_pass: bool, now: u64, owner: Peer) -> bool {
    &&& n.idx == o.idx
    &&& n.downloaded == o.downloaded
    &&& n.blocks@.len() == o.blocks@.len()
    &&& forall|b: int| 0 <= b < o.blocks@.len() ==> #[trigger] n.blocks@[b] == if listed.contains(o.idx) {
        claim_block(o.blocks@[b], expired_pass, now, owner)
    } else {
        o.blocks@[b]
    }
}

/// The pieces after a claim: in each listed piece every wanted block has become pending.
pub open spec fn claimed(old_d: Seq<PieceState>, new_d: Seq<PieceState>, listed: Seq<usize>, expired_pass: bool, now: u64, owner: Peer) -> bool {
    &&& new_d.len() == old_d.len()
    &&& forall|i: int| 0 <= i < old_d.len() ==> #[trigger] claimed_piece(old_d[i], new_d[i], listed, expired_pass, now, owner)
}

/// Number of blocks a piece of `piece_length` bytes is cut into.
pub open spec fn blocks_for(piece_length: int) -> int {
    1 + (piece_length - 1) / 16384
}

/// Size that block `block_idx` must have: 16384 bytes, but `piece_length % 16384` for
/// the last block of a piece (so a piece whose length is a multiple of 16384 has a last
/// block of size zero).
pub open spec fn expected_block_size(piece_length: int, blocks_per_piece: int, block_idx: int) -> int {
    if block_idx + 1 == blocks_per_piece {
        piece_length % 16384
    } else {
        16384
    }
}

/// The pieces currently being downloaded, with the state of each block.
#[derive(Debug, Clone)]
pub struct PendingPieces {
    piece_length: usize,
    blocks_per_piece: usize,
    copy_owner: Option<Peer>,
    data: Vec<PieceState>,
}

/// A piece has one entry per block, and its counters count its blocks.
pub open spec fn piece_wf(p: PieceState, bpp: int) -> bool {
    &&& p.blocks@.len() == bpp
    &&& p.downloaded == count_downloaded(p.blocks@, bpp)
    &&& p.pending == count_pending(p.blocks@, bpp)
}

/// No piece occurs twice, and each is well formed.
pub open spec fn pieces_wf(d: Seq<PieceState>, bpp: int) -> bool {
    &&& forall|i: int, j: int| 0 <= i < j < d.len() ==> #[trigger] d[i].idx != #[trigger] d[j].idx
    &&& forall|i: int| 0 <= i < d.len() ==> #[trigger] piece_wf(d[i], bpp)
}

/// Position of the piece `idx` among the entries, if present.
pub open spec fn find_piece(d: Seq<PieceState>, idx: usize) -> Option<int> {
    if exists|i: int| 0 <= i < d.len() && d[i].idx == idx {
        Some(choose|i: int| 0 <= i < d.len() && d[i].idx == idx)
    } else {
        None
    }
}

impl PendingPieces {
    pub closed spec fn spec_piece_length(self) -> usize {
        self.piece_length
    }

    pub closed spec fn spec_blocks_per_piece(self) -> usize {
        self.blocks_per_piece
    }

    pub closed spec fn owner(self) -> Option<Peer> {
        self.copy_owner
    }

    /// The pieces being downloaded, oldest first.
    pub closed spec fn pieces(self) -> Seq<PieceState> {
        self.data@
    }

    /// Block counts agree with the piece size, piece indices are unique, and each piece
    /// counts its downloaded blocks.
    pub open spec fn wf(self) -> bool {
        &&& self.spec_piece_length() >= 1
        &&& self.spec_blocks_per_piece() == blocks_for(self.spec_piece_length() as int)
        &&& self.pieces().len() <= MAX_PIECES_DOWNLOADING
        &&& pieces_wf(self.pieces(), self.spec_blocks_per_piece() as int)
    }

    pub fn new(piece_length: usize) -> (r: Self)
        requires
            piece_length >= 1,
        ensures
            r.wf(),
            r.spec_piece_length() == piece_length,
            r.owner() is None,
            r.pieces().len() == 0,
    {
        PendingPieces {
            piece_length,
            blocks_per_piece: 1 + (piece_length - 1) / BLOCK_SIZE,
            copy_owner: None,
            data: Vec::new(),
        }
    }

    pub fn set_owner_peer(&mut self, owner: Peer)
        ensures
            final(self).owner() == Some(owner),
            final(self).pieces() == old(self).pieces(),
            final(self).spec_piece_length() == old(self).spec_piece_length(),
            final(self).spec_blocks_per_piece() == old(self).spec_blocks_per_piece(),
    {
        self.copy_owner = Some(owner);
    }

    fn position_of(&self, idx: usize) -> (r: Option<usize>)
        requires
            self.wf(),
        ensures
            r is None <==> find_piece(self.pieces(), idx) is None,
            r matches Some(i) ==> find_piece(self.pieces(), idx) == Some(i as int) && i < self.pieces().len() && self.pieces()[i as int].idx == idx,
    {
        let mut i: usize = 0;
        while i < self.data.len()
            invariant
                0 <= i <= self.data@.len(),
                self.wf(),
                forall|k: int| 0 <= k < i ==> self.data@[k].idx != idx,
            decreases self.data@.len() - i,
        {
            if self.data[i].idx == idx {
                proof {
                    let c = choose|c: int| 0 <= c < self.data@.len() && self.data@[c].idx == idx;
                    if c < i {
                        assert(self.data@[c].idx != self.data@[i as int].idx);
                    } else if c > i {
                        assert(self.data@[i as int].idx != self.data@[c].idx);
                    }
                }
                return Some(i);
            }
            i += 1;
        }
        None
    }

    /// Starts downloading piece `idx` (all blocks unbegun); a known piece is left as it is,
    /// and a new one is refused once ten pieces are pending.
    pub fn add_piece(&mut self, idx: usize) -> (r: Result<(), PendingFull>)
        requires
            old(self).wf(),
        ensures
            final(self).wf(),
            final(self).owner() == old(self).owner(),
            final(self).spec_piece_length() == old(self).spec_piece_length(),
            find_piece(old(self).pieces(), idx) is Some ==> r is Ok && final(self).pieces()
                == old(self).pieces(),
            find_piece(old(self).pieces(), idx) is None && old(self).pieces().len()
                >= MAX_PIECES_DOWNLOADING ==> r is Err && final(self).pieces() == old(self).pieces(),
            find_piece(old(self).pieces(), idx) is None && old(self).pieces().len()
                < MAX_PIECES_DOWNLOADING ==> r is Ok && final(self).pieces().len() == old(self).pieces().len() + 1 && final(self).pieces().drop_last() == old(self).pieces()
                && final(self).pieces().last().idx == idx && final(self).pieces().last().downloaded
                == 0 && forall|b: int|
                0 <= b < final(self).spec_blocks_per_piece() ==> final(self).pieces().last().blocks@[b] is Unbegun,
    {
        if self.position_of(idx).is_some() {
            return Ok(());
        }
        if self.data.len() >= MAX_PIECES_DOWNLOADING {
            return Err(PendingFull);
        }
        let mut blocks: Vec<Block> = Vec::new();
        let mut b: usize = 0;
        while b < self.blocks_per_piece
            invariant
                0 <= b <= self.blocks_per_piece,
                blocks@.len() == b,
                forall|k: int| 0 <= k < b ==> blocks@[k] is Unbegun,
                count_downloaded(blocks@, b as int) == 0,
                count_pending(blocks@, b as int) == 0,
            decreases self.blocks_per_piece - b,
        {
            let ghost prev = blocks@;
            blocks.push(Block::Unbegun);
            b += 1;
            proof {
                lemma_count_prefix_eq(blocks@, prev, b - 1);
            }
        }
        let ghost old_data = self.data@;
        self.data.push(PieceState { idx, pending: 0, downloaded: 0, blocks });
        proof {
            assert(self.data@.drop_last() == old_data);
            assert forall|i: int, j: int| 0 <= i < j < self.data@.len() implies #[trigger] self.data@[i].idx
                != #[trigger] self.data@[j].idx by {
                if j == old_data.len() {
                    assert(old_data[i].idx != idx);
                } else {
                    assert(old_data[i].idx != old_data[j].idx);
                }
            }
        }
        Ok(())
    }
}

/// What forgetting the requests made of `from` makes of a block.
pub open spec fn cancelled(b: Block, from: Peer) -> Block {
    if b matches Block::Pending { target, .. } && target == from {
        Block::Unbegun
    } else {
        b
    }
}

/// One piece after forgetting the requests made of `from`.
pub open spec fn cancelled_piece(o: PieceState, n: PieceState, from: Peer) -> bool {
    &&& n.idx == o.idx
    &&& n.blocks@.len() == o.blocks@.len()
    &&& forall|b: int| 0 <= b < o.blocks@.len() ==> #[trigger] n.blocks@[b] == cancelled(o.blocks@[b], from)
}

/// The bytes a downloaded block holds (nothing for any other block).
pub open spec fn block_bytes(b: Block) -> Seq<u8> {
    match b {
        Block::Downloaded(v) => v@,
        _ => Seq::empty(),
    }
}

/// Whether `len` bytes are the right amount for block `block_idx`.
pub open spec fn block_fits(piece_length: int, blocks_per_piece: int, block_idx: int, len: int) -> bool {
    block_idx < blocks_per_piece && len == expected_block_size(piece_length, blocks_per_piece, block_idx)
}

/// Why a received block was refused.
#[derive(Debug, Clone, Copy, PartialEq, Eq, Structural)]
pub enum BlockBoundsError {
    OutOfBounds { block_idx: usize, blocks_per_piece: usize },
    TooSmall { expected: usize, found: usize },
    TooLarge { expected: usize, found: usize },
}

/// The state after both claim passes of `take_not_good_blocks`, the second pass being optional.
pub open spec fn took_blocks(
    old_d: Seq<PieceState>,
    new_d: Seq<PieceState>,
    old_buf: Seq<BlockAddress>,
    new_buf: Seq<BlockAddress>,
    listed: Seq<usize>,
    now: u64,
    owner: Peer,
) -> bool {
    exists|mid: Seq<PieceState>| {
        &&& #[trigger] claimed(old_d, mid, listed, false, now, owner)
        &&& {
            ||| (new_d == mid && new_buf == old_buf + wanted_blocks(
                old_d,
                old_d.len() as int,
                listed,
                false,
                now,
            ))
            ||| (claimed(mid, new_d, listed, true, now, owner) && new_buf == old_buf
                + wanted_blocks(old_d, old_d.len() as int, listed, false, now) + wanted_blocks(
                mid,
                mid.len() as int,
                listed,
                true,
                now,
            ))
        }
    }
}

/// What storing `data` as block `block_idx` of piece `piece_idx` makes of `before`, `r`
/// being the outcome: refused (and nothing changes) when the size is wrong for the block or
/// the piece is not being downloaded; otherwise the block is stored, and when it was the
/// last one missing the piece leaves and is handed back whole, in block order.
pub open spec fn block_added(
    before: PendingPieces,
    after: PendingPieces,
    piece_idx: usize,
    block_idx: usize,
    data: Vec<u8>,
    r: AddBlockRes,
) -> bool {
    &&& after.wf()
    &&& after.owner() == before.owner()
    &&& after.spec_piece_length() == before.spec_piece_length()
    &&& !block_fits(
        before.spec_piece_length() as int,
        before.spec_blocks_per_piece() as int,
        block_idx as int,
        data@.len() as int,
    ) ==> r is Failed && after.pieces() == before.pieces()
    &&& block_fits(
        before.spec_piece_length() as int,
        before.spec_blocks_per_piece() as int,
        block_idx as int,
        data@.len() as int,
    ) && find_piece(before.pieces(), piece_idx) is None ==> r is Failed && after.pieces() == before.pieces()
    &&& block_fits(
        before.spec_piece_length() as int,
        before.spec_blocks_per_piece() as int,
        block_idx as int,
        data@.len() as int,
    ) && find_piece(before.pieces(), piece_idx) is Some ==> {
        let i = find_piece(before.pieces(), piece_idx)->0;
        let updated = before.pieces()[i].blocks@.update(
            block_idx as int,
            Block::Downloaded(data),
        );
        if count_downloaded(updated, before.spec_blocks_per_piece() as int)
            == before.spec_blocks_per_piece() {
            &&& r matches AddBlockRes::AddedLast(fp) && fp.idx == piece_idx
                && fp.data@.len() == before.spec_blocks_per_piece() && forall|b: int|
                0 <= b < fp.data@.len() ==> #[trigger] fp.data@[b]@ == block_bytes(updated[b])
            &&& after.pieces() == before.pieces().remove(i)
        } else {
            &&& r is Added
            &&& after.pieces().len() == before.pieces().len()
            &&& forall|j: int|
                0 <= j < before.pieces().len() && j != i ==> #[trigger] after.pieces()[j] == before.pieces()[j]
            &&& after.pieces()[i].idx == piece_idx
            &&& after.pieces()[i].blocks@ == updated
        }
    }
}

impl PendingPieces {
    /// Checks that `data` has the size block `block_idx` must have.
    pub fn check_block_bounds(&self, block_idx: usize, data: &[u8]) -> (r: Result<(), BlockBoundsError>)
        requires
            self.wf(),
        ensures
            block_idx >= self.spec_blocks_per_piece() ==> r == Err::<(), BlockBoundsError>(
                BlockBoundsError::OutOfBounds {
                    block_idx,
                    blocks_per_piece: self.spec_blocks_per_piece(),
                },
            ),
            block_idx < self.spec_blocks_per_piece() ==> {
                let e = expected_block_size(
                    self.spec_piece_length() as int,
                    self.spec_blocks_per_piece() as int,
                    block_idx as int,
                );
                &&& e > data@.len() ==> r == Err::<(), BlockBoundsError>(
                    BlockBoundsError::TooSmall { expected: e as usize, found: data@.len() as usize },
                )
                &&& e < data@.len() ==> r == Err::<(), BlockBoundsError>(
                    BlockBoundsError::TooLarge { expected: e as usize, found: data@.len() as usize },
                )
                &&& e == data@.len() ==> r is Ok
            },
    {
        if block_idx >= self.blocks_per_piece {
            return Err(
                BlockBoundsError::OutOfBounds { block_idx, blocks_per_piece: self.blocks_per_piece },
            );
        }
        let last_block_in_piece = block_idx + 1 == self.blocks_per_piece;
        let block_size = if last_block_in_piece {
            self.piece_length % BLOCK_SIZE
        } else {
            BLOCK_SIZE
        };
        if block_size > data.len() {
            Err(BlockBoundsError::TooSmall { expected: block_size, found: data.len() })
        } else if block_size < data.len() {
            Err(BlockBoundsError::TooLarge { expected: block_size, found: data.len() })
        } else {
            Ok(())
        }
    }

    /// Stores a received block. Refused when its size is wrong for its place or its piece
    /// is not being downloaded; when it was the last block missing, the piece leaves and is
    /// handed back whole.
    pub fn add_block_data(&mut self, piece_idx: usize, block_idx: usize, block_data: Vec<u8>) -> (r:
        AddBlockRes)
        requires
            old(self).wf(),
        ensures
            block_added(*old(self), *final(self), piece_idx, block_idx, block_data, r),
    {
        if self.check_block_bounds(block_idx, block_data.as_slice()).is_err() {
            return AddBlockRes::Failed;
        }
        let pos = match self.position_of(piece_idx) {
            Some(p) => p,
            None => {
                return AddBlockRes::Failed;
            },
        };
        let ghost old_data = self.data@;
        let ghost bpp = self.blocks_per_piece as int;
        proof {
            assert(piece_wf(old_data[pos as int], bpp));
        }
        let mut piece = PieceState { idx: 0, pending: 0, downloaded: 0, blocks: Vec::new() };
        std::mem::swap(&mut self.data[pos], &mut piece);
        let ghost old_blocks = piece.blocks@;
        let was_downloaded = matches!(piece.blocks[block_idx], Block::Downloaded(_));
        let was_pending = matches!(piece.blocks[block_idx], Block::Pending { .. });
        piece.blocks.set(block_idx, Block::Downloaded(block_data));
        proof {
            lemma_count_update(old_blocks, block_idx as int, piece.blocks@[block_idx as int], bpp);
            lemma_count_bound(piece.blocks@, bpp);
        }
        if !was_downloaded {
            piece.downloaded = piece.downloaded + 1;
        }
        if was_pending {
            piece.pending = piece.pending - 1;
        }
        if piece.downloaded == self.blocks_per_piece {
            let _ = self.data.remove(pos);
            proof {
                assert(self.data@ == old_data.remove(pos as int));
                lemma_pieces_wf_remove(old_data, bpp, pos as int);
            }
            let data = finished_blocks(piece.blocks);
            AddBlockRes::AddedLast(FinishedPiece { idx: piece_idx, data })
        } else {
            self.data.set(pos, piece);
            proof {
                assert(self.data@ == old_data.update(pos as int, piece));
                lemma_pieces_wf_update(old_data, bpp, pos as int, piece);
            }
            AddBlockRes::Added
        }
    }

    /// Forgets every request made of `from`: its pending blocks are unbegun again.
    pub fn cancel_pending(&mut self, from: &Peer)
        requires
            old(self).wf(),
        ensures
            final(self).wf(),
            final(self).owner() == old(self).owner(),
            final(self).spec_piece_length() == old(self).spec_piece_length(),
            final(self).pieces().len() == old(self).pieces().len(),
            forall|i: int|
                0 <= i < old(self).pieces().len() ==> #[trigger] cancelled_piece(
                    old(self).pieces()[i],
                    final(self).pieces()[i],
                    *from,
                ),
    {
        let ghost old_data = self.data@;
        let ghost bpp = self.blocks_per_piece as int;
        let mut i: usize = 0;
        while i < self.data.len()
            invariant
                self.wf(),
                self.owner() == old(self).owner(),
                self.spec_piece_length() == old(self).spec_piece_length(),
                old_data == old(self).pieces(),
                bpp == self.spec_blocks_per_piece(),
                self.data@.len() == old_data.len(),
                0 <= i <= self.data@.len(),
                forall|j: int| 0 <= j < i ==> #[trigger] cancelled_piece(old_data[j], self.data@[j], *from),
                forall|j: int| i <= j < old_data.len() ==> #[trigger] self.data@[j] == old_data[j],
            decreases self.data@.len() - i,
        {
            let ghost before_data = self.data@;
            proof {
                assert(piece_wf(before_data[i as int], bpp));
                assert(before_data[i as int] == old_data[i as int]);
            }
            let mut piece = PieceState { idx: 0, pending: 0, downloaded: 0, blocks: Vec::new() };
            std::mem::swap(&mut self.data[i], &mut piece);
            let mut b: usize = 0;
            while b < piece.blocks.len()
                invariant
                    0 <= b <= piece.blocks@.len(),
                    piece.blocks@.len() == bpp,
                    piece.idx == old_data[i as int].idx,
                    old_data[i as int].blocks@.len() == bpp,
                    piece_wf(piece, bpp),
                    forall|k: int|
                        0 <= k < bpp ==> #[trigger] piece.blocks@[k] == if k < b {
                            cancelled(old_data[i as int].blocks@[k], *from)
                        } else {
                            old_data[i as int].blocks@[k]
                        },
                decreases bpp - b,
            {
                let hit = piece.blocks[b].is_expected_from(from);
                if hit {
                    let ghost before = piece.blocks@;
                    piece.blocks.set(b, Block::Unbegun);
                    proof {
                        lemma_count_update(before, b as int, Block::Unbegun, bpp);
                    }
                    piece.pending = piece.pending - 1;
                }
                b += 1;
            }
            self.data.set(i, piece);
            proof {
                assert(self.data@ == before_data.update(i as int, piece));
                lemma_pieces_wf_update(before_data, bpp, i as int, piece);
                assert(cancelled_piece(old_data[i as int], self.data@[i as int], *from));
                assert forall|j: int| 0 <= j < i + 1 implies #[trigger] cancelled_piece(
                    old_data[j],
                    self.data@[j],
                    *from,
                ) by {
                    if j < i {
                        assert(self.data@[j] == before_data[j]);
                    }
                }
            }
            i += 1;
        }
    }

    /// Marks as requested from the owner, at `now`, every wanted block of the listed pieces,
    /// and appends their addresses to `block_buf` in order: the unbegun blocks, or with
    /// `expired_pass` the pending blocks whose request has timed out.
    pub fn claim_blocks(
        &mut self,
        listed: &[usize],
        expired_pass: bool,
        now: u64,
        block_buf: &mut Vec<BlockAddress>,
    )
        requires
            old(self).wf(),
            old(self).owner() is Some,
        ensures
            final(self).wf(),
            final(self).owner() == old(self).owner(),
            final(self).spec_piece_length() == old(self).spec_piece_length(),
            claimed(
                old(self).pieces(),
                final(self).pieces(),
                listed@,
                expired_pass,
                now,
                old(self).owner()->0,
            ),
            final(block_buf)@ == old(block_buf)@ + wanted_blocks(
                old(self).pieces(),
                old(self).pieces().len() as int,
                listed@,
                expired_pass,
                now,
            ),
    {
        let ghost old_data = self.data@;
        let ghost bpp = self.blocks_per_piece as int;
        let ghost old_buf = block_buf@;
        let owner = match self.copy_owner {
            Some(o) => o,
            None => {
                return;
            },
        };
        let mut i: usize = 0;
        while i < self.data.len()
            invariant
                self.wf(),
                self.owner() == old(self).owner(),
                self.owner() == Some(owner),
                self.spec_piece_length() == old(self).spec_piece_length(),
                old_data == old(self).pieces(),
                bpp == self.spec_blocks_per_piece(),
                self.data@.len() == old_data.len(),
                0 <= i <= self.data@.len(),
                block_buf@ == old_buf + wanted_blocks(old_data, i as int, listed@, expired_pass, now),
                forall|j: int|
                    0 <= j < i ==> #[trigger] claimed_piece(
                        old_data[j],
                        self.data@[j],
                        listed@,
                        expired_pass,
                        now,
                        owner,
                    ),
                forall|j: int| i <= j < old_data.len() ==> #[trigger] self.data@[j] == old_data[j],
            decreases self.data@.len() - i,
        {
            let ghost before_data = self.data@;
            proof {
                assert(piece_wf(before_data[i as int], bpp));
                assert(before_data[i as int] == old_data[i as int]);
            }
            let is_listed = contains_index(listed, self.data[i].idx);
            let mut piece = PieceState { idx: 0, pending: 0, downloaded: 0, blocks: Vec::new() };
            std::mem::swap(&mut self.data[i], &mut piece);
            let ghost old_blocks = piece.blocks@;
            let ghost buf_at_piece = block_buf@;
            if is_listed {
                let mut b: usize = 0;
                while b < piece.blocks.len()
                    invariant
                        0 <= b <= piece.blocks@.len(),
                        piece.blocks@.len() == bpp,
                        old_blocks.len() == bpp,
                        piece.idx == old_data[i as int].idx,
                        old_blocks == old_data[i as int].blocks@,
                        piece.downloaded == old_data[i as int].downloaded,
                        piece_wf(piece, bpp),
                        forall|k: int|
                            0 <= k < bpp ==> #[trigger] piece.blocks@[k] == if k < b {
                                claim_block(old_blocks[k], expired_pass, now, owner)
                            } else {
                                old_blocks[k]
                            },
                        block_buf@ == buf_at_piece + wanted_in_piece(
                            piece.idx,
                            old_blocks,
                            b as int,
                            expired_pass,
                            now,
                        ),
                    decreases bpp - b,
                {
                    let take = if expired_pass {
                        piece.blocks[b].is_expired_pending(now)
                    } else {
                        matches!(piece.blocks[b], Block::Unbegun)
                    };
                    if take {
                        let ghost before = piece.blocks@;
                        let was_unbegun = matches!(piece.blocks[b], Block::Unbegun);
                        piece.blocks.set(b, Block::Pending { target: owner, time_sent: now });
                        proof {
                            lemma_count_update(before, b as int, piece.blocks@[b as int], bpp);
                            lemma_count_bound(piece.blocks@, bpp);
                        }
                        if was_unbegun {
                            piece.pending = piece.pending + 1;
                        }
                        block_buf.push(BlockAddress::new(piece.idx, b));
                    }
                    b += 1;
                }
            }
            self.data.set(i, piece);
            proof {
                assert(self.data@ == before_data.update(i as int, piece));
                lemma_pieces_wf_update(before_data, bpp, i as int, piece);
                assert(block_buf@ == old_buf + wanted_blocks(old_data, i + 1, listed@, expired_pass, now));
                assert(claimed_piece(old_data[i as int], self.data@[i as int], listed@, expired_pass, now, owner));
                assert forall|j: int| 0 <= j < i + 1 implies #[trigger] claimed_piece(
                    old_data[j],
                    self.data@[j],
                    listed@,
                    expired_pass,
                    now,
                    owner,
                ) by {
                    if j < i {
                        assert(self.data@[j] == before_data[j]);
                    }
                }
            }
            i += 1;
        }
    }

    /// Hands the owner the blocks of the listed pieces that are due: first every unbegun
    /// block, then, unless `block_buf` came to be exactly full, every block whose request
    /// timed out. Each is marked requested now and its address appended to `block_buf`.
    pub fn take_not_good_blocks(&mut self, pieces: Vec<usize>, block_buf: &mut Vec<BlockAddress>)
        requires
            old(self).wf(),
            old(self).owner() is Some,
        ensures
            final(self).wf(),
            final(self).owner() == old(self).owner(),
            final(self).spec_piece_length() == old(self).spec_piece_length(),
            exists|now: u64|
                took_blocks(
                    old(self).pieces(),
                    final(self).pieces(),
                    old(block_buf)@,
                    final(block_buf)@,
                    pieces@,
                    now,
                    old(self).owner()->0,
                ),
    {
        let now = now_millis();
        let ghost d0 = self.data@;
        let ghost buf0 = block_buf@;
        self.claim_blocks(pieces.as_slice(), false, now, block_buf);
        let ghost mid = self.data@;
        if buffer_capacity(block_buf) != block_buf.len() {
            self.claim_blocks(pieces.as_slice(), true, now, block_buf);
        }
        assert(took_blocks(d0, self.data@, buf0, block_buf@, pieces@, now, self.owner()->0));
    }
}

impl Block {
    /// A pending block whose request is older than the timeout at `now` (milliseconds).
    pub fn is_expired_pending(&self, now: u64) -> (r: bool)
        ensures
            r == is_expired(*self, now),
    {
        match self {
            Block::Pending { time_sent, .. } => now > *time_sent && now - *time_sent
                > MAINLINE_TCP_REQUEST_TIMEOUT_MILLIS,
            _ => false,
        }
    }

    /// A pending block that was requested from `target`.
    pub fn is_expected_from(&self, target: &Peer) -> (r: bool)
        ensures
            r == (*self matches Block::Pending { target: t, .. } && t == *target),
    {
        match self {
            Block::Pending { target: t, .. } => *t == *target,
            _ => false,
        }
    }
}

/// Whether `x` occurs in `s`.
fn contains_index(s: &[usize], x: usize) -> (r: bool)
    ensures
        r == s@.contains(x),
{
    let mut i: usize = 0;
    while i < s.len()
        invariant
            0 <= i <= s@.len(),
            forall|k: int| 0 <= k < i ==> s@[k] != x,
        decreases s@.len() - i,
    {
        if s[i] == x {
            assert(s@[i as int] == x);
            return true;
        }
        i += 1;
    }
    false
}

/// The bytes of each block, in order.
fn finished_blocks(blocks: Vec<Block>) -> (r: Vec<Vec<u8>>)
    ensures
        r@.len() == blocks@.len(),
        forall|b: int| 0 <= b < r@.len() ==> #[trigger] r@[b]@ == block_bytes(blocks@[b]),
{
    let ghost orig = blocks@;
    let mut blocks = blocks;
    let mut out: Vec<Vec<u8>> = Vec::new();
    let mut i: usize = 0;
    while i < blocks.len()
        invariant
            0 <= i <= blocks@.len(),
            blocks@.len() == orig.len(),
            out@.len() == i,
            forall|k: int| i <= k < orig.len() ==> #[trigger] blocks@[k] == orig[k],
            forall|k: int| 0 <= k < i ==> #[trigger] out@[k]@ == block_bytes(orig[k]),
        decreases orig.len() - i,
    {
        let mut taken = Block::Unbegun;
        std::mem::swap(&mut blocks[i], &mut taken);
        match taken {
            Block::Downloaded(v) => out.push(v),
            _ => out.push(Vec::new()),
        }
        i += 1;
    }
    out
}

/// How many addresses the buffer can hold without reallocating.
///
/// Wraps `Vec::capacity`; nothing is promised of the result, which depends on the allocator.
#[verifier::external_body]
fn buffer_capacity(v: &Vec<BlockAddress>) -> usize {
    v.capacity()
}

proof fn lemma_count_update(s: Seq<Block>, k: int, v: Block, n: int)
    requires
        0 <= k < n <= s.len(),
    ensures
        count_downloaded(s.update(k, v), n) + (if s[k] is Downloaded {
            1int
        } else {
            0int
        }) == count_downloaded(s, n) + (if v is Downloaded {
            1int
        } else {
            0int
        }),
        count_pending(s.update(k, v), n) + (if s[k] is Pending {
            1int
        } else {
            0int
        }) == count_pending(s, n) + (if v is Pending {
            1int
        } else {
            0int
        }),
    decreases n,
{
    if n - 1 > k {
        lemma_count_update(s, k, v, n - 1);
    } else {
        lemma_count_prefix_eq(s.update(k, v), s, k);
    }
}

proof fn lemma_pieces_wf_update(d: Seq<PieceState>, bpp: int, i: int, p: PieceState)
    requires
        pieces_wf(d, bpp),
        0 <= i < d.len(),
        piece_wf(p, bpp),
        p.idx == d[i].idx,
    ensures
        pieces_wf(d.update(i, p), bpp),
{
    let e = d.update(i, p);
    assert forall|a: int, c: int| 0 <= a < c < e.len() implies #[trigger] e[a].idx != #[trigger] e[c].idx by {
        assert(d[a].idx != d[c].idx);
    }
    assert forall|a: int| 0 <= a < e.len() implies #[trigger] piece_wf(e[a], bpp) by {
        if a != i {
            assert(piece_wf(d[a], bpp));
        }
    }
}

proof fn lemma_pieces_wf_remove(d: Seq<PieceState>, bpp: int, i: int)
    requires
        pieces_wf(d, bpp),
        0 <= i < d.len(),
    ensures
        pieces_wf(d.remove(i), bpp),
{
    let e = d.remove(i);
    assert forall|a: int, c: int| 0 <= a < c < e.len() implies #[trigger] e[a].idx != #[trigger] e[c].idx by {
        let a2 = if a < i { a } else { a + 1 };
        let c2 = if c < i { c } else { c + 1 };
        assert(e[a] == d[a2]);
        assert(e[c] == d[c2]);
        assert(d[a2].idx != d[c2].idx);
    }
    assert forall|a: int| 0 <= a < e.len() implies #[trigger] piece_wf(e[a], bpp) by {
        let a2 = if a < i { a } else { a + 1 };
        assert(e[a] == d[a2]);
        assert(piece_wf(d[a2], bpp));
    }
}

proof fn lemma_count_bound(s: Seq<Block>, n: int)
    requires
        0 <= n <= s.len(),
    ensures
        count_downloaded(s, n) <= n,
        count_pending(s, n) <= n,
    decreases n,
{
    if n > 0 {
        lemma_count_bound(s, n - 1);
    }
}

/// The blocks after storing, one after the other, the blocks `order[0..k]`, block `j`
/// receiving the bytes `datas[j]`.
pub open spec fn blocks_stored(blocks: Seq<Block>, order: Seq<int>, datas: Seq<Vec<u8>>, k: int) -> Seq<Block>
    decreases k,
{
    if k <= 0 {
        blocks
    } else {
        blocks_stored(blocks, order, datas, k - 1).update(
            order[k - 1],
            Block::Downloaded(datas[order[k - 1]]),
        )
    }
}

/// `order` names each of the blocks `0..n` exactly once.
pub open spec fn is_block_order(order: Seq<int>, n: int) -> bool {
    &&& order.len() == n
    &&& forall|i: int| 0 <= i < n ==> 0 <= #[trigger] order[i] < n
    &&& forall|i: int, j: int| 0 <= i < j < n ==> #[trigger] order[i] != #[trigger] order[j]
    &&& forall|b: int| 0 <= b < n ==> #[trigger] names_block(order, n, b)
}

/// Some entry of `order` is block `b`.
pub open spec fn names_block(order: Seq<int>, n: int, b: int) -> bool {
    exists|i: int| 0 <= i < n && #[trigger] order[i] == b
}

proof fn lemma_none_downloaded(s: Seq<Block>, n: int)
    requires
        0 <= n <= s.len(),
        forall|b: int| 0 <= b < n ==> !(#[trigger] s[b] is Downloaded),
    ensures
        count_downloaded(s, n) == 0,
    decreases n,
{
    if n > 0 {
        lemma_none_downloaded(s, n - 1);
    }
}

/// After `k` blocks of the order are stored, `k` blocks are downloaded: those of the order's
/// first `k`, each with its bytes, and none of the rest.
proof fn lemma_stored_prefix(blocks: Seq<Block>, order: Seq<int>, datas: Seq<Vec<u8>>, n: int, k: int)
    requires
        blocks.len() == n,
        forall|b: int| 0 <= b < n ==> !(#[trigger] blocks[b] is Downloaded),
        is_block_order(order, n),
        datas.len() == n,
        0 <= k <= n,
    ensures
        blocks_stored(blocks, order, datas, k).len() == n,
        count_downloaded(blocks_stored(blocks, order, datas, k), n) == k,
        forall|i: int| 0 <= i < k ==> #[trigger] blocks_stored(blocks, order, datas, k)[order[i]]
            == Block::Downloaded(datas[order[i]]),
        forall|i: int| k <= i < n ==> !(#[trigger] blocks_stored(blocks, order, datas, k)[order[i]] is Downloaded),
    decreases k,
{
    if k == 0 {
        lemma_none_downloaded(blocks, n);
        assert forall|i: int| k <= i < n implies !(#[trigger] blocks_stored(blocks, order, datas, k)[order[i]] is Downloaded) by {
            assert(0 <= order[i] < n);
        }
    } else {
        lemma_stored_prefix(blocks, order, datas, n, k - 1);
        let prev = blocks_stored(blocks, order, datas, k - 1);
        let at = order[k - 1];
        assert(0 <= at < n);
        assert(!(prev[order[k - 1]] is Downloaded));
        lemma_count_update(prev, at, Block::Downloaded(datas[at]), n);
        let cur = blocks_stored(blocks, order, datas, k);
        assert(cur == prev.update(at, Block::Downloaded(datas[at])));
        assert forall|i: int| 0 <= i < k implies #[trigger] cur[order[i]] == Block::Downloaded(datas[order[i]]) by {
            if i < k - 1 {
                assert(order[i] != order[k - 1]);
                assert(0 <= order[i] < n);
            }
        }
        assert forall|i: int| k <= i < n implies !(#[trigger] cur[order[i]] is Downloaded) by {
            assert(order[k - 1] != order[i]);
            assert(0 <= order[i] < n);
            assert(!(prev[order[i]] is Downloaded));
        }
    }
}

/// Storing every block of a piece none of whose blocks has arrived, each once and in any
/// order: each store but the last leaves blocks missing (so `add_block_data` answers
/// `Added`), the last completes the piece (so it answers `AddedLast`), and the blocks then
/// hold the bytes stored in block order, which is how the finished piece hands them back.
pub proof fn lemma_whole_piece(blocks: Seq<Block>, order: Seq<int>, datas: Seq<Vec<u8>>, n: int)
    requires
        blocks.len() == n,
        forall|b: int| 0 <= b < n ==> !(#[trigger] blocks[b] is Downloaded),
        is_block_order(order, n),
        datas.len() == n,
    ensures
        forall|k: int| 0 <= k < n - 1 ==> count_downloaded(#[trigger] blocks_stored(blocks, order, datas, k + 1), n) < n,
        count_downloaded(blocks_stored(blocks, order, datas, n), n) == n,
        forall|b: int| 0 <= b < n ==> #[trigger] block_bytes(blocks_stored(blocks, order, datas, n)[b]) == datas[b]@,
{
    assert forall|k: int| 0 <= k < n - 1 implies count_downloaded(#[trigger] blocks_stored(blocks, order, datas, k + 1), n) < n by {
        lemma_stored_prefix(blocks, order, datas, n, k + 1);
    }
    lemma_stored_prefix(blocks, order, datas, n, n);
    assert forall|b: int| 0 <= b < n implies #[trigger] block_bytes(blocks_stored(blocks, order, datas, n)[b]) == datas[b]@ by {
        assert(names_block(order, n, b));
        let i = choose|i: int| 0 <= i < n && #[trigger] order[i] == b;
        assert(blocks_stored(blocks, order, datas, n)[order[i]] == Block::Downloaded(datas[order[i]]));
    }
}

/// In a state whose pieces have distinct indices, the piece `idx` is found where it is.
proof fn lemma_find_piece_at(d: Seq<PieceState>, bpp: int, idx: usize, i: int)
    requires
        pieces_wf(d, bpp),
        0 <= i < d.len(),
        d[i].idx == idx,
    ensures
        find_piece(d, idx) == Some(i),
{
    let c = choose|c: int| 0 <= c < d.len() && d[c].idx == idx;
    if c < i {
        assert(d[c].idx != d[i].idx);
    } else if c > i {
        assert(d[i].idx != d[c].idx);
    }
}

/// One step of a run of `add_block_data` calls storing the blocks of piece `piece_idx` in
/// the order `order`: before step `k`, the piece is still at its place `i0` with the blocks
/// stored so far, and the other pieces are as they were.
proof fn lemma_piece_run_from(
    ps: Seq<PendingPieces>,
    rs: Seq<AddBlockRes>,
    piece_idx: usize,
    order: Seq<int>,
    datas: Seq<Vec<u8>>,
    i0: int,
    k: int,
)
    requires
        ({
            let n = ps[0].spec_blocks_per_piece() as int;
            &&& ps.len() == n + 1
            &&& rs.len() == n
            &&& ps[0].wf()
            &&& find_piece(ps[0].pieces(), piece_idx) == Some(i0)
            &&& forall|b: int| 0 <= b < n ==> !(#[trigger] ps[0].pieces()[i0].blocks@[b] is Downloaded)
            &&& is_block_order(order, n)
            &&& datas.len() == n
            &&& forall|j: int| 0 <= j < n ==> block_fits(
                ps[0].spec_piece_length() as int,
                n,
                j,
                (#[trigger] datas[j])@.len() as int,
            )
            &&& forall|j: int| 0 <= j < n ==> #[trigger] block_added(
                ps[j],
                ps[j + 1],
                piece_idx,
                order[j] as usize,
                datas[order[j]],
                rs[j],
            )
            &&& 0 <= k < n
            &&& ps[k].wf()
            &&& ps[k].spec_piece_length() == ps[0].spec_piece_length()
            &&& ps[k].pieces().len() == ps[0].pieces().len()
            &&& forall|j: int| 0 <= j < ps[0].pieces().len() && j != i0 ==> #[trigger] ps[k].pieces()[j] == ps[0].pieces()[j]
            &&& ps[k].pieces()[i0].idx == piece_idx
            &&& ps[k].pieces()[i0].blocks@ == blocks_stored(ps[0].pieces()[i0].blocks@, order, datas, k)
        }),
    ensures
        forall|j: int| k <= j < ps[0].spec_blocks_per_piece() - 1 ==> #[trigger] rs[j] is Added,
        ({
            let n = ps[0].spec_blocks_per_piece() as int;
            &&& rs[n - 1] matches AddBlockRes::AddedLast(fp) && fp.idx == piece_idx && fp.data@.len()
                == n && forall|b: int| 0 <= b < n ==> #[trigger] fp.data@[b]@ == datas[b]@
            &&& ps[n].pieces() == ps[0].pieces().remove(i0)
        }),
    decreases ps[0].spec_blocks_per_piece() - k,
{
    let n = ps[0].spec_blocks_per_piece() as int;
    let b0 = ps[0].pieces()[i0].blocks@;
    assert(piece_wf(ps[0].pieces()[i0], n));
    lemma_find_piece_at(ps[k].pieces(), n, piece_idx, i0);
    let at = order[k];
    assert(0 <= order[k] < n);
    assert(block_fits(ps[0].spec_piece_length() as int, n, at, datas[at]@.len() as int));
    assert(block_added(ps[k], ps[k + 1], piece_idx, order[k] as usize, datas[order[k]], rs[k]));
    lemma_stored_prefix(b0, order, datas, n, k + 1);
    let updated = ps[k].pieces()[i0].blocks@.update(at, Block::Downloaded(datas[at]));
    assert(updated == blocks_stored(b0, order, datas, k + 1));
    if k + 1 < n {
        assert(rs[k] is Added);
        let next = ps[k + 1].pieces();
        assert forall|j: int| 0 <= j < ps[0].pieces().len() && j != i0 implies #[trigger] next[j] == ps[0].pieces()[j] by {
            assert(next[j] == ps[k].pieces()[j]);
        }
        lemma_piece_run_from(ps, rs, piece_idx, order, datas, i0, k + 1);
    } else {
        lemma_whole_piece(b0, order, datas, n);
        assert(ps[n].pieces() =~= ps[0].pieces().remove(i0));
    }
}

/// Storing every block of a pending piece, none of which had arrived, one call of
/// `add_block_data` per block in any order, each block of the size its place asks for:
/// every call but the last answers `Added`, the last answers `AddedLast` with the piece's
/// blocks in block order, and the piece is then no longer pending while the other pieces
/// are as they were. `ps[j]` is the state before call `j` and `rs[j]` its answer.
pub proof fn lemma_piece_from_blocks(
    ps: Seq<PendingPieces>,
    rs: Seq<AddBlockRes>,
    piece_idx: usize,
    order: Seq<int>,
    datas: Seq<Vec<u8>>,
)
    requires
        ({
            let n = ps[0].spec_blocks_per_piece() as int;
            &&& ps.len() == n + 1
            &&& rs.len() == n
            &&& ps[0].wf()
            &&& find_piece(ps[0].pieces(), piece_idx) is Some
            &&& forall|b: int| 0 <= b < n ==> !(#[trigger] ps[0].pieces()[find_piece(ps[0].pieces(), piece_idx)->0].blocks@[b] is Downloaded)
            &&& is_block_order(order, n)
            &&& datas.len() == n
            &&& forall|j: int| 0 <= j < n ==> block_fits(
                ps[0].spec_piece_length() as int,
                n,
                j,
                (#[trigger] datas[j])@.len() as int,
            )
            &&& forall|j: int| 0 <= j < n ==> #[trigger] block_added(
                ps[j],
                ps[j + 1],
                piece_idx,
                order[j] as usize,
                datas[order[j]],
                rs[j],
            )
        }),
    ensures
        forall|j: int| 0 <= j < ps[0].spec_blocks_per_piece() - 1 ==> #[trigger] rs[j] is Added,
        ({
            let n = ps[0].spec_blocks_per_piece() as int;
            &&& rs[n - 1] matches AddBlockRes::AddedLast(fp) && fp.idx == piece_idx && fp.data@.len()
                == n && forall|b: int| 0 <= b < n ==> #[trigger] fp.data@[b]@ == datas[b]@
            &&& ps[n].pieces() == ps[0].pieces().remove(find_piece(ps[0].pieces(), piece_idx)->0)
        }),
{
    let i0 = find_piece(ps[0].pieces(), piece_idx)->0;
    let n = ps[0].spec_blocks_per_piece() as int;
    assert(0 <= i0 < ps[0].pieces().len() && ps[0].pieces()[i0].idx == piece_idx);
    assert(n >= 1);
    lemma_piece_run_from(ps, rs, piece_idx, order, datas, i0, 0);
}

/// Storing block `block_idx` of piece `piece_idx` would leave the piece with blocks still
/// missing: the piece is being downloaded and at least one other of its blocks has not
/// arrived.
pub open spec fn stores_partially(p: PendingPieces, piece_idx: usize, block_idx: usize) -> bool {
    &&& block_idx < p.spec_blocks_per_piece()
    &&& find_piece(p.pieces(), piece_idx) matches Some(i)
    &&& count_downloaded(p.pieces()[i].blocks@, p.spec_blocks_per_piece() as int) + (if p.pieces()[i].blocks@[block_idx as int] is Downloaded {
        0int
    } else {
        1int
    }) != p.spec_blocks_per_piece()
}

/// Storing a block leaves its piece unfinished exactly when `stores_partially` says so.
pub proof fn lemma_stores_partially(p: PendingPieces, piece_idx: usize, block_idx: usize, data: Vec<u8>)
    requires
        p.wf(),
        block_idx < p.spec_blocks_per_piece(),
        find_piece(p.pieces(), piece_idx) is Some,
    ensures
        stores_partially(p, piece_idx, block_idx) == (count_downloaded(
            p.pieces()[find_piece(p.pieces(), piece_idx)->0].blocks@.update(block_idx as int, Block::Downloaded(data)),
            p.spec_blocks_per_piece() as int,
        ) != p.spec_blocks_per_piece()),
{
    let i = find_piece(p.pieces(), piece_idx)->0;
    let bpp = p.spec_blocks_per_piece() as int;
    assert(piece_wf(p.pieces()[i], bpp));
    lemma_count_update(p.pieces()[i].blocks@, block_idx as int, Block::Downloaded(data), bpp);
}

impl PendingPieces {
    /// Whether storing block `block_idx` of piece `piece_idx` would leave the piece with
    /// blocks still missing.
    pub fn stores_partially(&self, piece_idx: usize, block_idx: usize) -> (r: bool)
        requires
            self.wf(),
        ensures
            r == stores_partially(*self, piece_idx, block_idx),
    {
        if block_idx >= self.blocks_per_piece {
            return false;
        }
        match self.position_of(piece_idx) {
            Some(i) => {
                proof {
                    assert(piece_wf(self.pieces()[i as int], self.spec_blocks_per_piece() as int));
                    lemma_count_bound(self.pieces()[i as int].blocks@, self.spec_blocks_per_piece() as int);
                }
                let already = matches!(self.data[i].blocks[block_idx], Block::Downloaded(_));
                let after = if already {
                    self.data[i].downloaded
                } else {
                    self.data[i].downloaded + 1
                };
                after != self.blocks_per_piece
            },
            None => false,
        }
    }
}

/// `add_piece` refused a new piece: ten are already pending.
#[derive(Debug, Clone, Copy, PartialEq, Eq, Structural)]
pub struct PendingFull;

proof fn lemma_count_prefix_eq(a: Seq<Block>, b: Seq<Block>, n: int)
    requires
        0 <= n <= a.len(),
        n <= b.len(),
        forall|k: int| 0 <= k < n ==> (a[k] is Downloaded) == (b[k] is Downloaded),
        forall|k: int| 0 <= k < n ==> (a[k] is Pending) == (b[k] is Pending),
    ensures
        count_downloaded(a, n) == count_downloaded(b, n),
        count_pending(a, n) == count_pending(b, n),
    decreases n,
{
    if n > 0 {
        lemma_count_prefix_eq(a, b, n - 1);
    }
}

} // verus!
