//! What the download manager of a torrent knows of its peers and pieces, and the decisions
//! it takes on what they report.
use vstd::prelude::*;
use crate::bitmap::{Bitmap, bit_at, bits_of, popcount_seq, popcount8, with_bit, lemma_popcount_seq_bound};
use crate::id::ID;
use crate::peer::{Peer, Peers, Status, upsert_all, batch_indices, lemma_batch_picks_idle_peers, lemma_upsert_all_keeps};
use crate::peer_message::{Message, NoSizeBytes, Request};
use crate::pending_pieces::FinishedPiece;

verus! {

pub const MAX_ACTIVE_PEERS: usize = 10;
pub const MAX_ACTIVE_PIECES: usize = 9;
pub const MAX_PIECE_PER_PEER: usize = 4;
pub const MAX_PEER_PER_PIECE: usize = 3;

/// What a peer connection reports to the manager.
#[derive(Debug)]
pub enum ConMessageType {
    Unreachable,
    Disconnected,
    KeepAlive,
    Choke,
    Unchoke,
    Interested,
    NotInterested,
    Have(u32),
    Bitfield(NoSizeBytes),
    Request(Request),
    FinishedPiece(FinishedPiece),
    Cancel(Request),
}

/// A report of a peer connection, with the peer it is about.
#[derive(Debug)]
pub struct ConnectionMessage {
    pub peer: Peer,
    pub message: ConMessageType,
}

/// A wire message the manager does not take: pieces and ports.
#[derive(Debug, Clone, Copy, PartialEq, Eq, Structural)]
pub struct UnhandledMessage;

/// The report for a wire message, if the manager takes it.
pub open spec fn report_of(m: Message) -> Option<ConMessageType> {
    match m {
        Message::KeepAlive => Some(ConMessageType::KeepAlive),
        Message::Choke => Some(ConMessageType::Choke),
        Message::Unchoke => Some(ConMessageType::Unchoke),
        Message::Interested => Some(ConMessageType::Interested),
        Message::NotInterested => Some(ConMessageType::NotInterested),
        Message::Have(v) => Some(ConMessageType::Have(v)),
        Message::Bitfield(v) => Some(ConMessageType::Bitfield(v)),
        Message::Request(v) => Some(ConMessageType::Request(v)),
        Message::Piece(_) => None,
        Message::Cancel(v) => Some(ConMessageType::Cancel(v)),
        Message::Port(_) => None,
    }
}

impl ConMessageType {
    /// The report for a wire message; pieces and ports are refused.
    pub fn from_message(value: Message) -> (r: Result<ConMessageType, UnhandledMessage>)
        ensures
            match report_of(value) {
                Some(c) => r == Ok::<ConMessageType, UnhandledMessage>(c),
                None => r == Err::<ConMessageType, UnhandledMessage>(UnhandledMessage),
            },
    {
        match value {
            Message::KeepAlive => Ok(ConMessageType::KeepAlive),
            Message::Choke => Ok(ConMessageType::Choke),
            Message::Unchoke => Ok(ConMessageType::Unchoke),
            Message::Interested => Ok(ConMessageType::Interested),
            Message::NotInterested => Ok(ConMessageType::NotInterested),
            Message::Have(v) => Ok(ConMessageType::Have(v)),
            Message::Bitfield(v) => Ok(ConMessageType::Bitfield(v)),
            Message::Request(v) => Ok(ConMessageType::Request(v)),
            Message::Piece(_) => Err(UnhandledMessage),
            Message::Cancel(v) => Ok(ConMessageType::Cancel(v)),
            Message::Port(_) => Err(UnhandledMessage),
        }
    }
}

/// What the manager knows of an active peer.
#[derive(Debug)]
pub struct PeerInfo {
    pub choking: bool,
    pub interested: bool,
    pub haves: Bitmap,
    pub working: Bitmap,
}

/// Both bitmaps of the peer have one flag per piece.
pub open spec fn info_wf(p: PeerInfo, n: int) -> bool {
    &&& p.haves.wf()
    &&& p.haves.spec_len() == n
    &&& p.working.wf()
    &&& p.working.spec_len() == n
}

impl PeerInfo {
    /// A choking, uninterested peer that has nothing and works on nothing.
    pub fn new(piece_count: usize) -> (r: Self)
        requires
            piece_count >= 1,
        ensures
            info_wf(r, piece_count as int),
            r.choking,
            !r.interested,
            r.haves.bytes() == Seq::new(r.haves.bytes().len(), |i: int| 0u8),
            r.working.bytes() == Seq::new(r.working.bytes().len(), |i: int| 0u8),
    {
        PeerInfo {
            choking: true,
            interested: false,
            haves: Bitmap::new(piece_count),
            working: Bitmap::new(piece_count),
        }
    }
}

/// The peer has piece `i`.
pub open spec fn has_piece(p: PeerInfo, i: int) -> bool {
    bit_at(p.haves.bytes(), i)
}

/// Number of the peers that have piece `i`.
pub open spec fn count_having(ps: Seq<(Peer, PeerInfo)>, i: int) -> nat
    decreases ps.len(),
{
    if ps.len() == 0 {
        0
    } else {
        count_having(ps.drop_last(), i) + if has_piece(ps.last().1, i) {
            1nat
        } else {
            0nat
        }
    }
}

/// 1 when the peer has piece `i`, else 0.
pub open spec fn piece_bit(p: PeerInfo, i: int) -> int {
    if has_piece(p, i) {
        1
    } else {
        0
    }
}

proof fn lemma_count_bound(ps: Seq<(Peer, PeerInfo)>, i: int)
    ensures
        count_having(ps, i) <= ps.len(),
    decreases ps.len(),
{
    if ps.len() > 0 {
        lemma_count_bound(ps.drop_last(), i);
    }
}

proof fn lemma_count_update(ps: Seq<(Peer, PeerInfo)>, j: int, x: (Peer, PeerInfo), i: int)
    requires
        0 <= j < ps.len(),
    ensures
        count_having(ps.update(j, x), i) == count_having(ps, i) - piece_bit(ps[j].1, i) + piece_bit(x.1, i),
    decreases ps.len(),
{
    if j == ps.len() - 1 {
        assert(ps.update(j, x).drop_last() =~= ps.drop_last());
    } else {
        lemma_count_update(ps.drop_last(), j, x, i);
        assert(ps.update(j, x).drop_last() =~= ps.drop_last().update(j, x));
    }
}

proof fn lemma_count_remove(ps: Seq<(Peer, PeerInfo)>, j: int, i: int)
    requires
        0 <= j < ps.len(),
    ensures
        count_having(ps.remove(j), i) == count_having(ps, i) - piece_bit(ps[j].1, i),
    decreases ps.len(),
{
    if j == ps.len() - 1 {
        assert(ps.remove(j) =~= ps.drop_last());
    } else {
        lemma_count_remove(ps.drop_last(), j, i);
        assert(ps.remove(j).drop_last() =~= ps.drop_last().remove(j));
        assert(ps.remove(j).last() == ps.last());
    }
}

proof fn lemma_count_push(ps: Seq<(Peer, PeerInfo)>, x: (Peer, PeerInfo), i: int)
    ensures
        count_having(ps.push(x), i) == count_having(ps, i) + piece_bit(x.1, i),
{
    assert(ps.push(x).drop_last() =~= ps);
}

proof fn lemma_zero_bytes_no_bits(s: Seq<u8>, i: int)
    requires
        popcount_seq(s) == 0,
        0 <= i < 8 * s.len(),
    ensures
        !bit_at(s, i),
    decreases s.len(),
{
    if s.len() > 0 {
        let b = s.last();
        assert(popcount8(b) == 0 ==> b == 0u8) by (bit_vector);
        if i / 8 == s.len() - 1 {
            let k = (i % 8) as u8;
            assert(b == 0u8 ==> (0x80u8 >> k) & b == 0u8) by (bit_vector);
        } else {
            lemma_zero_bytes_no_bits(s.drop_last(), i);
            assert(s.drop_last()[i / 8] == s[i / 8]);
        }
    }
}

proof fn lemma_new_bitmap_empty(s: Seq<u8>, i: int)
    requires
        s == Seq::new(s.len(), |k: int| 0u8),
        0 <= i < 8 * s.len(),
    ensures
        !bit_at(s, i),
{
    let k = (i % 8) as u8;
    assert(s[i / 8] == 0u8);
    assert((0x80u8 >> k) & 0u8 == 0u8) by (bit_vector);
}

/// Position of `p` among the active peers, if it is one.
pub open spec fn active_index(a: Seq<(Peer, PeerInfo)>, p: Peer) -> Option<int> {
    if exists|j: int| 0 <= j < a.len() && a[j].0 == p {
        Some(choose|j: int| 0 <= j < a.len() && a[j].0 == p)
    } else {
        None
    }
}

/// The list of known peers holds `p` with status `st`.
pub open spec fn has_entry(e: Seq<(Peer, Status)>, p: Peer, st: Status) -> bool {
    exists|i: int| 0 <= i < e.len() && #[trigger] e[i] == (p, st)
}

/// The peers of `s` that are not active, in order.
pub open spec fn not_active(a: Seq<(Peer, PeerInfo)>, s: Seq<Peer>) -> Seq<Peer>
    decreases s.len(),
{
    if s.len() == 0 {
        Seq::empty()
    } else {
        not_active(a, s.drop_last()) + if active_index(a, s.last()) is None {
            seq![s.last()]
        } else {
            Seq::<Peer>::empty()
        }
    }
}

proof fn lemma_not_active(a: Seq<(Peer, PeerInfo)>, s: Seq<Peer>)
    ensures
        forall|k: int| 0 <= k < not_active(a, s).len() ==> active_index(a, #[trigger] not_active(a, s)[k]) is None,
    decreases s.len(),
{
    if s.len() > 0 {
        lemma_not_active(a, s.drop_last());
        let prev = not_active(a, s.drop_last());
        assert forall|k: int| 0 <= k < not_active(a, s).len() implies active_index(a, #[trigger] not_active(a, s)[k]) is None by {
            if k < prev.len() {
                assert(not_active(a, s)[k] == prev[k]);
            }
        }
    }
}

/// The state of a torrent's download: the hash of each piece, the known peers, the active
/// peers with what is known of each, the peers just dropped with why, the pieces held and
/// those being downloaded, and for each piece how many active peers have it.
pub struct TorrentManager {
    own_peer_id: ID,
    piece_hashes: Vec<ID>,
    peers: Peers,
    active_peers: Vec<(Peer, PeerInfo)>,
    inactive_peers: Vec<(Peer, Status)>,
    local_data: Bitmap,
    active_pieces: Bitmap,
    frequency_map: Vec<u16>,
    assigned_peer_count: Vec<u8>,
}

/// `after` is `before` with `peer` dropped for `status`, when it was active.
pub open spec fn inactivated(before: TorrentManager, after: TorrentManager, peer: Peer, status: Status) -> bool {
    &&& after.same_but_peers(before)
    &&& match active_index(before.active(), peer) {
        Some(j) => {
            &&& after.active() == before.active().remove(j)
            &&& after.inactive() == before.inactive().push((peer, status))
            &&& after.frequencies().len() == before.frequencies().len()
            &&& forall|i: int|
                0 <= i < before.piece_count() ==> #[trigger] after.frequencies()[i]
                    == before.frequencies()[i] - piece_bit(before.active()[j].1, i)
        },
        None => {
            &&& after.active() == before.active()
            &&& after.inactive() == before.inactive()
            &&& after.frequencies() == before.frequencies()
        },
    }
}

/// `after` is `before` with the flags of `peer` set as given, when it is active.
pub open spec fn flags_set(
    before: TorrentManager,
    after: TorrentManager,
    peer: Peer,
    choking: Option<bool>,
    interested: Option<bool>,
) -> bool {
    &&& after.same_but_peers(before)
    &&& after.inactive() == before.inactive()
    &&& after.frequencies() == before.frequencies()
    &&& match active_index(before.active(), peer) {
        Some(j) => {
            let info = before.active()[j].1;
            after.active() == before.active().update(
                j,
                (
                    peer,
                    PeerInfo {
                        choking: match choking {
                            Some(c) => c,
                            None => info.choking,
                        },
                        interested: match interested {
                            Some(c) => c,
                            None => info.interested,
                        },
                        ..info
                    },
                ),
            )
        },
        None => after.active() == before.active(),
    }
}

/// `after` is `before` with piece `i` recorded as had by `peer`, when it is active; a piece it
/// did not have yet counts once more.
pub open spec fn have_recorded(before: TorrentManager, after: TorrentManager, peer: Peer, i: int) -> bool {
    &&& after.same_but_peers(before)
    &&& after.inactive() == before.inactive()
    &&& match active_index(before.active(), peer) {
        Some(j) => {
            let info = before.active()[j].1;
            let ni = after.active()[j].1;
            let b = info.haves.bytes();
            &&& after.active() == before.active().update(j, (peer, ni))
            &&& ni == (PeerInfo { haves: ni.haves, ..info })
            &&& ni.haves.spec_len() == info.haves.spec_len()
            &&& ni.haves.bytes() == b.update(i / 8, with_bit(b[i / 8], (i % 8) as u8, true))
            &&& after.frequencies() == if bit_at(b, i) {
                before.frequencies()
            } else {
                before.frequencies().update(i, (before.frequencies()[i] + 1) as u16)
            }
        },
        None => after.active() == before.active() && after.frequencies() == before.frequencies(),
    }
}

/// `after` is `before` with the bitfield `data` taken as what `peer` has, when it is active,
/// claims no piece yet, and `data` has the right size; each piece in it counts once more.
pub open spec fn bitfield_taken(before: TorrentManager, after: TorrentManager, peer: Peer, data: Seq<u8>) -> bool {
    &&& after.same_but_peers(before)
    &&& after.inactive() == before.inactive()
    &&& match active_index(before.active(), peer) {
        Some(j) => {
            let info = before.active()[j].1;
            if popcount_seq(info.haves.bytes()) == 0 && data.len() == info.haves.bytes().len() {
                let ni = after.active()[j].1;
                &&& after.active() == before.active().update(j, (peer, ni))
                &&& ni == (PeerInfo { haves: ni.haves, ..info })
                &&& ni.haves.bytes() == data
                &&& ni.haves.spec_len() == info.haves.spec_len()
                &&& after.frequencies().len() == before.frequencies().len()
                &&& forall|i: int|
                    0 <= i < before.piece_count() ==> #[trigger] after.frequencies()[i]
                        == before.frequencies()[i] + if bit_at(data, i) {
                        1int
                    } else {
                        0int
                    }
            } else {
                after.active() == before.active() && after.frequencies() == before.frequencies()
            }
        },
        None => after.active() == before.active() && after.frequencies() == before.frequencies(),
    }
}

/// A report the manager can take in `m`'s state: a peer may only claim a piece whose flag
/// exists (one past the pieces only when it already claims it).
pub open spec fn report_handled(m: TorrentManager, msg: ConnectionMessage) -> bool {
    match msg.message {
        ConMessageType::Have(i) => match active_index(m.active(), msg.peer) {
            Some(j) => {
                let b = m.active()[j].1.haves.bytes();
                &&& (i as int) / 8 < b.len()
                &&& ((i as int) < m.piece_count() || bit_at(b, i as int))
            },
            None => true,
        },
        _ => true,
    }
}

/// What taking the report `msg` does to `before`.
pub open spec fn report_taken(before: TorrentManager, after: TorrentManager, msg: ConnectionMessage) -> bool {
    match msg.message {
        ConMessageType::Unreachable => inactivated(before, after, msg.peer, Status::UnableToConnect),
        ConMessageType::Disconnected => inactivated(before, after, msg.peer, Status::Unknown),
        ConMessageType::KeepAlive => flags_set(before, after, msg.peer, None, None),
        ConMessageType::Choke => flags_set(before, after, msg.peer, Some(true), None),
        ConMessageType::Unchoke => flags_set(before, after, msg.peer, Some(false), None),
        ConMessageType::Interested => flags_set(before, after, msg.peer, None, Some(true)),
        ConMessageType::NotInterested => flags_set(before, after, msg.peer, None, Some(false)),
        ConMessageType::Have(i) => have_recorded(before, after, msg.peer, i as int),
        ConMessageType::Bitfield(b) => bitfield_taken(before, after, msg.peer, b.0@),
        _ => after == before,
    }
}

/// Pieces below `upto` not held locally that some active peer has, ascending.
pub open spec fn remaining_pieces(local: Seq<u8>, freq: Seq<u16>, upto: int) -> Seq<int>
    decreases upto,
{
    if upto <= 0 {
        Seq::empty()
    } else {
        remaining_pieces(local, freq, upto - 1) + if !bit_at(local, upto - 1) && freq[upto - 1] > 0 {
            seq![upto - 1]
        } else {
            Seq::empty()
        }
    }
}

/// The first of the pieces `rem[t..]` that `c` peers are assigned to.
pub open spec fn first_assigned(rem: Seq<int>, assigned: Seq<u8>, c: int, t: int) -> Option<int>
    decreases rem.len() - t,
{
    if t < 0 || t >= rem.len() {
        None
    } else if assigned[rem[t]] == c {
        Some(rem[t])
    } else {
        first_assigned(rem, assigned, c, t + 1)
    }
}

/// The peer can be asked for piece `idx`: it does not choke, it has the piece, and it works
/// on `k` pieces.
pub open spec fn peer_fits(info: PeerInfo, idx: int, k: int) -> bool {
    &&& !info.choking
    &&& bit_at(info.haves.bytes(), idx)
    &&& popcount_seq(info.working.bytes()) == k
}

/// Some active peer can be asked for piece `idx` while working on `k` pieces.
pub open spec fn some_fits(a: Seq<(Peer, PeerInfo)>, idx: int, k: int) -> bool {
    exists|j: int| 0 <= j < a.len() && #[trigger] peer_fits(a[j].1, idx, k)
}

/// The piece tried on round `t` of the selection: the first remaining piece with `t / 4`
/// peers assigned; the round succeeds when a peer working on `t % 4` pieces has it.
pub open spec fn round_piece(m: TorrentManager, t: int) -> Option<int> {
    first_assigned(
        remaining_pieces(m.local().bytes(), m.frequencies(), m.piece_count()),
        m.assigned(),
        t / MAX_PIECE_PER_PEER as int,
        0,
    )
}

/// The first successful round from `t` on, or the number of rounds.
pub open spec fn first_round(m: TorrentManager, t: int) -> int
    decreases MAX_PEER_PER_PIECE * MAX_PIECE_PER_PEER - t,
{
    if t < 0 || t >= MAX_PEER_PER_PIECE * MAX_PIECE_PER_PEER {
        (MAX_PEER_PER_PIECE * MAX_PIECE_PER_PEER) as int
    } else if round_piece(m, t) matches Some(idx) && some_fits(m.active(), idx, t % MAX_PIECE_PER_PEER as int) {
        t
    } else {
        first_round(m, t + 1)
    }
}

/// What the piece selection of `m` gives: nothing when no round succeeds, else the piece of
/// the first successful round and a peer that can be asked for it.
pub open spec fn selection_ok(m: TorrentManager, r: Option<(Peer, usize)>) -> bool {
    let t = first_round(m, 0);
    if t >= MAX_PEER_PER_PIECE * MAX_PIECE_PER_PEER {
        r is None
    } else {
        r matches Some((p, idx)) && round_piece(m, t) == Some(idx as int) && exists|j: int|
            0 <= j < m.active().len() && m.active()[j].0 == p && #[trigger] peer_fits(
                m.active()[j].1,
                idx as int,
                t % MAX_PIECE_PER_PEER as int,
            )
    }
}

/// A peer just made active: choking, uninterested, having and working on nothing.
pub open spec fn fresh_info(info: PeerInfo, n: int) -> bool {
    &&& info_wf(info, n)
    &&& info.choking
    &&& !info.interested
    &&& info.haves.bytes() == Seq::new(info.haves.bytes().len(), |i: int| 0u8)
    &&& info.working.bytes() == Seq::new(info.working.bytes().len(), |i: int| 0u8)
}

/// `p` has an entry marked active that is not among the `picked` ones.
pub open spec fn kept_active(e: Seq<(Peer, Status)>, picked: Seq<int>, p: Peer) -> bool {
    exists|ip: int| 0 <= ip < e.len() && #[trigger] e[ip] == (p, Status::Active) && !picked.contains(ip)
}

/// `after` is `before` with the free places among its active peers filled with the peers
/// `r` handed out by the known peers, after the dropped peers were given back to them.
pub open spec fn refreshed(before: TorrentManager, after: TorrentManager, r: Seq<Peer>) -> bool {
    let e1 = upsert_all(before.spec_peers().entries(), before.inactive());
    let picked = batch_indices(e1, MAX_ACTIVE_PEERS - before.active().len());
    let a0 = before.active();
    &&& r.len() == picked.len()
    &&& forall|k: int| 0 <= k < r.len() ==> r[k] == #[trigger] e1[picked[k]].0
    &&& after.spec_peers().entries().len() == e1.len()
    &&& forall|i: int|
        0 <= i < e1.len() ==> #[trigger] after.spec_peers().entries()[i] == if picked.contains(i) {
            (e1[i].0, Status::Active)
        } else {
            e1[i]
        }
    &&& after.inactive().len() == 0
    &&& after.active().len() == a0.len() + r.len()
    &&& after.active().take(a0.len() as int) == a0
    &&& forall|k: int|
        0 <= k < r.len() ==> #[trigger] after.active()[a0.len() + k].0 == r[k] && fresh_info(
            after.active()[a0.len() + k].1,
            before.piece_count(),
        )
}

impl TorrentManager {
    pub closed spec fn spec_own_peer_id(self) -> ID {
        self.own_peer_id
    }

    pub closed spec fn hashes(self) -> Seq<ID> {
        self.piece_hashes@
    }

    pub closed spec fn spec_peers(self) -> Peers {
        self.peers
    }

    pub closed spec fn active(self) -> Seq<(Peer, PeerInfo)> {
        self.active_peers@
    }

    pub closed spec fn inactive(self) -> Seq<(Peer, Status)> {
        self.inactive_peers@
    }

    pub closed spec fn local(self) -> Bitmap {
        self.local_data
    }

    pub closed spec fn ongoing(self) -> Bitmap {
        self.active_pieces
    }

    pub closed spec fn frequencies(self) -> Seq<u16> {
        self.frequency_map@
    }

    pub closed spec fn assigned(self) -> Seq<u8> {
        self.assigned_peer_count@
    }

    /// Number of pieces.
    pub open spec fn piece_count(self) -> int {
        self.hashes().len() as int
    }

    /// Every per-piece record has one entry per piece; active peers are distinct, at most
    /// `MAX_ACTIVE_PEERS`, each listed as active among the known peers and none among the
    /// dropped ones; and the frequency of each piece is the number of active peers that have it.
    pub open spec fn wf(self) -> bool {
        let n = self.piece_count();
        let a = self.active();
        &&& 1 <= n <= u32::MAX - 7
        &&& self.local().wf() && self.local().spec_len() == n
        &&& self.ongoing().wf() && self.ongoing().spec_len() == n
        &&& self.frequencies().len() == n
        &&& self.assigned().len() == n
        &&& self.spec_peers().wf()
        &&& a.len() <= MAX_ACTIVE_PEERS
        &&& forall|j: int, k: int| 0 <= j < k < a.len() ==> #[trigger] a[j].0 != #[trigger] a[k].0
        &&& forall|j: int| 0 <= j < a.len() ==> #[trigger] info_wf(a[j].1, n)
        &&& forall|j: int| 0 <= j < a.len() ==> #[trigger] has_entry(self.spec_peers().entries(), a[j].0, Status::Active)
        &&& forall|j: int, k: int|
            0 <= j < a.len() && 0 <= k < self.inactive().len() ==> #[trigger] a[j].0 != #[trigger] self.inactive()[k].0
        &&& forall|i: int| 0 <= i < n ==> #[trigger] self.frequencies()[i] == count_having(a, i)
    }

    /// The same state but for the active peers, the dropped peers and the frequencies.
    pub open spec fn same_but_peers(self, other: Self) -> bool {
        &&& self.spec_own_peer_id() == other.spec_own_peer_id()
        &&& self.hashes() == other.hashes()
        &&& self.spec_peers() == other.spec_peers()
        &&& self.local() == other.local()
        &&& self.ongoing() == other.ongoing()
        &&& self.assigned() == other.assigned()
    }

    /// A manager of the pieces with the given hashes, with no active peer.
    pub fn new(own_peer_id: ID, piece_hashes: Vec<ID>, peers: Peers) -> (r: Self)
        requires
            1 <= piece_hashes@.len() <= u32::MAX - 7,
            peers.wf(),
        ensures
            r.wf(),
            r.spec_own_peer_id() == own_peer_id,
            r.hashes() == piece_hashes@,
            r.spec_peers() == peers,
            r.active().len() == 0,
            r.inactive().len() == 0,
            r.local().bytes() == Seq::new(r.local().bytes().len(), |i: int| 0u8),
            r.ongoing().bytes() == Seq::new(r.ongoing().bytes().len(), |i: int| 0u8),
            r.frequencies() == Seq::new(piece_hashes@.len(), |i: int| 0u16),
            r.assigned() == Seq::new(piece_hashes@.len(), |i: int| 0u8),
    {
        let n = piece_hashes.len();
        let frequency_map = vec![0u16; n];
        let assigned_peer_count = vec![0u8; n];
        let r = TorrentManager {
            own_peer_id,
            piece_hashes,
            peers,
            active_peers: Vec::new(),
            inactive_peers: Vec::new(),
            local_data: Bitmap::new(n),
            active_pieces: Bitmap::new(n),
            frequency_map,
            assigned_peer_count,
        };
        assert(r.frequencies() =~= Seq::new(n as nat, |i: int| 0u16));
        assert(r.assigned() =~= Seq::new(n as nat, |i: int| 0u8));
        r
    }

    fn position(&self, peer: &Peer) -> (r: Option<usize>)
        requires
            self.wf(),
        ensures
            match active_index(self.active(), *peer) {
                Some(j) => r == Some(j as usize),
                None => r is None,
            },
            r matches Some(j) ==> j < self.active().len() && self.active()[j as int].0 == *peer,
    {
        let mut j: usize = 0;
        while j < self.active_peers.len()
            invariant
                self.wf(),
                0 <= j <= self.active_peers@.len(),
                forall|k: int| 0 <= k < j ==> self.active_peers@[k].0 != *peer,
            decreases self.active_peers@.len() - j,
        {
            if self.active_peers[j].0 == *peer {
                proof {
                    let c = choose|c: int| 0 <= c < self.active_peers@.len() && self.active_peers@[c].0 == *peer;
                    if c < j {
                        assert(self.active_peers@[c].0 != self.active_peers@[j as int].0);
                    } else if c > j {
                        assert(self.active_peers@[j as int].0 != self.active_peers@[c].0);
                    }
                }
                return Some(j);
            }
            j += 1;
        }
        None
    }

    proof fn lemma_weight_fits(&self, j: int)
        requires
            self.wf(),
            0 <= j < self.active().len(),
        ensures
            info_wf(self.active()[j].1, self.piece_count()),
            popcount_seq(self.active()[j].1.haves.bytes()) <= u32::MAX,
            popcount_seq(self.active()[j].1.working.bytes()) <= u32::MAX,
    {
        let n = self.piece_count();
        assert(info_wf(self.active()[j].1, n));
        lemma_popcount_seq_bound(self.active()[j].1.haves.bytes());
        lemma_popcount_seq_bound(self.active()[j].1.working.bytes());
        assert(8 * (1 + (n - 1) / 8) <= n + 7) by (nonlinear_arith)
            requires
                n >= 1,
        ;
    }

    /// Replaces the flags of active peer `j`, keeping what it has and works on.
    fn set_flags(&mut self, j: usize, choking: bool, interested: bool)
        requires
            old(self).wf(),
            j < old(self).active().len(),
        ensures
            final(self).wf(),
            final(self).same_but_peers(*old(self)),
            final(self).inactive() == old(self).inactive(),
            final(self).frequencies() == old(self).frequencies(),
            final(self).active() == old(self).active().update(
                j as int,
                (old(self).active()[j as int].0, PeerInfo { choking, interested, ..old(self).active()[j as int].1 }),
            ),
    {
        let ghost a0 = self.active_peers@;
        let (p, mut info) = self.active_peers.remove(j);
        info.choking = choking;
        info.interested = interested;
        self.active_peers.insert(j, (p, info));
        proof {
            let n = self.piece_count();
            assert(self.active_peers@ =~= a0.update(j as int, (p, info)));
            assert forall|i: int| 0 <= i < n implies #[trigger] self.frequencies()[i] == count_having(self.active(), i) by {
                lemma_count_update(a0, j as int, (p, info), i);
            }
            assert forall|x: int, y: int| 0 <= x < y < self.active().len() implies #[trigger] self.active()[x].0 != #[trigger] self.active()[y].0 by {
                assert(a0[x].0 != a0[y].0);
            }
            assert forall|x: int| 0 <= x < self.active().len() implies #[trigger] has_entry(self.spec_peers().entries(), self.active()[x].0, Status::Active) by {
                assert(has_entry(old(self).spec_peers().entries(), a0[x].0, Status::Active));
            }
            assert forall|x: int, k: int| 0 <= x < self.active().len() && 0 <= k < self.inactive().len() implies #[trigger] self.active()[x].0 != #[trigger] self.inactive()[k].0 by {
                assert(a0[x].0 != old(self).inactive()[k].0);
            }
            assert forall|x: int| 0 <= x < self.active().len() implies #[trigger] info_wf(self.active()[x].1, n) by {
                assert(info_wf(a0[x].1, n));
            }
        }
    }

    /// Drops an active peer, recording why, and stops counting the pieces it has.
    pub fn mark_peer_as_inactive(&mut self, peer: Peer, status: Status)
        requires
            old(self).wf(),
        ensures
            final(self).wf(),
            inactivated(*old(self), *final(self), peer, status),
    {
        match self.position(&peer) {
            Some(j) => {
                let ghost a0 = self.active_peers@;
                let ghost f0 = self.frequency_map@;
                let ghost n = self.piece_count();
                let (p, info) = self.active_peers.remove(j);
                self.inactive_peers.push((peer, status));
                proof {
                    assert(info_wf(a0[j as int].1, n));
                }
                let len = self.frequency_map.len();
                let mut i: usize = 0;
                while i < len
                    invariant
                        n == old(self).piece_count(),
                        len == n,
                        0 <= i <= n,
                        self.same_but_peers(*old(self)),
                        self.active_peers@ == a0.remove(j as int),
                        self.inactive_peers@ == old(self).inactive().push((peer, status)),
                        a0[j as int].0 == peer,
                        info == a0[j as int].1,
                        info_wf(info, n),
                        a0 == old(self).active(),
                        f0 == old(self).frequencies(),
                        0 <= j < a0.len(),
                        forall|k: int| 0 <= k < n ==> #[trigger] f0[k] == count_having(a0, k),
                        self.frequency_map@.len() == n,
                        forall|k: int| 0 <= k < i ==> #[trigger] self.frequency_map@[k] == f0[k] - piece_bit(info, k),
                        forall|k: int| i <= k < n ==> #[trigger] self.frequency_map@[k] == f0[k],
                    decreases n - i,
                {
                    proof {
                        lemma_count_remove(a0, j as int, i as int);
                        assert(info.haves.bytes().len() == 1 + (n - 1) / 8);
                    }
                    if info.haves.get(i) {
                        let v = self.frequency_map[i];
                        self.frequency_map.set(i, v - 1);
                    }
                    i += 1;
                }
                proof {
                    assert forall|k: int| 0 <= k < n implies #[trigger] self.frequencies()[k] == count_having(self.active(), k) by {
                        lemma_count_remove(a0, j as int, k);
                    }
                    assert forall|x: int, y: int| 0 <= x < y < self.active().len() implies #[trigger] self.active()[x].0 != #[trigger] self.active()[y].0 by {
                        let x2 = if x < j { x } else { x + 1 };
                        let y2 = if y < j { y } else { y + 1 };
                        assert(a0[x2].0 != a0[y2].0);
                    }
                    assert forall|x: int| 0 <= x < self.active().len() implies #[trigger] has_entry(self.spec_peers().entries(), self.active()[x].0, Status::Active) by {
                        let x2 = if x < j { x } else { x + 1 };
                        assert(has_entry(old(self).spec_peers().entries(), a0[x2].0, Status::Active));
                    }
                    assert forall|x: int| 0 <= x < self.active().len() implies #[trigger] info_wf(self.active()[x].1, n) by {
                        let x2 = if x < j { x } else { x + 1 };
                        assert(info_wf(a0[x2].1, n));
                    }
                    assert forall|x: int, k: int| 0 <= x < self.active().len() && 0 <= k < self.inactive().len() implies #[trigger] self.active()[x].0 != #[trigger] self.inactive()[k].0 by {
                        let x2 = if x < j { x } else { x + 1 };
                        if k < old(self).inactive().len() {
                            assert(a0[x2].0 != old(self).inactive()[k].0);
                        } else {
                            if x2 < j {
                                assert(a0[x2].0 != a0[j as int].0);
                            } else {
                                assert(a0[j as int].0 != a0[x2].0);
                            }
                        }
                    }
                }
            },
            None => {},
        }
    }

    /// Takes the first bitfield a peer sends: while it claims no piece, what it has becomes
    /// the bitfield (when its size is right), and each piece in it counts once more.
    pub fn accept_bitfield_if_its_first(&mut self, new_data: &[u8], peer: Peer)
        requires
            old(self).wf(),
        ensures
            final(self).wf(),
            bitfield_taken(*old(self), *final(self), peer, new_data@),
    {
        let j = match self.position(&peer) {
            Some(j) => j,
            None => {
                return;
            },
        };
        proof {
            self.lemma_weight_fits(j as int);
        }
        if self.active_peers[j].1.haves.weight() > 0 {
            return;
        }
        if new_data.len() != self.active_peers[j].1.haves.data().len() {
            return;
        }
        let ghost a0 = self.active_peers@;
        let ghost f0 = self.frequency_map@;
        let ghost n = self.piece_count();
        let (p, mut info) = self.active_peers.remove(j);
        proof {
            assert(info_wf(a0[j as int].1, n));
        }
        let ghost info0 = info;
        if info.haves.replace_data(new_data).is_err() {
            self.active_peers.insert(j, (p, info));
            proof {
                assert(self.active_peers@ =~= a0);
            }
            return;
        }
        let len = self.frequency_map.len();
        let mut i: usize = 0;
        while i < len
            invariant
                n == old(self).piece_count(),
                len == n,
                0 <= i <= n,
                self.same_but_peers(*old(self)),
                self.active_peers@ == a0.remove(j as int),
                self.inactive_peers@ == old(self).inactive(),
                info_wf(info, n),
                info.haves.bytes() == new_data@,
                info == (PeerInfo { haves: info.haves, ..a0[j as int].1 }),
                info.haves.spec_len() == a0[j as int].1.haves.spec_len(),
                popcount_seq(info0.haves.bytes()) == 0,
                info0 == a0[j as int].1,
                p == a0[j as int].0,
                a0 == old(self).active(),
                f0 == old(self).frequencies(),
                forall|k: int| 0 <= k < n ==> #[trigger] f0[k] == count_having(a0, k),
                0 <= j < a0.len(),
                a0.len() <= MAX_ACTIVE_PEERS,
                self.frequency_map@.len() == n,
                forall|k: int| 0 <= k < i ==> #[trigger] self.frequency_map@[k] == f0[k] + piece_bit(info, k),
                forall|k: int| i <= k < n ==> #[trigger] self.frequency_map@[k] == f0[k],
            decreases n - i,
        {
            proof {
                lemma_count_bound(a0, i as int);
            }
            if info.haves.get(i) {
                let v = self.frequency_map[i];
                self.frequency_map.set(i, v + 1);
            }
            i += 1;
        }
        self.active_peers.insert(j, (p, info));
        proof {
            assert(self.active_peers@ =~= a0.update(j as int, (p, info)));
            assert forall|k: int| 0 <= k < n implies #[trigger] self.frequencies()[k] == count_having(self.active(), k) by {
                lemma_count_update(a0, j as int, (p, info), k);
                lemma_zero_bytes_no_bits(info0.haves.bytes(), k);
            }
            assert forall|x: int, y: int| 0 <= x < y < self.active().len() implies #[trigger] self.active()[x].0 != #[trigger] self.active()[y].0 by {
                assert(a0[x].0 != a0[y].0);
            }
            assert forall|x: int| 0 <= x < self.active().len() implies #[trigger] has_entry(self.spec_peers().entries(), self.active()[x].0, Status::Active) by {
                assert(has_entry(old(self).spec_peers().entries(), a0[x].0, Status::Active));
            }
            assert forall|x: int, k: int| 0 <= x < self.active().len() && 0 <= k < self.inactive().len() implies #[trigger] self.active()[x].0 != #[trigger] self.inactive()[k].0 by {
                assert(a0[x].0 != old(self).inactive()[k].0);
            }
            assert forall|x: int| 0 <= x < self.active().len() implies #[trigger] info_wf(self.active()[x].1, n) by {
                assert(info_wf(a0[x].1, n));
            }
            assert forall|k: int| 0 <= k < n implies #[trigger] self.frequencies()[k] == f0[k] + if bit_at(new_data@, k) { 1int } else { 0int } by {
            }
        }
    }

    /// Records that active peer `peer` has piece `idx`.
    fn record_have(&mut self, peer: Peer, idx: usize)
        requires
            old(self).wf(),
            active_index(old(self).active(), peer) matches Some(j) ==> ({
                let b = old(self).active()[j].1.haves.bytes();
                &&& idx / 8 < b.len()
                &&& (idx < old(self).piece_count() || bit_at(b, idx as int))
            }),
        ensures
            final(self).wf(),
            have_recorded(*old(self), *final(self), peer, idx as int),
    {
        let j = match self.position(&peer) {
            Some(j) => j,
            None => {
                return;
            },
        };
        let ghost a0 = self.active_peers@;
        let ghost f0 = self.frequency_map@;
        let ghost n = self.piece_count();
        proof {
            assert(info_wf(a0[j as int].1, n));
        }
        let (p, mut info) = self.active_peers.remove(j);
        let ghost info0 = info;
        let old_have = info.haves.change(idx, true);
        self.active_peers.insert(j, (p, info));
        proof {
            assert(self.active_peers@ =~= a0.update(j as int, (p, info)));
        }
        if !old_have {
            proof {
                lemma_count_bound(a0, idx as int);
                assert(f0[idx as int] == count_having(a0, idx as int));
            }
            let v = self.frequency_map[idx];
            self.frequency_map.set(idx, v + 1);
        }
        proof {
            assert forall|k: int| 0 <= k < n implies #[trigger] self.frequencies()[k] == count_having(self.active(), k) by {
                lemma_count_update(a0, j as int, (p, info), k);
                assert(bit_at(info.haves.bytes(), k) == if k == idx { true } else { bit_at(info0.haves.bytes(), k) });
            }
            assert forall|x: int, y: int| 0 <= x < y < self.active().len() implies #[trigger] self.active()[x].0 != #[trigger] self.active()[y].0 by {
                assert(a0[x].0 != a0[y].0);
            }
            assert forall|x: int| 0 <= x < self.active().len() implies #[trigger] has_entry(self.spec_peers().entries(), self.active()[x].0, Status::Active) by {
                assert(has_entry(old(self).spec_peers().entries(), a0[x].0, Status::Active));
            }
            assert forall|x: int, k: int| 0 <= x < self.active().len() && 0 <= k < self.inactive().len() implies #[trigger] self.active()[x].0 != #[trigger] self.inactive()[k].0 by {
                assert(a0[x].0 != old(self).inactive()[k].0);
            }
            assert forall|x: int| 0 <= x < self.active().len() implies #[trigger] info_wf(self.active()[x].1, n) by {
                assert(info_wf(a0[x].1, n));
            }
        }
    }

    /// Makes peers found elsewhere known, each as not tried yet; a peer that is active keeps
    /// its status.
    pub fn learn_peers(&mut self, found: &[Peer])
        requires
            old(self).wf(),
        ensures
            final(self).wf(),
            final(self).spec_own_peer_id() == old(self).spec_own_peer_id(),
            final(self).hashes() == old(self).hashes(),
            final(self).local() == old(self).local(),
            final(self).ongoing() == old(self).ongoing(),
            final(self).active() == old(self).active(),
            final(self).inactive() == old(self).inactive(),
            final(self).frequencies() == old(self).frequencies(),
            final(self).assigned() == old(self).assigned(),
            final(self).spec_peers().spec_info_hash() == old(self).spec_peers().spec_info_hash(),
            ({
                let fresh = not_active(old(self).active(), found@);
                final(self).spec_peers().entries() == upsert_all(
                    old(self).spec_peers().entries(),
                    Seq::new(fresh.len(), |i: int| (fresh[i], Status::Unknown)),
                )
            }),
    {
        let mut fresh: Vec<Peer> = Vec::new();
        let mut i: usize = 0;
        while i < found.len()
            invariant
                0 <= i <= found@.len(),
                self.wf(),
                fresh@ == not_active(self.active(), found@.take(i as int)),
            decreases found@.len() - i,
        {
            assert(found@.take(i + 1).drop_last() == found@.take(i as int));
            if self.position(&found[i]).is_none() {
                fresh.push(found[i]);
            }
            i += 1;
        }
        assert(found@.take(found@.len() as int) == found@);
        let ghost e0 = self.peers.entries();
        let ghost bad = Seq::new(fresh@.len(), |k: int| (fresh@[k], Status::Unknown));
        proof {
            lemma_not_active(self.active(), found@);
        }
        let ghost before = *self;
        self.peers.extend(fresh.as_slice());
        proof {
            let a = self.active();
            assert(a == before.active() && self.inactive() == before.inactive());
            assert forall|j: int, k: int| 0 <= j < a.len() && 0 <= k < self.inactive().len() implies #[trigger] a[j].0
                != #[trigger] self.inactive()[k].0 by {
                assert(before.active()[j].0 != before.inactive()[k].0);
            }
            assert forall|j: int| 0 <= j < a.len() implies #[trigger] has_entry(self.spec_peers().entries(), a[j].0, Status::Active) by {
                assert(has_entry(e0, a[j].0, Status::Active));
                let ip = choose|ip: int| 0 <= ip < e0.len() && #[trigger] e0[ip] == (a[j].0, Status::Active);
                assert forall|k: int| 0 <= k < bad.len() implies #[trigger] bad[k].0 != e0[ip].0 by {
                    assert(active_index(a, fresh@[k]) is None);
                }
                lemma_upsert_all_keeps(e0, bad, ip);
                assert(self.spec_peers().entries()[ip] == (a[j].0, Status::Active));
            }
        }
    }

    /// Whether `handle_command_tmp` takes this report: a piece an active peer says it has is
    /// one it can have.
    pub fn handles(&self, con_msg: &ConnectionMessage) -> (r: bool)
        requires
            self.wf(),
        ensures
            r == report_handled(*self, *con_msg),
    {
        match &con_msg.message {
            ConMessageType::Have(i) => match self.position(&con_msg.peer) {
                Some(j) => {
                    let idx = *i as usize;
                    proof {
                        assert(info_wf(self.active()[j as int].1, self.piece_count()));
                    }
                    let bytes = self.active_peers[j].1.haves.data();
                    if idx / 8 >= bytes.len() {
                        false
                    } else {
                        idx < self.piece_hashes.len() || self.active_peers[j].1.haves.get(idx)
                    }
                },
                None => true,
            },
            _ => true,
        }
    }

    /// Takes a report of a peer connection: a peer that cannot be reached or that
    /// disconnected is dropped, choking and interest are recorded, and what a peer says it
    /// has is counted; requests, cancels and finished pieces leave the manager as it is.
    pub fn handle_command_tmp(&mut self, con_msg: ConnectionMessage)
        requires
            old(self).wf(),
            report_handled(*old(self), con_msg),
        ensures
            final(self).wf(),
            report_taken(*old(self), *final(self), con_msg),
    {
        let ConnectionMessage { message, peer } = con_msg;
        match message {
            ConMessageType::Unreachable => self.mark_peer_as_inactive(peer, Status::UnableToConnect),
            ConMessageType::Disconnected => self.mark_peer_as_inactive(peer, Status::Unknown),
            ConMessageType::KeepAlive => {
                proof {
                    match active_index(self.active(), peer) {
                        Some(j) => {
                            assert(self.active() =~= self.active().update(j, (peer, PeerInfo { ..self.active()[j].1 })));
                        },
                        None => {},
                    }
                }
            },
            ConMessageType::Choke => {
                if let Some(j) = self.position(&peer) {
                    let interested = self.active_peers[j].1.interested;
                    self.set_flags(j, true, interested);
                }
            },
            ConMessageType::Unchoke => {
                if let Some(j) = self.position(&peer) {
                    let interested = self.active_peers[j].1.interested;
                    self.set_flags(j, false, interested);
                }
            },
            ConMessageType::Interested => {
                if let Some(j) = self.position(&peer) {
                    let choking = self.active_peers[j].1.choking;
                    self.set_flags(j, choking, true);
                }
            },
            ConMessageType::NotInterested => {
                if let Some(j) = self.position(&peer) {
                    let choking = self.active_peers[j].1.choking;
                    self.set_flags(j, choking, false);
                }
            },
            ConMessageType::Have(piece_idx) => self.record_have(peer, piece_idx as usize),
            ConMessageType::Bitfield(bitfield) => self.accept_bitfield_if_its_first(bitfield.as_ref(), peer),
            ConMessageType::Request(_) => {},
            ConMessageType::FinishedPiece(_) => {},
            ConMessageType::Cancel(_) => {},
        }
    }

    /// The pieces still to get that some active peer has, with how many have each and how
    /// many peers each is assigned to.
    pub fn iter_over_remaining_downloadable_pieces(&self) -> (r: Vec<(usize, u16, u8)>)
        requires
            self.wf(),
        ensures
            r@ == remaining_pieces(self.local().bytes(), self.frequencies(), self.piece_count()).map_values(
                |i: int| (i as usize, self.frequencies()[i], self.assigned()[i]),
            ),
    {
        let ghost rem = |u: int| remaining_pieces(self.local().bytes(), self.frequencies(), u);
        let ghost f = |i: int| (i as usize, self.frequencies()[i], self.assigned()[i]);
        let n = self.frequency_map.len();
        let mut out: Vec<(usize, u16, u8)> = Vec::new();
        let mut i: usize = 0;
        while i < n
            invariant
                self.wf(),
                n == self.piece_count(),
                0 <= i <= n,
                rem == (|u: int| remaining_pieces(self.local().bytes(), self.frequencies(), u)),
                f == (|i: int| (i as usize, self.frequencies()[i], self.assigned()[i])),
                out@ == rem(i as int).map_values(f),
            decreases n - i,
        {
            let held = self.local_data.get(i);
            let freq = self.frequency_map[i];
            if !held && freq > 0 {
                out.push((i, freq, self.assigned_peer_count[i]));
                assert(rem(i + 1) == rem(i as int).push(i as int));
                assert(out@ =~= rem(i + 1).map_values(f));
            } else {
                assert(rem(i + 1) =~= rem(i as int));
            }
            i += 1;
        }
        out
    }

    /// An active peer that does not choke, has piece `piece_idx` and works on
    /// `pieces_per_peer` pieces, if there is one.
    pub fn find_peer_with_piece(&self, piece_idx: usize, pieces_per_peer: usize) -> (r: Option<Peer>)
        requires
            self.wf(),
            piece_idx < self.piece_count(),
        ensures
            r is None <==> !some_fits(self.active(), piece_idx as int, pieces_per_peer as int),
            r matches Some(p) ==> exists|j: int|
                0 <= j < self.active().len() && self.active()[j].0 == p && #[trigger] peer_fits(
                    self.active()[j].1,
                    piece_idx as int,
                    pieces_per_peer as int,
                ),
    {
        let ghost n = self.piece_count();
        let mut j: usize = 0;
        while j < self.active_peers.len()
            invariant
                self.wf(),
                n == self.piece_count(),
                piece_idx < n,
                0 <= j <= self.active().len(),
                forall|k: int| 0 <= k < j ==> !#[trigger] peer_fits(self.active()[k].1, piece_idx as int, pieces_per_peer as int),
            decreases self.active().len() - j,
        {
            proof {
                self.lemma_weight_fits(j as int);
            }
            let info = &self.active_peers[j].1;
            if !info.choking && info.haves.get(piece_idx) && info.working.weight() == pieces_per_peer {
                assert(peer_fits(self.active()[j as int].1, piece_idx as int, pieces_per_peer as int));
                return Some(self.active_peers[j].0);
            }
            j += 1;
        }
        None
    }

    /// Picks a piece and a peer to download it from: over rounds of growing load, the first
    /// remaining piece with as many assigned peers as the round allows, from a peer working on
    /// as many pieces as the round allows.
    pub fn sequential_select_piece(&self) -> (r: Option<(Peer, usize)>)
        requires
            self.wf(),
        ensures
            selection_ok(*self, r),
    {
        let remaining = self.iter_over_remaining_downloadable_pieces();
        let ghost rem = remaining_pieces(self.local().bytes(), self.frequencies(), self.piece_count());
        proof {
            lemma_remaining_bounds(self.local().bytes(), self.frequencies(), self.piece_count());
        }
        let mut iteration_count: usize = 0;
        let mut peers_per_piece: usize = 0;
        let mut pieces_per_peer: usize = 0;
        while iteration_count < MAX_PEER_PER_PIECE * MAX_PIECE_PER_PEER
            invariant
                self.wf(),
                rem == remaining_pieces(self.local().bytes(), self.frequencies(), self.piece_count()),
                remaining@ == rem.map_values(|i: int| (i as usize, self.frequencies()[i], self.assigned()[i])),
                forall|a: int| 0 <= a < rem.len() ==> 0 <= #[trigger] rem[a] < self.piece_count(),
                0 <= iteration_count <= MAX_PEER_PER_PIECE * MAX_PIECE_PER_PEER,
                peers_per_piece == iteration_count / MAX_PIECE_PER_PEER,
                pieces_per_peer == iteration_count % MAX_PIECE_PER_PEER,
                first_round(*self, 0) == first_round(*self, iteration_count as int),
            decreases MAX_PEER_PER_PIECE * MAX_PIECE_PER_PEER - iteration_count,
        {
            let mut t: usize = 0;
            while t < remaining.len() && remaining[t].2 as usize != peers_per_piece
                invariant
                    0 <= t <= remaining@.len(),
                    remaining@.len() == rem.len(),
                    remaining@ == rem.map_values(|i: int| (i as usize, self.frequencies()[i], self.assigned()[i])),
                    first_assigned(rem, self.assigned(), peers_per_piece as int, 0) == first_assigned(
                        rem,
                        self.assigned(),
                        peers_per_piece as int,
                        t as int,
                    ),
                decreases remaining@.len() - t,
            {
                assert(remaining@[t as int].2 == self.assigned()[rem[t as int]]);
                t += 1;
            }
            if t < remaining.len() {
                let piece_idx = remaining[t].0;
                assert(remaining@[t as int].2 == self.assigned()[rem[t as int]]);
                assert(piece_idx == rem[t as int]);
                assert(round_piece(*self, iteration_count as int) == Some(piece_idx as int));
                if let Some(peer) = self.find_peer_with_piece(piece_idx, pieces_per_peer) {
                    proof {
                        assert(some_fits(self.active(), piece_idx as int, (iteration_count % MAX_PIECE_PER_PEER) as int));
                        assert(first_round(*self, iteration_count as int) == iteration_count);
                        let t = first_round(*self, 0);
                        assert(t % MAX_PIECE_PER_PEER as int == pieces_per_peer as int);
                        let j = choose|j: int| 0 <= j < self.active().len() && self.active()[j].0 == peer && #[trigger] peer_fits(
                            self.active()[j].1,
                            piece_idx as int,
                            pieces_per_peer as int,
                        );
                        assert(peer_fits(self.active()[j].1, piece_idx as int, t % MAX_PIECE_PER_PEER as int));
                        assert(t == iteration_count);
                        assert(round_piece(*self, t) == Some(piece_idx as int));
                        assert(t < MAX_PEER_PER_PIECE * MAX_PIECE_PER_PEER);
                        assert(exists|j2: int| 0 <= j2 < self.active().len() && self.active()[j2].0 == peer && #[trigger] peer_fits(self.active()[j2].1, piece_idx as int, t % MAX_PIECE_PER_PEER as int));
                        assert(Some((peer, piece_idx)) matches Some((p, idx)) && round_piece(*self, t) == Some(idx as int));
                        assert(selection_ok(*self, Some((peer, piece_idx))));
                    }
                    return Some((peer, piece_idx));
                }
            } else {
                assert(round_piece(*self, iteration_count as int) is None);
            }
            iteration_count += 1;
            pieces_per_peer = iteration_count % MAX_PIECE_PER_PEER;
            peers_per_piece = iteration_count / MAX_PIECE_PER_PEER;
        }
        None
    }

    /// The selection, with the hash the piece must have.
    pub fn select_piece(&self) -> (r: Option<(Peer, usize, ID)>)
        requires
            self.wf(),
        ensures
            match r {
                Some((p, idx, h)) => selection_ok(*self, Some((p, idx))) && idx < self.piece_count() && h == self.hashes()[idx as int],
                None => selection_ok(*self, None),
            },
    {
        match self.sequential_select_piece() {
            Some((peer, piece_idx)) => {
                proof {
                    lemma_remaining_bounds(self.local().bytes(), self.frequencies(), self.piece_count());
                    let t = first_round(*self, 0);
                    lemma_first_round_range(*self, 0);
                    lemma_first_assigned_in(
                        remaining_pieces(self.local().bytes(), self.frequencies(), self.piece_count()),
                        self.assigned(),
                        t / MAX_PIECE_PER_PEER as int,
                        0,
                    );
                }
                Some((peer, piece_idx, self.piece_hashes[piece_idx]))
            },
            None => None,
        }
    }

    /// Records that `peer` is downloading piece `piece_idx`.
    pub fn mark_piece_as_ongoing(&mut self, peer: Peer, piece_idx: usize)
        requires
            old(self).wf(),
            active_index(old(self).active(), peer) is Some,
            piece_idx < old(self).piece_count(),
        ensures
            final(self).wf(),
            final(self).spec_own_peer_id() == old(self).spec_own_peer_id(),
            final(self).hashes() == old(self).hashes(),
            final(self).spec_peers() == old(self).spec_peers(),
            final(self).local() == old(self).local(),
            final(self).assigned() == old(self).assigned(),
            final(self).inactive() == old(self).inactive(),
            final(self).frequencies() == old(self).frequencies(),
            final(self).ongoing().spec_len() == old(self).ongoing().spec_len(),
            final(self).ongoing().bytes() == old(self).ongoing().bytes().update(
                piece_idx as int / 8,
                with_bit(old(self).ongoing().bytes()[piece_idx as int / 8], (piece_idx % 8) as u8, true),
            ),
            ({
                let j = active_index(old(self).active(), peer)->0;
                let info = old(self).active()[j].1;
                let ni = final(self).active()[j].1;
                let w = info.working.bytes();
                &&& final(self).active() == old(self).active().update(j, (peer, ni))
                &&& ni == (PeerInfo { working: ni.working, ..info })
                &&& ni.working.spec_len() == info.working.spec_len()
                &&& ni.working.bytes() == w.update(
                    piece_idx as int / 8,
                    with_bit(w[piece_idx as int / 8], (piece_idx % 8) as u8, true),
                )
            }),
    {
        let j = match self.position(&peer) {
            Some(j) => j,
            None => {
                return;
            },
        };
        let ghost a0 = self.active_peers@;
        let ghost n = self.piece_count();
        proof {
            assert(info_wf(a0[j as int].1, n));
        }
        let _ = self.active_pieces.change(piece_idx, true);
        let (p, mut info) = self.active_peers.remove(j);
        let _ = info.working.change(piece_idx, true);
        self.active_peers.insert(j, (p, info));
        proof {
            assert(self.active_peers@ =~= a0.update(j as int, (p, info)));
            assert forall|k: int| 0 <= k < n implies #[trigger] self.frequencies()[k] == count_having(self.active(), k) by {
                lemma_count_update(a0, j as int, (p, info), k);
            }
            assert forall|x: int, y: int| 0 <= x < y < self.active().len() implies #[trigger] self.active()[x].0 != #[trigger] self.active()[y].0 by {
                assert(a0[x].0 != a0[y].0);
            }
            assert forall|x: int| 0 <= x < self.active().len() implies #[trigger] has_entry(self.spec_peers().entries(), self.active()[x].0, Status::Active) by {
                assert(has_entry(old(self).spec_peers().entries(), a0[x].0, Status::Active));
            }
            assert forall|x: int, k: int| 0 <= x < self.active().len() && 0 <= k < self.inactive().len() implies #[trigger] self.active()[x].0 != #[trigger] self.inactive()[k].0 by {
                assert(a0[x].0 != old(self).inactive()[k].0);
            }
            assert forall|x: int| 0 <= x < self.active().len() implies #[trigger] info_wf(self.active()[x].1, n) by {
                assert(info_wf(a0[x].1, n));
            }
        }
    }

    /// Number of pieces being downloaded, counted over the packed bytes.
    pub fn ongoing_count(&self) -> (r: usize)
        requires
            self.wf(),
        ensures
            r == popcount_seq(self.ongoing().bytes()),
    {
        proof {
            let n = self.piece_count();
            lemma_popcount_seq_bound(self.ongoing().bytes());
            assert(8 * (1 + (n - 1) / 8) <= n + 7) by (nonlinear_arith)
                requires
                    n >= 1,
            ;
        }
        self.active_pieces.weight()
    }

    /// How many more pieces may be started.
    pub fn pieces_to_start(&self) -> (r: usize)
        requires
            self.wf(),
            popcount_seq(self.ongoing().bytes()) <= MAX_ACTIVE_PIECES,
        ensures
            r == MAX_ACTIVE_PIECES - popcount_seq(self.ongoing().bytes()),
    {
        MAX_ACTIVE_PIECES - self.ongoing_count()
    }

    /// Fills the free places among the active peers: the dropped peers go back to the known
    /// peers with why they were dropped, a batch of idle known peers comes out, and each
    /// becomes active with nothing known of it yet. The new peers are returned, to be
    /// connected to.
    #[verifier::spinoff_prover]
    #[verifier::rlimit(40)]
    pub fn refresh_peer_list(&mut self) -> (r: Vec<Peer>)
        requires
            old(self).wf(),
        ensures
            final(self).wf(),
            final(self).spec_own_peer_id() == old(self).spec_own_peer_id(),
            final(self).hashes() == old(self).hashes(),
            final(self).local() == old(self).local(),
            final(self).ongoing() == old(self).ongoing(),
            final(self).assigned() == old(self).assigned(),
            final(self).frequencies() == old(self).frequencies(),
            old(self).active().len() == MAX_ACTIVE_PEERS ==> {
                &&& r@.len() == 0
                &&& final(self).active() == old(self).active()
                &&& final(self).inactive() == old(self).inactive()
                &&& final(self).spec_peers() == old(self).spec_peers()
            },
            old(self).active().len() < MAX_ACTIVE_PEERS ==> refreshed(*old(self), *final(self), r@),
    {
        let free = MAX_ACTIVE_PEERS - self.active_peers.len();
        if free == 0 {
            return Vec::new();
        }
        let ghost a0 = self.active_peers@;
        let ghost e0 = self.peers.entries();
        let ghost inact0 = self.inactive_peers@;
        let ghost n = self.piece_count();
        let ghost f0 = self.frequency_map@;
        let new_peers = self.peers.return_batch_of_bad_peers_and_get_new_batch(&self.inactive_peers, free);
        self.inactive_peers.clear();
        let ghost e1 = upsert_all(e0, inact0);
        let ghost picked = batch_indices(e1, free as int);
        proof {
            lemma_batch_picks_idle_peers(e1, free as int);
            assert(picked.len() <= free);
        }
        let count = self.piece_hashes.len();
        let mut k: usize = 0;
        while k < new_peers.len()
            invariant
                n == count,
                n == old(self).piece_count(),
                self.own_peer_id == old(self).spec_own_peer_id(),
                self.local_data == old(self).local(),
                self.active_pieces == old(self).ongoing(),
                self.assigned_peer_count@ == old(self).assigned(),
                self.inactive_peers@.len() == 0,
                self.peers.wf(),
                e1 == upsert_all(e0, inact0),
                inact0 == old(self).inactive(),
                e0 == old(self).spec_peers().entries(),
                old(self).wf(),
                picked == batch_indices(e1, free as int),
                free == MAX_ACTIVE_PEERS - a0.len(),
                a0 == old(self).active(),
                new_peers@.len() == picked.len(),
                forall|q: int| 0 <= q < new_peers@.len() ==> new_peers@[q] == #[trigger] e1[picked[q]].0,
                self.peers.entries().len() == e1.len(),
                forall|i: int|
                    0 <= i < e1.len() ==> #[trigger] self.peers.entries()[i] == if picked.contains(i) {
                        (e1[i].0, Status::Active)
                    } else {
                        e1[i]
                    },
                1 <= n <= u32::MAX - 7,
                0 <= k <= new_peers@.len(),
                self.piece_hashes@ == old(self).hashes(),
                self.frequency_map@ == f0,
                f0 == old(self).frequencies(),
                forall|i: int| 0 <= i < n ==> #[trigger] f0[i] == count_having(self.active_peers@, i),
                self.active_peers@.len() == a0.len() + k,
                self.active_peers@.take(a0.len() as int) == a0,
                forall|m: int|
                    0 <= m < k ==> #[trigger] self.active_peers@[a0.len() + m].0 == new_peers@[m]
                        && fresh_info(self.active_peers@[a0.len() + m].1, n),
            decreases new_peers@.len() - k,
        {
            let info = PeerInfo::new(count);
            let ghost before = self.active_peers@;
            self.active_peers.push((new_peers[k], info));
            proof {
                assert forall|i: int| 0 <= i < n implies #[trigger] f0[i] == count_having(self.active_peers@, i) by {
                    lemma_count_push(before, (new_peers@[k as int], info), i);
                    lemma_new_bitmap_empty(info.haves.bytes(), i);
                }
                assert(self.active_peers@.take(a0.len() as int) =~= before.take(a0.len() as int));
            }
            k += 1;
        }
        proof {
            let a = self.active();
            let e = self.spec_peers().entries();
            assert(a.take(a0.len() as int) == a0);
            assert forall|x: int| 0 <= x < a0.len() implies a[x] == a0[x] by {
                assert(a.take(a0.len() as int)[x] == a[x]);
            }
            // every old active peer keeps its entry, active and unpicked
            assert forall|x: int| 0 <= x < a0.len() implies #[trigger] kept_active(e1, picked, a0[x].0) by {
                assert(has_entry(e0, a0[x].0, Status::Active));
                let ip = choose|ip: int| 0 <= ip < e0.len() && #[trigger] e0[ip] == (a0[x].0, Status::Active);
                assert forall|q: int| 0 <= q < inact0.len() implies #[trigger] inact0[q].0 != e0[ip].0 by {
                    assert(a0[x].0 != inact0[q].0);
                }
                lemma_upsert_all_keeps(e0, inact0, ip);
                if picked.contains(ip) {
                    let w = choose|w: int| 0 <= w < picked.len() && picked[w] == ip;
                    assert(e1[picked[w]].1 != Status::Active);
                }
            }
            assert forall|x: int| 0 <= x < a.len() implies #[trigger] has_entry(e, a[x].0, Status::Active) by {
                if x < a0.len() {
                    assert(kept_active(e1, picked, a0[x].0));
                    let ip = choose|ip: int| 0 <= ip < e1.len() && #[trigger] e1[ip] == (a0[x].0, Status::Active) && !picked.contains(ip);
                    assert(e[ip] == (a[x].0, Status::Active));
                } else {
                    let m = x - a0.len();
                    assert(a[a0.len() + m].0 == new_peers@[m]);
                    assert(picked.contains(picked[m]));
                    assert(e[picked[m]] == (e1[picked[m]].0, Status::Active));
                }
            }
            assert forall|x: int, y: int| 0 <= x < y < a.len() implies #[trigger] a[x].0 != #[trigger] a[y].0 by {
                if y < a0.len() {
                    assert(a0[x].0 != a0[y].0);
                } else if x < a0.len() {
                    assert(kept_active(e1, picked, a0[x].0));
                    let ip = choose|ip: int| 0 <= ip < e1.len() && #[trigger] e1[ip] == (a0[x].0, Status::Active) && !picked.contains(ip);
                    let m = y - a0.len();
                    assert(a[a0.len() + m].0 == new_peers@[m]);
                    assert(picked.contains(picked[m]));
                    if a[x].0 == a[y].0 {
                        assert(e[ip].0 == e[picked[m]].0);
                        if ip < picked[m] {
                            assert(e[ip].0 != e[picked[m]].0);
                        } else if ip > picked[m] {
                            assert(e[picked[m]].0 != e[ip].0);
                        }
                    }
                } else {
                    let m1 = x - a0.len();
                    let m2 = y - a0.len();
                    assert(a[a0.len() + m1].0 == new_peers@[m1]);
                    assert(a[a0.len() + m2].0 == new_peers@[m2]);
                    assert(picked.contains(picked[m1]));
                    assert(picked.contains(picked[m2]));
                    assert(picked[m1] != picked[m2]);
                    if a[x].0 == a[y].0 {
                        assert(e[picked[m1]].0 == e[picked[m2]].0);
                        if picked[m1] < picked[m2] {
                            assert(e[picked[m1]].0 != e[picked[m2]].0);
                        } else {
                            assert(e[picked[m2]].0 != e[picked[m1]].0);
                        }
                    }
                }
            }
            assert forall|x: int| 0 <= x < a.len() implies #[trigger] info_wf(a[x].1, n) by {
                if x < a0.len() {
                    assert(info_wf(a0[x].1, n));
                } else {
                    let m = x - a0.len();
                    assert(a[a0.len() + m].0 == new_peers@[m]);
                    assert(fresh_info(a[a0.len() + m].1, n));
                }
            }
            assert forall|q: int| 0 <= q < new_peers@.len() implies #[trigger] a[a0.len() + q].0 == new_peers@[q]
                && fresh_info(a[a0.len() + q].1, old(self).piece_count()) by {
                assert(self.active_peers@[a0.len() + q].0 == new_peers@[q]);
            }
            assert(a.len() == a0.len() + new_peers@.len());
            assert(refreshed(*old(self), *self, new_peers@));
        }
        new_peers
    }
}

proof fn lemma_remaining_bounds(local: Seq<u8>, freq: Seq<u16>, upto: int)
    ensures
        forall|a: int|
            0 <= a < remaining_pieces(local, freq, upto).len() ==> 0 <= #[trigger] remaining_pieces(
                local,
                freq,
                upto,
            )[a] < upto,
    decreases upto,
{
    if upto > 0 {
        lemma_remaining_bounds(local, freq, upto - 1);
        let prev = remaining_pieces(local, freq, upto - 1);
        let cur = remaining_pieces(local, freq, upto);
        assert forall|a: int| 0 <= a < cur.len() implies 0 <= #[trigger] cur[a] < upto by {
            if a < prev.len() {
                assert(cur[a] == prev[a]);
            }
        }
    }
}

proof fn lemma_first_assigned_in(rem: Seq<int>, assigned: Seq<u8>, c: int, t: int)
    ensures
        first_assigned(rem, assigned, c, t) matches Some(x) ==> exists|a: int| 0 <= a < rem.len() && rem[a] == x,
    decreases rem.len() - t,
{
    if 0 <= t < rem.len() && assigned[rem[t]] != c {
        lemma_first_assigned_in(rem, assigned, c, t + 1);
    }
}

proof fn lemma_first_round_range(m: TorrentManager, t: int)
    requires
        0 <= t,
    ensures
        t <= first_round(m, t) <= MAX_PEER_PER_PIECE * MAX_PIECE_PER_PEER || first_round(m, t) == MAX_PEER_PER_PIECE * MAX_PIECE_PER_PEER,
        first_round(m, t) < MAX_PEER_PER_PIECE * MAX_PIECE_PER_PEER ==> round_piece(m, first_round(m, t)) is Some,
    decreases MAX_PEER_PER_PIECE * MAX_PIECE_PER_PEER - t,
{
    if t < MAX_PEER_PER_PIECE * MAX_PIECE_PER_PEER && !(round_piece(m, t) matches Some(idx) && some_fits(m.active(), idx, t % MAX_PIECE_PER_PEER as int)) {
        lemma_first_round_range(m, t + 1);
    }
}

} // verus!