//! Pieces being downloaded by a peer connection, each split into chunks of one block.
use vstd::prelude::*;
use crate::peer_message::Piece;
use rand::Rng;

verus! {

/// Bytes in a chunk.
pub const CHUNK_SIZE: u32 = 16384;

/// Where the download of one chunk stands.
#[derive(Debug, Clone)]
pub enum ChunkDownStatus {
    Unbegun,
    Pending,
    Downloaded(Vec<u8>),
}

/// Indices in `lo .. hi` of the unbegun chunks, ascending.
pub open spec fn unbegun_between(s: Seq<ChunkDownStatus>, lo: int, hi: int) -> Seq<int>
    decreases hi - lo,
{
    if hi <= lo {
        Seq::empty()
    } else {
        unbegun_between(s, lo, hi - 1) + if s[hi - 1] is Unbegun {
            seq![hi - 1]
        } else {
            Seq::empty()
        }
    }
}

/// Indices of the unbegun chunks from `mid` to the end, then from the start up to `mid`.
pub open spec fn unbegun_from(s: Seq<ChunkDownStatus>, mid: int) -> Seq<int> {
    unbegun_between(s, mid, s.len() as int) + unbegun_between(s, 0, mid)
}

/// The first `n` elements of `s`, or all of them when there are fewer.
pub open spec fn first_n<T>(s: Seq<T>, n: int) -> Seq<T> {
    if n < s.len() {
        s.take(n)
    } else {
        s
    }
}

/// Indices as 32-bit numbers.
pub open spec fn as_u32s(s: Seq<int>) -> Seq<u32> {
    s.map_values(|i: int| i as u32)
}

/// Number of unbegun chunks.
pub open spec fn num_unbegun(s: Seq<ChunkDownStatus>) -> nat {
    unbegun_between(s, 0, s.len() as int).len()
}

/// Number of pending chunks among the first `n`.
pub open spec fn pending_upto(s: Seq<ChunkDownStatus>, n: int) -> nat
    decreases n,
{
    if n <= 0 {
        0
    } else {
        pending_upto(s, n - 1) + if s[n - 1] is Pending {
            1nat
        } else {
            0nat
        }
    }
}

/// Number of pending chunks.
pub open spec fn num_pending(s: Seq<ChunkDownStatus>) -> nat {
    pending_upto(s, s.len() as int)
}

/// The chunks after a cancellation: pending ones are unbegun again.
pub open spec fn cancelled(s: Seq<ChunkDownStatus>) -> Seq<ChunkDownStatus> {
    s.map_values(
        |c: ChunkDownStatus|
            if c is Pending {
                ChunkDownStatus::Unbegun
            } else {
                c
            },
    )
}

proof fn lemma_unbegun_split(s: Seq<ChunkDownStatus>, lo: int, mid: int, hi: int)
    requires
        lo <= mid <= hi,
    ensures
        unbegun_between(s, lo, hi) == unbegun_between(s, lo, mid) + unbegun_between(s, mid, hi),
    decreases hi - mid,
{
    if hi > mid {
        lemma_unbegun_split(s, lo, mid, hi - 1);
        assert(unbegun_between(s, lo, hi) =~= unbegun_between(s, lo, mid) + unbegun_between(
            s,
            mid,
            hi,
        ));
    } else {
        assert(unbegun_between(s, mid, hi) =~= Seq::<int>::empty());
        assert(unbegun_between(s, lo, hi) =~= unbegun_between(s, lo, mid) + unbegun_between(
            s,
            mid,
            hi,
        ));
    }
}

proof fn lemma_unbegun_bounds(s: Seq<ChunkDownStatus>, lo: int, hi: int)
    requires
        0 <= lo,
    ensures
        unbegun_between(s, lo, hi).len() <= if hi > lo {
            hi - lo
        } else {
            0
        },
        forall|k: int|
            0 <= k < unbegun_between(s, lo, hi).len() ==> lo <= #[trigger] unbegun_between(
                s,
                lo,
                hi,
            )[k] < hi,
    decreases hi - lo,
{
    if hi > lo {
        lemma_unbegun_bounds(s, lo, hi - 1);
    }
}

proof fn lemma_pending_bound(s: Seq<ChunkDownStatus>, n: int)
    requires
        0 <= n,
    ensures
        pending_upto(s, n) + unbegun_between(s, 0, n).len() <= n,
    decreases n,
{
    if n > 0 {
        lemma_pending_bound(s, n - 1);
    }
}

proof fn lemma_as_u32s_push(s: Seq<int>, x: int)
    ensures
        as_u32s(s.push(x)) == as_u32s(s).push(x as u32),
{
    assert(as_u32s(s.push(x)) =~= as_u32s(s).push(x as u32));
}

/// A draw from the thread-local generator of `rand`, in `0 .. n`.
#[verifier::external_body]
fn random_below(n: usize) -> (r: usize)
    requires
        n > 0,
    ensures
        r < n,
{
    rand::thread_rng().gen_range(0..n)
}

/// The chunks of one piece.
#[derive(Debug)]
pub struct Chunks {
    data: Vec<ChunkDownStatus>,
}

impl Chunks {
    /// The status of each chunk.
    pub closed spec fn statuses(self) -> Seq<ChunkDownStatus> {
        self.data@
    }

    /// `n` unbegun chunks.
    pub fn new(n: usize) -> (r: Self)
        ensures
            r.statuses() == Seq::new(n as nat, |i: int| ChunkDownStatus::Unbegun),
    {
        let mut data: Vec<ChunkDownStatus> = Vec::new();
        let mut i: usize = 0;
        while i < n
            invariant
                0 <= i <= n,
                data@ == Seq::new(i as nat, |k: int| ChunkDownStatus::Unbegun),
            decreases n - i,
        {
            data.push(ChunkDownStatus::Unbegun);
            i += 1;
            assert(data@ =~= Seq::new(i as nat, |k: int| ChunkDownStatus::Unbegun));
        }
        Chunks { data }
    }

    pub fn len(&self) -> (r: usize)
        ensures
            r == self.statuses().len(),
    {
        self.data.len()
    }

    /// Up to `n` unbegun chunks, found by going round from `mid`.
    fn unbegun_from_mid(&self, n: usize, mid: usize) -> (r: Vec<u32>)
        requires
            mid <= self.statuses().len(),
        ensures
            r@ == as_u32s(first_n(unbegun_from(self.statuses(), mid as int), n as int)),
    {
        let ghost s = self.statuses();
        let len = self.data.len();
        let mut out: Vec<u32> = Vec::with_capacity(n);
        let mut count: usize = 0;
        let mut i: usize = mid;
        while i < len && count < n
            invariant
                s == self.statuses(),
                len == s.len(),
                mid <= i <= len,
                count <= n,
                count == unbegun_between(s, mid as int, i as int).len(),
                out@ == as_u32s(unbegun_between(s, mid as int, i as int)),
            decreases len - i,
        {
            if let ChunkDownStatus::Unbegun = &self.data[i] {
                proof {
                    lemma_as_u32s_push(unbegun_between(s, mid as int, i as int), i as int);
                }
                out.push(i as u32);
                count += 1;
            }
            i += 1;
        }
        proof {
            lemma_unbegun_split(s, mid as int, i as int, len as int);
            lemma_unbegun_split(s, 0, mid as int, len as int);
        }
        if count == n {
            proof {
                let full = unbegun_from(s, mid as int);
                let a = unbegun_between(s, mid as int, i as int);
                assert(full == a + unbegun_between(s, i as int, len as int) + unbegun_between(
                    s,
                    0,
                    mid as int,
                ));
                assert(first_n(full, n as int) =~= a);
            }
            return out;
        }
        let ghost right = unbegun_between(s, mid as int, len as int);
        let mut j: usize = 0;
        while j < mid && count < n
            invariant
                s == self.statuses(),
                len == s.len(),
                mid <= len,
                0 <= j <= mid,
                count <= n,
                right == unbegun_between(s, mid as int, len as int),
                count == right.len() + unbegun_between(s, 0, j as int).len(),
                out@ == as_u32s(right + unbegun_between(s, 0, j as int)),
            decreases mid - j,
        {
            if let ChunkDownStatus::Unbegun = &self.data[j] {
                proof {
                    assert(right + unbegun_between(s, 0, j + 1) =~= (right + unbegun_between(
                        s,
                        0,
                        j as int,
                    )).push(j as int));
                    lemma_as_u32s_push(right + unbegun_between(s, 0, j as int), j as int);
                }
                out.push(j as u32);
                count += 1;
            } else {
                assert(right + unbegun_between(s, 0, j + 1) =~= right + unbegun_between(s, 0, j as int));
            }
            j += 1;
        }
        proof {
            let full = unbegun_from(s, mid as int);
            lemma_unbegun_split(s, 0, j as int, mid as int);
            let a = right + unbegun_between(s, 0, j as int);
            assert(full =~= a + unbegun_between(s, j as int, mid as int));
            if count == n {
                assert(first_n(full, n as int) =~= a);
            } else {
                assert(j == mid);
                assert(a =~= full);
            }
        }
        out
    }

    /// Up to `n` unbegun chunks, going round from a random chunk; `None` when `n` is zero or
    /// no chunk is unbegun.
    pub fn get_unbegun(&self, n: usize) -> (r: Option<Vec<u32>>)
        ensures
            r is None <==> n == 0 || num_unbegun(self.statuses()) == 0,
            r matches Some(v) ==> exists|mid: int|
                0 <= mid < self.statuses().len() && #[trigger] as_u32s(
                    first_n(unbegun_from(self.statuses(), mid), n as int),
                ) == v@,
    {
        if n == 0 {
            return None;
        }
        let ghost s = self.statuses();
        let mut unbegun: usize = 0;
        let mut i: usize = 0;
        while i < self.data.len()
            invariant
                s == self.statuses(),
                0 <= i <= s.len(),
                unbegun == unbegun_between(s, 0, i as int).len(),
            decreases s.len() - i,
        {
            proof {
                lemma_unbegun_bounds(s, 0, i + 1);
            }
            if let ChunkDownStatus::Unbegun = &self.data[i] {
                unbegun += 1;
            }
            i += 1;
        }
        if unbegun == 0 {
            return None;
        }
        proof {
            lemma_unbegun_bounds(s, 0, s.len() as int);
        }
        let mid = random_below(self.data.len());
        let picked = self.unbegun_from_mid(n, mid);
        proof {
            lemma_unbegun_split(s, 0, mid as int, s.len() as int);
            let full = unbegun_from(s, mid as int);
            assert(full.len() == num_unbegun(s));
            assert(first_n(full, n as int).len() > 0);
        }
        if picked.len() == 0 {
            return None;
        }
        Some(picked)
    }

    /// Number of pending chunks.
    pub fn count_pending(&self) -> (r: u32)
        requires
            self.statuses().len() <= u32::MAX,
        ensures
            r == num_pending(self.statuses()),
    {
        let ghost s = self.statuses();
        let mut c: u32 = 0;
        let mut i: usize = 0;
        while i < self.data.len()
            invariant
                s == self.statuses(),
                s.len() <= u32::MAX,
                0 <= i <= s.len(),
                c == pending_upto(s, i as int),
                c <= i,
            decreases s.len() - i,
        {
            if let ChunkDownStatus::Pending = &self.data[i] {
                c += 1;
            }
            i += 1;
        }
        c
    }

    /// Number of chunks not yet downloaded: the unbegun and the pending ones.
    pub fn remaining(&self) -> (r: u32)
        requires
            self.statuses().len() <= u32::MAX,
        ensures
            r == num_unbegun(self.statuses()) + num_pending(self.statuses()),
    {
        let ghost s = self.statuses();
        let mut u: u32 = 0;
        let mut p: u32 = 0;
        let mut i: usize = 0;
        while i < self.data.len()
            invariant
                s == self.statuses(),
                s.len() <= u32::MAX,
                0 <= i <= s.len(),
                u == unbegun_between(s, 0, i as int).len(),
                p == pending_upto(s, i as int),
                u + p <= i,
            decreases s.len() - i,
        {
            proof {
                lemma_pending_bound(s, i + 1);
            }
            match &self.data[i] {
                ChunkDownStatus::Unbegun => {
                    u += 1;
                },
                ChunkDownStatus::Pending => {
                    p += 1;
                },
                ChunkDownStatus::Downloaded(_) => {},
            }
            i += 1;
        }
        u + p
    }

    /// Every pending chunk becomes unbegun again.
    pub fn cancel_pending(&mut self)
        ensures
            final(self).statuses() == cancelled(old(self).statuses()),
    {
        let ghost s = self.statuses();
        let mut i: usize = 0;
        while i < self.data.len()
            invariant
                s == old(self).statuses(),
                self.statuses().len() == s.len(),
                0 <= i <= s.len(),
                forall|k: int| 0 <= k < i ==> #[trigger] self.statuses()[k] == cancelled(s)[k],
                forall|k: int| i <= k < s.len() ==> #[trigger] self.statuses()[k] == s[k],
            decreases s.len() - i,
        {
            let pending = match &self.data[i] {
                ChunkDownStatus::Pending => true,
                _ => false,
            };
            if pending {
                self.data.set(i, ChunkDownStatus::Unbegun);
            }
            i += 1;
        }
        assert(self.statuses() =~= cancelled(s));
    }

    pub fn set_pending(&mut self, idx: usize)
        requires
            idx < old(self).statuses().len(),
        ensures
            final(self).statuses() == old(self).statuses().update(idx as int, ChunkDownStatus::Pending),
    {
        self.data.set(idx, ChunkDownStatus::Pending);
    }

    pub fn is_pending(&self, idx: usize) -> (r: bool)
        requires
            idx < self.statuses().len(),
        ensures
            r == self.statuses()[idx as int] is Pending,
    {
        match &self.data[idx] {
            ChunkDownStatus::Pending => true,
            _ => false,
        }
    }

    pub fn set_downloaded(&mut self, idx: usize, data: Vec<u8>)
        requires
            idx < old(self).statuses().len(),
        ensures
            final(self).statuses() == old(self).statuses().update(
                idx as int,
                ChunkDownStatus::Downloaded(data),
            ),
    {
        self.data.set(idx, ChunkDownStatus::Downloaded(data));
    }
}

/// A chunk request named a piece that is not being downloaded.
#[derive(Debug, Clone, Copy, PartialEq, Eq, Structural)]
pub struct NotDownloading {
    pub piece_idx: u32,
}

/// A received block was not stored: its piece is not being downloaded, it does not start on
/// a chunk boundary inside the piece, or its chunk was not requested.
#[derive(Debug, Clone, Copy, PartialEq, Eq, Structural)]
pub struct ChunkNotSaved {
    pub index: u32,
    pub begin: u32,
}

/// Chunks in a piece of `piece_length` bytes (at least one byte).
pub open spec fn chunk_count(piece_length: u32) -> nat {
    (1 + (piece_length - 1) / 16384) as nat
}

/// Position of the piece `idx` among the keys, if present.
pub open spec fn key_index(keys: Seq<u32>, idx: u32) -> Option<int> {
    if exists|i: int| 0 <= i < keys.len() && keys[i] == idx {
        Some(choose|i: int| 0 <= i < keys.len() && keys[i] == idx)
    } else {
        None
    }
}

/// One wrapping step of the cursor.
pub open spec fn wrap_inc(x: usize) -> usize {
    if x == usize::MAX {
        0
    } else {
        (x + 1) as usize
    }
}

/// The cursor after `t` wrapping steps.
pub open spec fn cursor_at(c: usize, t: int) -> usize
    decreases t,
{
    if t <= 0 {
        c
    } else {
        wrap_inc(cursor_at(c, t - 1))
    }
}

/// Piece `p` can hand out chunks: `n` is positive and it has an unbegun chunk.
pub open spec fn can_pick(keys: Seq<u32>, chunks: Seq<Seq<ChunkDownStatus>>, p: u32, n: int) -> bool {
    &&& n > 0
    &&& key_index(keys, p) matches Some(i)
    &&& num_unbegun(chunks[i]) > 0
}

/// The piece looked at on try `t`, going round the order from cursor `c`.
pub open spec fn piece_at_try(order: Seq<u32>, c: usize, t: int) -> u32 {
    order[(cursor_at(c, t) as int) % (order.len() as int)]
}

/// The first try from `t` on whose piece can hand out chunks, or the number of tries.
pub open spec fn first_pick(
    order: Seq<u32>,
    keys: Seq<u32>,
    chunks: Seq<Seq<ChunkDownStatus>>,
    c: usize,
    n: int,
    t: int,
) -> int
    decreases order.len() - t,
{
    if t < 0 || t >= order.len() {
        order.len() as int
    } else if can_pick(keys, chunks, piece_at_try(order, c, t), n) {
        t
    } else {
        first_pick(order, keys, chunks, c, n, t + 1)
    }
}

/// The chunk indices of piece `p`, paired with it.
pub open spec fn with_piece(p: u32, cs: Seq<u32>) -> Seq<(u32, u32)> {
    cs.map_values(|c: u32| (p, c))
}

/// Pending chunks in the first `n` pieces.
pub open spec fn total_pending(cs: Seq<Seq<ChunkDownStatus>>, n: int) -> nat
    decreases n,
{
    if n <= 0 {
        0
    } else {
        total_pending(cs, n - 1) + num_pending(cs[n - 1])
    }
}

proof fn lemma_total_pending_mono(cs: Seq<Seq<ChunkDownStatus>>, a: int, b: int)
    requires
        0 <= a <= b,
    ensures
        total_pending(cs, a) <= total_pending(cs, b),
    decreases b - a,
{
    if a < b {
        lemma_total_pending_mono(cs, a, b - 1);
    }
}

/// A block at `begin` of piece `index` can be stored: the piece is being downloaded, the
/// block starts a chunk of it, and that chunk was requested.
pub open spec fn storable(keys: Seq<u32>, chunks: Seq<Seq<ChunkDownStatus>>, index: u32, begin: u32) -> bool {
    &&& key_index(keys, index) matches Some(i)
    &&& begin % 16384 == 0
    &&& begin / 16384 < chunks[i].len()
    &&& chunks[i][(begin / 16384) as int] is Pending
}

proof fn lemma_listed_keys(o: Seq<u32>, k: Seq<u32>, o2: Seq<u32>, k2: Seq<u32>)
    requires
        forall|i: int| 0 <= i < k.len() ==> #[trigger] o.contains(k[i]),
        o2 == o,
        k2 == k,
    ensures
        forall|i: int| 0 <= i < k2.len() ==> #[trigger] o2.contains(k2[i]),
{
    assert forall|i: int| 0 <= i < k2.len() implies #[trigger] o2.contains(k2[i]) by {
        assert(o.contains(k[i]));
        let w = choose|w: int| 0 <= w < o.len() && o[w] == k[i];
        assert(o2[w] == k2[i]);
    }
}

/// The pieces being downloaded, in the order they were added (a piece added twice is listed
/// twice), the chunks and the finish callback of each, and a cursor that goes round them.
pub struct PendingPieces<R> {
    cursor: usize,
    order: Vec<u32>,
    keys: Vec<u32>,
    chunks: Vec<Chunks>,
    callbacks: Vec<R>,
}

impl<R> PendingPieces<R> {
    pub closed spec fn spec_cursor(self) -> usize {
        self.cursor
    }

    /// Piece indices in the order they were added.
    pub closed spec fn spec_order(self) -> Seq<u32> {
        self.order@
    }

    /// Piece indices with chunks, each once.
    pub closed spec fn spec_keys(self) -> Seq<u32> {
        self.keys@
    }

    /// The chunks of the piece at each key position.
    pub closed spec fn spec_chunks(self) -> Seq<Seq<ChunkDownStatus>> {
        self.chunks@.map_values(|c: Chunks| c.statuses())
    }

    /// The callback of the piece at each key position.
    pub closed spec fn spec_callbacks(self) -> Seq<R> {
        self.callbacks@
    }

    /// Keys, chunks and callbacks line up, no key occurs twice, every key is listed in the
    /// order, and no piece has more chunks than a 32-bit piece length gives.
    pub open spec fn wf(self) -> bool {
        let k = self.spec_keys();
        &&& self.spec_chunks().len() == k.len()
        &&& self.spec_callbacks().len() == k.len()
        &&& forall|i: int, j: int| 0 <= i < j < k.len() ==> #[trigger] k[i] != #[trigger] k[j]
        &&& forall|i: int| 0 <= i < k.len() ==> #[trigger] self.spec_order().contains(k[i])
        &&& forall|i: int| 0 <= i < k.len() ==> #[trigger] self.spec_chunks()[i].len() <= 0x40000
    }

    pub fn new() -> (r: Self)
        ensures
            r.wf(),
            r.spec_cursor() == 0,
            r.spec_order().len() == 0,
            r.spec_keys().len() == 0,
    {
        let r = PendingPieces {
            cursor: 0,
            order: Vec::new(),
            keys: Vec::new(),
            chunks: Vec::new(),
            callbacks: Vec::new(),
        };
        assert(r.spec_chunks() =~= Seq::<Seq<ChunkDownStatus>>::empty());
        r
    }

    fn position(&self, idx: u32) -> (r: Option<usize>)
        requires
            self.wf(),
        ensures
            match key_index(self.spec_keys(), idx) {
                Some(i) => r == Some(i as usize),
                None => r is None,
            },
            r matches Some(i) ==> i < self.spec_keys().len() && self.spec_keys()[i as int] == idx,
    {
        let mut i: usize = 0;
        while i < self.keys.len()
            invariant
                self.wf(),
                0 <= i <= self.keys@.len(),
                forall|k: int| 0 <= k < i ==> self.keys@[k] != idx,
            decreases self.keys@.len() - i,
        {
            if self.keys[i] == idx {
                proof {
                    let c = choose|c: int| 0 <= c < self.keys@.len() && self.keys@[c] == idx;
                    if c < i {
                        assert(self.keys@[c] != self.keys@[i as int]);
                    } else if c > i {
                        assert(self.keys@[i as int] != self.keys@[c]);
                    }
                }
                return Some(i);
            }
            i += 1;
        }
        None
    }

    /// Starts downloading piece `idx` of `piece_length` bytes, every chunk unbegun; a piece
    /// already being downloaded starts over with the new callback.
    pub fn add_piece(&mut self, idx: u32, piece_length: u32, finish_callback: R)
        requires
            old(self).wf(),
            piece_length >= 1,
        ensures
            final(self).wf(),
            final(self).spec_cursor() == old(self).spec_cursor(),
            final(self).spec_order() == old(self).spec_order().push(idx),
            ({
                let fresh = Seq::new(chunk_count(piece_length), |i: int| ChunkDownStatus::Unbegun);
                match key_index(old(self).spec_keys(), idx) {
                    Some(i) => {
                        &&& final(self).spec_keys() == old(self).spec_keys()
                        &&& final(self).spec_chunks() == old(self).spec_chunks().update(i, fresh)
                        &&& final(self).spec_callbacks() == old(self).spec_callbacks().update(i, finish_callback)
                    },
                    None => {
                        &&& final(self).spec_keys() == old(self).spec_keys().push(idx)
                        &&& final(self).spec_chunks() == old(self).spec_chunks().push(fresh)
                        &&& final(self).spec_callbacks() == old(self).spec_callbacks().push(finish_callback)
                    },
                }
            }),
    {
        let count = 1 + (piece_length - 1) / CHUNK_SIZE;
        let chunks = Chunks::new(count as usize);
        let ghost old_order = self.order@;
        self.order.push(idx);
        proof {
            assert forall|i: int| 0 <= i < self.keys@.len() implies #[trigger] self.order@.contains(self.keys@[i]) by {
                assert(old(self).spec_order().contains(old(self).spec_keys()[i]));
                let w = choose|w: int| 0 <= w < old_order.len() && old_order[w] == self.keys@[i];
                assert(self.order@[w] == self.keys@[i]);
            }
        }
        match self.position(idx) {
            Some(i) => {
                let ghost oc = self.spec_chunks();
                self.chunks.set(i, chunks);
                self.callbacks.set(i, finish_callback);
                proof {
                    assert(self.spec_chunks() =~= oc.update(i as int, Seq::new(chunk_count(piece_length), |k: int| ChunkDownStatus::Unbegun)));
                }
            },
            None => {
                let ghost oc = self.spec_chunks();
                let ghost ok = self.keys@;
                self.keys.push(idx);
                self.chunks.push(chunks);
                self.callbacks.push(finish_callback);
                proof {
                    assert(self.spec_chunks() =~= oc.push(Seq::new(chunk_count(piece_length), |k: int| ChunkDownStatus::Unbegun)));
                    assert(self.order@[self.order@.len() - 1] == idx);
                    assert forall|a: int, b: int| 0 <= a < b < self.keys@.len() implies #[trigger] self.keys@[a] != #[trigger] self.keys@[b] by {
                        if b == ok.len() {
                            assert(ok[a] != idx);
                        }
                    }
                    assert forall|a: int| 0 <= a < self.keys@.len() implies #[trigger] self.order@.contains(self.keys@[a]) by {
                        if a == ok.len() {
                            assert(self.order@[self.order@.len() - 1] == self.keys@[a]);
                        }
                    }
                }
            },
        }
    }

    /// Goes round the pieces from the cursor, one try per listed piece, and hands out up to
    /// `n` unbegun chunks of the first piece that has any, paired with the piece index; the
    /// cursor moves one step per try.
    pub fn get_random_unbeguns(&mut self, n: usize) -> (r: Option<Vec<(u32, u32)>>)
        requires
            old(self).wf(),
        ensures
            final(self).wf(),
            final(self).spec_order() == old(self).spec_order(),
            final(self).spec_keys() == old(self).spec_keys(),
            final(self).spec_chunks() == old(self).spec_chunks(),
            final(self).spec_callbacks() == old(self).spec_callbacks(),
            ({
                let o = old(self).spec_order();
                let c = old(self).spec_cursor();
                let k = first_pick(o, old(self).spec_keys(), old(self).spec_chunks(), c, n as int, 0);
                if k >= o.len() {
                    r is None && final(self).spec_cursor() == cursor_at(c, o.len() as int)
                } else {
                    let p = piece_at_try(o, c, k);
                    let cs = old(self).spec_chunks()[key_index(old(self).spec_keys(), p)->0];
                    &&& final(self).spec_cursor() == cursor_at(c, k + 1)
                    &&& r matches Some(v) && exists|mid: int|
                        0 <= mid < cs.len() && #[trigger] with_piece(
                            p,
                            as_u32s(first_n(unbegun_from(cs, mid), n as int)),
                        ) == v@
                }
            }),
    {
        let ghost c0 = self.cursor;
        let ghost o = self.order@;
        let ghost ks = self.keys@;
        let ghost cs = self.spec_chunks();
        let len = self.order.len();
        let mut t: usize = 0;
        while t < len
            invariant
                self.wf(),
                old(self).wf(),
                o == self.order@,
                ks == self.keys@,
                cs == self.spec_chunks(),
                self.spec_callbacks() == old(self).spec_callbacks(),
                o == old(self).spec_order(),
                ks == old(self).spec_keys(),
                cs == old(self).spec_chunks(),
                c0 == old(self).spec_cursor(),
                len == o.len(),
                0 <= t <= len,
                self.cursor == cursor_at(c0, t as int),
                first_pick(o, ks, cs, c0, n as int, 0) == first_pick(o, ks, cs, c0, n as int, t as int),
            decreases len - t,
        {
            let pos = self.cursor % len;
            self.cursor = self.cursor.wrapping_add(1);
            proof {
                assert(self.order@ == o && self.keys@ == ks);
                assert(self.spec_chunks() =~= cs);
                assert(self.spec_order() == o && self.spec_keys() == ks);
                lemma_listed_keys(old(self).spec_order(), old(self).spec_keys(), self.spec_order(), self.spec_keys());
                assert(self.wf());
            }
            let p = self.order[pos];
            assert(p == piece_at_try(o, c0, t as int));
            match self.position(p) {
                Some(i) => {
                    match self.chunks[i].get_unbegun(n) {
                        Some(picked) => {
                            let mut v: Vec<(u32, u32)> = Vec::new();
                            let mut j: usize = 0;
                            while j < picked.len()
                                invariant
                                    0 <= j <= picked@.len(),
                                    v@ == with_piece(p, picked@.take(j as int)),
                                decreases picked@.len() - j,
                            {
                                v.push((p, picked[j]));
                                j += 1;
                                assert(v@ =~= with_piece(p, picked@.take(j as int)));
                            }
                            assert(picked@.take(j as int) =~= picked@);
                            proof {
                                assert(cs[i as int] == self.chunks@[i as int].statuses());
                                assert(can_pick(ks, cs, p, n as int));
                            }
                            return Some(v);
                        },
                        None => {
                            assert(cs[i as int] == self.chunks@[i as int].statuses());
                        },
                    }
                },
                None => {},
            }
            assert(!can_pick(ks, cs, piece_at_try(o, c0, t as int), n as int));
            t += 1;
        }
        None
    }

    /// Stops downloading piece `idx`: its first listing leaves the order, and its chunks leave
    /// with it, its callback being handed back. Nothing changes for a piece that is not listed.
    pub fn remove(&mut self, idx: u32) -> (r: Option<R>)
        requires
            old(self).wf(),
        ensures
            final(self).wf(),
            final(self).spec_cursor() == old(self).spec_cursor(),
            match old(self).spec_order().index_of_first(idx) {
                None => {
                    &&& r is None
                    &&& final(self).spec_order() == old(self).spec_order()
                    &&& final(self).spec_keys() == old(self).spec_keys()
                    &&& final(self).spec_chunks() == old(self).spec_chunks()
                    &&& final(self).spec_callbacks() == old(self).spec_callbacks()
                },
                Some(w) => {
                    &&& final(self).spec_order() == old(self).spec_order().remove(w)
                    &&& match key_index(old(self).spec_keys(), idx) {
                        Some(i) => {
                            &&& r == Some(old(self).spec_callbacks()[i])
                            &&& final(self).spec_keys() == old(self).spec_keys().remove(i)
                            &&& final(self).spec_chunks() == old(self).spec_chunks().remove(i)
                            &&& final(self).spec_callbacks() == old(self).spec_callbacks().remove(i)
                        },
                        None => {
                            &&& r is None
                            &&& final(self).spec_keys() == old(self).spec_keys()
                            &&& final(self).spec_chunks() == old(self).spec_chunks()
                            &&& final(self).spec_callbacks() == old(self).spec_callbacks()
                        },
                    }
                },
            },
    {
        proof {
            self.order@.index_of_first_ensures(idx);
        }
        let mut w: usize = 0;
        while w < self.order.len() && self.order[w] != idx
            invariant
                0 <= w <= self.order@.len(),
                forall|k: int| 0 <= k < w ==> self.order@[k] != idx,
            decreases self.order@.len() - w,
        {
            w += 1;
        }
        if w == self.order.len() {
            proof {
                if self.order@.contains(idx) {
                    let k = choose|k: int| 0 <= k < self.order@.len() && self.order@[k] == idx;
                    assert(self.order@[k] != idx);
                }
            }
            return None;
        }
        proof {
            let f = self.order@.index_of_first(idx);
            assert(self.order@.contains(idx)) by {
                assert(self.order@[w as int] == idx);
            }
            assert(f == Some(w as int));
        }
        let ghost o = self.order@;
        let found = self.position(idx);
        self.order.remove(w);
        let ghost ks = self.keys@;
        let ghost cs = self.spec_chunks();
        match found {
            Some(i) => {
                self.keys.remove(i);
                self.chunks.remove(i);
                let cb = self.callbacks.remove(i);
                proof {
                    assert(self.spec_chunks() =~= cs.remove(i as int));
                    assert forall|a: int, b: int| 0 <= a < b < self.keys@.len() implies #[trigger] self.keys@[a] != #[trigger] self.keys@[b] by {
                        let a2 = if a < i { a } else { a + 1 };
                        let b2 = if b < i { b } else { b + 1 };
                        assert(ks[a2] != ks[b2]);
                    }
                    assert forall|a: int| 0 <= a < self.keys@.len() implies #[trigger] self.order@.contains(self.keys@[a]) by {
                        let a2 = if a < i { a } else { a + 1 };
                        assert(ks[a2] != ks[i as int]);
                        assert(old(self).spec_order().contains(old(self).spec_keys()[a2]));
                        let u = choose|u: int| 0 <= u < o.len() && o[u] == ks[a2];
                        if u < w {
                            assert(self.order@[u] == ks[a2]);
                        } else {
                            assert(u != w);
                            assert(self.order@[u - 1] == ks[a2]);
                        }
                    }
                    assert forall|a: int| 0 <= a < self.keys@.len() implies #[trigger] self.spec_chunks()[a].len() <= 0x40000 by {
                        let a2 = if a < i { a } else { a + 1 };
                        assert(cs[a2].len() <= 0x40000);
                    }
                }
                Some(cb)
            },
            None => {
                proof {
                    assert forall|a: int| 0 <= a < self.keys@.len() implies #[trigger] self.order@.contains(self.keys@[a]) by {
                        assert(ks[a] != idx);
                        assert(old(self).spec_order().contains(old(self).spec_keys()[a]));
                        let u = choose|u: int| 0 <= u < o.len() && o[u] == ks[a];
                        if u < w {
                            assert(self.order@[u] == ks[a]);
                        } else {
                            assert(u != w);
                            assert(self.order@[u - 1] == ks[a]);
                        }
                    }
                }
                None
            },
        }
    }

    /// Number of requested chunks not yet received, over all pieces.
    pub fn count_pending(&self) -> (r: u32)
        requires
            self.wf(),
            total_pending(self.spec_chunks(), self.spec_chunks().len() as int) <= u32::MAX,
        ensures
            r == total_pending(self.spec_chunks(), self.spec_chunks().len() as int),
    {
        let ghost cs = self.spec_chunks();
        let mut total: u32 = 0;
        let mut i: usize = 0;
        while i < self.chunks.len()
            invariant
                self.wf(),
                cs == self.spec_chunks(),
                0 <= i <= cs.len(),
                total_pending(cs, cs.len() as int) <= u32::MAX,
                total == total_pending(cs, i as int),
            decreases cs.len() - i,
        {
            proof {
                lemma_total_pending_mono(cs, i + 1, cs.len() as int);
                assert(cs[i as int] == self.chunks@[i as int].statuses());
            }
            let c = self.chunks[i].count_pending();
            total = total + c;
            i += 1;
        }
        total
    }

    /// Marks chunk `chunk_idx` of piece `piece_idx` as requested.
    pub fn chunk_requested(&mut self, piece_idx: u32, chunk_idx: u32) -> (r: Result<(), NotDownloading>)
        requires
            old(self).wf(),
            key_index(old(self).spec_keys(), piece_idx) matches Some(i) ==> (chunk_idx < old(self).spec_chunks()[i].len()),
        ensures
            final(self).wf(),
            final(self).spec_cursor() == old(self).spec_cursor(),
            final(self).spec_order() == old(self).spec_order(),
            final(self).spec_keys() == old(self).spec_keys(),
            final(self).spec_callbacks() == old(self).spec_callbacks(),
            match key_index(old(self).spec_keys(), piece_idx) {
                Some(i) => r is Ok && final(self).spec_chunks() == old(self).spec_chunks().update(
                    i,
                    old(self).spec_chunks()[i].update(chunk_idx as int, ChunkDownStatus::Pending),
                ),
                None => r == Err::<(), NotDownloading>(NotDownloading { piece_idx })
                    && final(self).spec_chunks() == old(self).spec_chunks(),
            },
    {
        match self.position(piece_idx) {
            Some(i) => {
                let ghost cs = self.spec_chunks();
                assert(cs[i as int] == self.chunks@[i as int].statuses());
                self.chunks[i].set_pending(chunk_idx as usize);
                proof {
                    assert(self.spec_chunks() =~= cs.update(i as int, cs[i as int].update(chunk_idx as int, ChunkDownStatus::Pending)));
                    assert forall|k: int| 0 <= k < self.keys@.len() implies #[trigger] self.spec_chunks()[k].len() <= 0x40000 by {
                        assert(cs[k].len() <= 0x40000);
                    }
                    lemma_listed_keys(old(self).spec_order(), old(self).spec_keys(), self.spec_order(), self.spec_keys());
                }
                Ok(())
            },
            None => Err(NotDownloading { piece_idx }),
        }
    }

    /// Stores a received block in its chunk and gives the number of chunks of its piece still
    /// missing; refused unless `storable`.
    pub fn store_chunk_get_remaining(&mut self, piece: &Piece) -> (r: Result<u32, ChunkNotSaved>)
        requires
            old(self).wf(),
        ensures
            final(self).wf(),
            final(self).spec_cursor() == old(self).spec_cursor(),
            final(self).spec_order() == old(self).spec_order(),
            final(self).spec_keys() == old(self).spec_keys(),
            final(self).spec_callbacks() == old(self).spec_callbacks(),
            !storable(old(self).spec_keys(), old(self).spec_chunks(), piece.index, piece.begin) ==> r
                == Err::<u32, ChunkNotSaved>(ChunkNotSaved { index: piece.index, begin: piece.begin })
                && final(self).spec_chunks() == old(self).spec_chunks(),
            storable(old(self).spec_keys(), old(self).spec_chunks(), piece.index, piece.begin) ==> {
                let i = key_index(old(self).spec_keys(), piece.index)->0;
                let b = piece.begin / 16384;
                let nc = final(self).spec_chunks()[i];
                &&& nc[b as int] matches ChunkDownStatus::Downloaded(d) && d@ == piece.block.0@
                &&& nc == old(self).spec_chunks()[i].update(b as int, nc[b as int])
                &&& final(self).spec_chunks() == old(self).spec_chunks().update(i, nc)
                &&& r == Ok::<u32, ChunkNotSaved>((num_unbegun(nc) + num_pending(nc)) as u32)
            },
    {
        match self.position(piece.index) {
            Some(i) => {
                if piece.begin % CHUNK_SIZE == 0 {
                    let b = (piece.begin / CHUNK_SIZE) as usize;
                    let ghost cs = self.spec_chunks();
                    assert(cs[i as int] == self.chunks@[i as int].statuses());
                    if b < self.chunks[i].len() && self.chunks[i].is_pending(b) {
                        let data = piece.block.as_bytes();
                        self.chunks[i].set_downloaded(b, data);
                        proof {
                            let nc = self.chunks@[i as int].statuses();
                            assert(self.spec_chunks() =~= cs.update(i as int, nc));
                            assert(nc =~= cs[i as int].update(b as int, nc[b as int]));
                            assert forall|k: int| 0 <= k < self.keys@.len() implies #[trigger] self.spec_chunks()[k].len() <= 0x40000 by {
                                assert(cs[k].len() <= 0x40000);
                            }
                            lemma_listed_keys(old(self).spec_order(), old(self).spec_keys(), self.spec_order(), self.spec_keys());
                        }
                        let remaining = self.chunks[i].remaining();
                        return Ok(remaining);
                    }
                }
                Err(ChunkNotSaved { index: piece.index, begin: piece.begin })
            },
            None => Err(ChunkNotSaved { index: piece.index, begin: piece.begin }),
        }
    }

    /// Every requested chunk of every piece becomes unbegun again.
    pub fn cancel_pending(&mut self)
        requires
            old(self).wf(),
        ensures
            final(self).wf(),
            final(self).spec_cursor() == old(self).spec_cursor(),
            final(self).spec_order() == old(self).spec_order(),
            final(self).spec_keys() == old(self).spec_keys(),
            final(self).spec_callbacks() == old(self).spec_callbacks(),
            final(self).spec_chunks() == old(self).spec_chunks().map_values(
                |c: Seq<ChunkDownStatus>| cancelled(c),
            ),
    {
        let ghost cs = self.spec_chunks();
        let mut i: usize = 0;
        while i < self.chunks.len()
            invariant
                cs == old(self).spec_chunks(),
                self.spec_cursor() == old(self).spec_cursor(),
                self.spec_order() == old(self).spec_order(),
                self.spec_keys() == old(self).spec_keys(),
                self.spec_callbacks() == old(self).spec_callbacks(),
                self.spec_chunks().len() == cs.len(),
                0 <= i <= cs.len(),
                forall|k: int| 0 <= k < i ==> #[trigger] self.spec_chunks()[k] == cancelled(cs[k]),
                forall|k: int| i <= k < cs.len() ==> #[trigger] self.spec_chunks()[k] == cs[k],
            decreases cs.len() - i,
        {
            assert(self.spec_chunks()[i as int] == self.chunks@[i as int].statuses());
            let ghost prev = self.spec_chunks();
            self.chunks[i].cancel_pending();
            assert(self.spec_chunks() =~= prev.update(i as int, cancelled(cs[i as int])));
            i += 1;
        }
        proof {
            assert(self.spec_chunks() =~= cs.map_values(|c: Seq<ChunkDownStatus>| cancelled(c)));
            assert forall|k: int| 0 <= k < self.keys@.len() implies #[trigger] self.spec_chunks()[k].len() <= 0x40000 by {
                assert(cs[k].len() <= 0x40000);
            }
        }
    }
}

} // verus!
