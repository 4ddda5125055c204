//! The DHT routing table: buckets of up to eight nodes, split as they fill.
use vstd::prelude::*;
use crate::bitmap::bit_at;
use crate::id::{ID, ID_BIT_COUNT, ID_LEN, first_diff_at, bits_agree, id_less, xor_seq, lemma_id_less_strict_total, lemma_first_diff_unique, lemma_id_view_eq};
use crate::peer::{Peer, CompactLenError, socketaddr_from_compact_bytes, ipv4_of, port_of};
use crate::clock::{now_millis, next_count, Clock};
use core::cmp::Ordering;

verus! {

pub const K_NODE_PER_BUCKET: usize = 8;
pub const COMPACT_NODE_LEN: usize = 26;
/// A node stays good for fifteen minutes after it was last heard from.
pub const NODE_VALIDITY_MILLIS: u64 = 900000;
/// The table never holds more buckets than an identifier has bits, plus one.
pub const MAX_BUCKETS: usize = 161;

/// A DHT node: its identifier, its address, and when it was last heard from (milliseconds).
#[derive(Debug, Clone, Copy)]
pub struct Node {
    pub id: ID,
    pub addr: Peer,
    pub last_seen: Option<u64>,
}

/// Heard from within the validity period before `now`.
pub open spec fn node_good(n: Node, now: u64) -> bool {
    n.last_seen matches Some(t) && (now <= t || now - t < NODE_VALIDITY_MILLIS)
}

/// Not heard from for longer than the validity period before `now`.
pub open spec fn node_bad(n: Node, now: u64) -> bool {
    n.last_seen matches Some(t) && now > t && now - t > NODE_VALIDITY_MILLIS
}

/// A slot holding a good node.
pub open spec fn slot_good(s: Option<Node>, now: u64) -> bool {
    s matches Some(n) && node_good(n, now)
}

/// A slot holding the node `id`.
pub open spec fn slot_has(s: Option<Node>, id: ID) -> bool {
    s matches Some(n) && n.id == id
}

impl Node {
    /// A node heard from at `now`.
    pub fn new_good_at(id: ID, addr: Peer, now: u64) -> (r: Node)
        ensures
            r == (Node { id, addr, last_seen: Some(now) }),
    {
        Node { id, addr, last_seen: Some(now) }
    }

    /// A node heard from just now.
    pub fn new_good(id: ID, addr: Peer) -> (r: Node)
        ensures
            r.id == id && r.addr == addr && r.last_seen is Some,
    {
        Node::new_good_at(id, addr, now_millis())
    }

    /// Reads a node from its compact form: the identifier, then the address (26 bytes).
    pub fn from_compact_bytes(buff: &[u8]) -> (r: Result<Node, CompactLenError>)
        ensures
            r is Ok <==> buff@.len() == COMPACT_NODE_LEN,
            r matches Ok(n) ==> n.id@ == buff@.subrange(0, 20) && n.addr.ip == ipv4_of(
                buff@[20],
                buff@[21],
                buff@[22],
                buff@[23],
            ) && n.addr.port == port_of(buff@[24], buff@[25]) && n.last_seen is None,
            r matches Err(e) ==> e.found == buff@.len() && e.expected == COMPACT_NODE_LEN,
    {
        if buff.len() != COMPACT_NODE_LEN {
            return Err(CompactLenError { found: buff.len(), expected: COMPACT_NODE_LEN });
        }
        let mut id = [0u8; ID_LEN];
        let mut k: usize = 0;
        while k < ID_LEN
            invariant
                buff@.len() == 26,
                0 <= k <= 20,
                forall|j: int| 0 <= j < k ==> id@[j] == buff@[j],
            decreases 20 - k,
        {
            id[k] = buff[k];
            k += 1;
        }
        assert(id@ =~= buff@.subrange(0, 20));
        let addr = match socketaddr_from_compact_bytes(&buff[20..26]) {
            Ok(a) => a,
            Err(e) => {
                return Err(CompactLenError { found: buff.len(), expected: COMPACT_NODE_LEN });
            },
        };
        Ok(Node { id: ID::new(id), addr, last_seen: None })
    }

    /// Records that the node was heard from at `now`.
    pub fn touch_at(&mut self, now: u64)
        ensures
            *final(self) == (Node { last_seen: Some(now), ..*old(self) }),
    {
        self.last_seen = Some(now);
    }

    /// Records that the node was heard from just now.
    pub fn touch(&mut self)
        ensures
            final(self).id == old(self).id,
            final(self).addr == old(self).addr,
            final(self).last_seen is Some,
    {
        self.touch_at(now_millis());
    }

    /// Whether the node is good at `now`.
    pub fn is_good_at(&self, now: u64) -> (r: bool)
        ensures
            r == node_good(*self, now),
    {
        match self.last_seen {
            Some(t) => now <= t || now - t < NODE_VALIDITY_MILLIS,
            None => false,
        }
    }

    /// Whether the node is bad at `now`.
    pub fn is_bad_at(&self, now: u64) -> (r: bool)
        ensures
            r == node_bad(*self, now),
    {
        match self.last_seen {
            Some(t) => now > t && now - t > NODE_VALIDITY_MILLIS,
            None => false,
        }
    }
}

/// `a` comes before `b` in identifier order.
pub fn id_precedes(a: &ID, b: &ID) -> (r: bool)
    ensures
        r == id_less(a@, b@),
{
    match a.cmp_first_n_bits(b, ID_BIT_COUNT) {
        Ordering::Less => true,
        Ordering::Equal => {
            proof {
                if id_less(a@, b@) {
                    let k = choose|k: int| 0 <= k < 160 && #[trigger] first_diff_at(a@, b@, k) && !bit_at(a@, k);
                    assert(bit_at(a@, k) == bit_at(b@, k));
                }
            }
            false
        },
        Ordering::Greater => {
            proof {
                lemma_id_less_strict_total(b@, a@, a@);
            }
            false
        },
    }
}

/// Eight slots of nodes; no identifier occurs twice.
pub open spec fn unique_slots(s: Seq<Option<Node>>) -> bool {
    forall|i: int, j: int|
        0 <= i < j < s.len() ==> !(#[trigger] s[i] matches Some(a) && #[trigger] s[j] matches Some(b)
            && a.id == b.id)
}

/// A slot that may take a new node: the first empty one, or else the first whose node is not
/// good at `now`.
pub open spec fn replaceable_at(s: Seq<Option<Node>>, now: u64, i: int) -> bool {
    &&& 0 <= i < s.len()
    &&& if s[i] is None {
        forall|j: int| 0 <= j < i ==> #[trigger] s[j] is Some
    } else {
        &&& forall|j: int| 0 <= j < s.len() ==> #[trigger] s[j] is Some
        &&& !slot_good(s[i], now)
        &&& forall|j: int| 0 <= j < i ==> #[trigger] slot_good(s[j], now)
    }
}

/// Every slot holds a good node.
pub open spec fn all_good(s: Seq<Option<Node>>, now: u64) -> bool {
    forall|j: int| 0 <= j < s.len() ==> #[trigger] slot_good(s[j], now)
}

/// The slot holding `id`, if any.
pub open spec fn holds(s: Seq<Option<Node>>, id: ID) -> bool {
    exists|i: int| 0 <= i < s.len() && #[trigger] slot_has(s[i], id)
}

/// What recording `id` at `addr` at time `now` makes of the slots `before`, with `ok` telling
/// whether it was taken: a known node is touched, a new one takes the replaceable slot, and
/// nothing changes when it is refused, which happens exactly when `id` is unknown and every
/// slot holds a good node.
pub open spec fn insert_outcome(
    before: Seq<Option<Node>>,
    after: Seq<Option<Node>>,
    id: ID,
    addr: Peer,
    now: u64,
    ok: bool,
) -> bool {
    &&& !ok <==> !holds(before, id) && all_good(before, now)
    &&& !ok ==> after == before
    &&& holds(before, id) ==> exists|i: int|
        0 <= i < 8 && slot_has(before[i], id) && after == before.update(
            i,
            Some(Node { last_seen: Some(now), ..before[i]->0 }),
        )
    &&& !holds(before, id) && ok ==> exists|i: int|
        replaceable_at(before, now, i) && after == before.update(
            i,
            Some(Node { id, addr, last_seen: Some(now) }),
        )
}

/// The nodes of the slots, in slot order.
pub open spec fn present(s: Seq<Option<Node>>) -> Seq<Node>
    decreases s.len(),
{
    if s.len() == 0 {
        Seq::empty()
    } else {
        present(s.drop_last()) + match s.last() {
            Some(n) => seq![n],
            None => Seq::empty(),
        }
    }
}

/// The good nodes of the slots, in slot order.
pub open spec fn goods(s: Seq<Option<Node>>, now: u64) -> Seq<Node>
    decreases s.len(),
{
    if s.len() == 0 {
        Seq::empty()
    } else {
        goods(s.drop_last(), now) + if slot_good(s.last(), now) {
            seq![s.last()->0]
        } else {
            Seq::empty()
        }
    }
}

/// The nodes whose bit `depth` is `b`, in order.
pub open spec fn with_bit(ns: Seq<Node>, depth: int, b: bool) -> Seq<Node>
    decreases ns.len(),
{
    if ns.len() == 0 {
        Seq::empty()
    } else {
        with_bit(ns.drop_last(), depth, b) + if bit_at(ns.last().id@, depth) == b {
            seq![ns.last()]
        } else {
            Seq::empty()
        }
    }
}

/// The slots hold `ns` first, then nothing.
pub open spec fn packed(s: Seq<Option<Node>>, ns: Seq<Node>) -> bool {
    &&& ns.len() <= s.len()
    &&& forall|i: int|
        0 <= i < s.len() ==> #[trigger] s[i] == if i < ns.len() {
            Some(ns[i])
        } else {
            None::<Node>
        }
}

/// Number of empty slots among the first `n`.
pub open spec fn count_empty(s: Seq<Option<Node>>, n: int) -> nat
    decreases n,
{
    if n <= 0 {
        0
    } else {
        count_empty(s, n - 1) + if s[n - 1] is None {
            1nat
        } else {
            0nat
        }
    }
}

/// Number of slots holding a bad node at `now`, among the first `n`.
pub open spec fn count_bad(s: Seq<Option<Node>>, n: int, now: u64) -> nat
    decreases n,
{
    if n <= 0 {
        0
    } else {
        count_bad(s, n - 1, now) + if s[n - 1] matches Some(x) && node_bad(x, now) {
            1nat
        } else {
            0nat
        }
    }
}

/// `id` agrees with `own` on its first `depth + 1` bits (all of them when `depth` is past the end).
pub open spec fn within_range(own: ID, id: ID, depth: int) -> bool {
    forall|k: int| 0 <= k < 160 && k <= depth ==> #[trigger] bit_at(own@, k) == bit_at(id@, k)
}

/// `v` is held by one of the first `i` slots.
pub open spec fn from_earlier(orig: Seq<Option<Node>>, i: int, v: Option<Node>) -> bool {
    exists|k: int| 0 <= k < i && orig[k] == v
}

/// `v` is a node with bit `d` equal to `b`, held by one of the first `i` slots.
pub open spec fn placed(orig: Seq<Option<Node>>, i: int, v: Option<Node>, d: int, b: bool) -> bool {
    bit_at(v->0.id@, d) == b && from_earlier(orig, i, v)
}

/// Placing the node of slot `i` at the first free position `at` of a half keeps its
/// identifiers distinct, the earlier nodes all coming from earlier slots.
proof fn lemma_unique_after_place(
    before: Seq<Option<Node>>,
    after: Seq<Option<Node>>,
    orig: Seq<Option<Node>>,
    at: int,
    i: int,
    d: int,
    b: bool,
)
    requires
        unique_slots(before),
        unique_slots(orig),
        orig.len() == 8,
        before.len() == 8,
        0 <= at < 8,
        0 <= i < 8,
        orig[i] is Some,
        after == before.update(at, orig[i]),
        forall|a: int| at <= a < 8 ==> #[trigger] before[a] is None,
        forall|a: int| 0 <= a < at ==> #[trigger] placed(orig, i, before[a], d, b),
    ensures
        unique_slots(after),
{
    assert forall|x: int, y: int| 0 <= x < y < after.len() implies !(#[trigger] after[x] matches Some(p) && #[trigger] after[y] matches Some(q) && p.id == q.id) by {
        if y == at {
            if after[x] is Some {
                assert(x < at) by {
                    if x > at {
                        assert(before[x] is None);
                    }
                }
                assert(placed(orig, i, before[x], d, b));
                let k = choose|k: int| 0 <= k < i && orig[k] == before[x];
                assert(!(orig[k] matches Some(p) && orig[i] matches Some(q) && p.id == q.id));
            }
        } else if x == at {
            assert(before[y] is None);
        } else {
            assert(!(before[x] matches Some(p) && before[y] matches Some(q) && p.id == q.id));
        }
    }
}

/// Could not store a node: every slot holds a good node.
#[derive(Debug, Clone, Copy, PartialEq, Eq, Structural)]
pub struct BucketFull;

/// Up to eight nodes that agree with the table's own identifier on their first `depth - 1`
/// bits (or, for the last bucket, on their first `depth` bits).
#[derive(Debug, Clone, Copy)]
pub struct Bucket {
    depth: usize,
    data: [Option<Node>; K_NODE_PER_BUCKET],
}

impl Bucket {
    pub closed spec fn slots(self) -> Seq<Option<Node>> {
        self.data@
    }

    pub closed spec fn spec_depth(self) -> usize {
        self.depth
    }

    pub open spec fn wf(self) -> bool {
        self.slots().len() == K_NODE_PER_BUCKET && unique_slots(self.slots())
    }

    /// An empty bucket at `depth`.
    pub fn new(depth: usize) -> (r: Bucket)
        ensures
            r.wf(),
            r.spec_depth() == depth,
            forall|i: int| 0 <= i < 8 ==> #[trigger] r.slots()[i] is None,
    {
        Bucket { depth, data: [None, None, None, None, None, None, None, None] }
    }

    /// The slot holding `id`.
    fn position_of(&self, id: &ID) -> (r: Option<usize>)
        requires
            self.wf(),
        ensures
            r matches Some(i) ==> i < 8 && slot_has(self.slots()[i as int], *id),
            r is None ==> !holds(self.slots(), *id),
    {
        let mut i: usize = 0;
        while i < K_NODE_PER_BUCKET
            invariant
                self.wf(),
                0 <= i <= 8,
                forall|j: int| 0 <= j < i ==> !#[trigger] slot_has(self.slots()[j], *id),
            decreases 8 - i,
        {
            if let Some(n) = &self.data[i] {
                if n.id == *id {
                    proof {
                        lemma_id_view_eq(n.id, *id);
                    }
                    return Some(i);
                }
            }
            i += 1;
        }
        None
    }

    /// The node `id`, if the bucket holds it.
    pub fn get_node(&self, id: &ID) -> (r: Option<&Node>)
        requires
            self.wf(),
        ensures
            r matches Some(n) ==> n.id == *id && exists|i: int|
                0 <= i < 8 && #[trigger] self.slots()[i] == Some(*n),
            r is None ==> !holds(self.slots(), *id),
    {
        match self.position_of(id) {
            Some(i) => match &self.data[i] {
                Some(n) => Some(n),
                None => None,
            },
            None => None,
        }
    }

    /// Whether the bucket holds `id`.
    pub fn contains(&self, id: &ID) -> (r: bool)
        requires
            self.wf(),
        ensures
            r == holds(self.slots(), *id),
    {
        self.position_of(id).is_some()
    }

    /// The slot a new node may take at `now`: the first empty one, or else the first whose
    /// node is not good.
    pub fn find_replaceable_node_idx(&self, now: u64) -> (r: Option<usize>)
        requires
            self.wf(),
        ensures
            r matches Some(i) ==> replaceable_at(self.slots(), now, i as int),
            r is None ==> all_good(self.slots(), now),
    {
        let mut i: usize = 0;
        while i < K_NODE_PER_BUCKET
            invariant
                self.wf(),
                0 <= i <= 8,
                forall|j: int| 0 <= j < i ==> #[trigger] self.slots()[j] is Some,
            decreases 8 - i,
        {
            if self.data[i].is_none() {
                return Some(i);
            }
            i += 1;
        }
        let mut i: usize = 0;
        while i < K_NODE_PER_BUCKET
            invariant
                self.wf(),
                0 <= i <= 8,
                forall|j: int| 0 <= j < 8 ==> #[trigger] self.slots()[j] is Some,
                forall|j: int| 0 <= j < i ==> #[trigger] slot_good(self.slots()[j], now),
            decreases 8 - i,
        {
            let good = match &self.data[i] {
                Some(n) => n.is_good_at(now),
                None => false,
            };
            if !good {
                return Some(i);
            }
            i += 1;
        }
        None
    }

    /// No slot may take a new node at `now`.
    pub fn is_full(&self, now: u64) -> (r: bool)
        requires
            self.wf(),
        ensures
            r == all_good(self.slots(), now),
    {
        let r = self.find_replaceable_node_idx(now);
        proof {
            if let Some(i) = r {
                assert(!slot_good(self.slots()[i as int], now));
            }
        }
        r.is_none()
    }

    /// Records `id` at `addr` as heard from at `now`: a known node is touched, a new one takes
    /// the replaceable slot; refused when every slot holds a good node.
    pub fn try_insert_at(&mut self, id: &ID, addr: &Peer, now: u64) -> (r: Result<(), BucketFull>)
        requires
            old(self).wf(),
        ensures
            final(self).wf(),
            final(self).spec_depth() == old(self).spec_depth(),
            r is Err <==> !holds(old(self).slots(), *id) && all_good(old(self).slots(), now),
            r is Err ==> final(self).slots() == old(self).slots(),
            holds(old(self).slots(), *id) ==> exists|i: int|
                0 <= i < 8 && slot_has(old(self).slots()[i], *id) && final(self).slots()
                    == old(self).slots().update(
                    i,
                    Some(Node { last_seen: Some(now), ..old(self).slots()[i]->0 }),
                ),
            !holds(old(self).slots(), *id) && r is Ok ==> exists|i: int|
                replaceable_at(old(self).slots(), now, i) && final(self).slots()
                    == old(self).slots().update(
                    i,
                    Some(Node { id: *id, addr: *addr, last_seen: Some(now) }),
                ),
    {
        let ghost old_slots = self.slots();
        match self.position_of(id) {
            Some(i) => {
                let mut n = self.data[i].unwrap();
                n.touch_at(now);
                self.data[i] = Some(n);
                proof {
                    assert(self.slots() == old_slots.update(i as int, Some(n)));
                    assert forall|a: int, b: int| 0 <= a < b < 8 implies !(#[trigger] self.slots()[a] matches Some(x) && #[trigger] self.slots()[b] matches Some(y) && x.id == y.id) by {
                        assert(!(old_slots[a] matches Some(x) && old_slots[b] matches Some(y) && x.id == y.id));
                    }
                }
                return Ok(());
            },
            None => {},
        }
        match self.find_replaceable_node_idx(now) {
            Some(i) => {
                assert(!slot_good(old_slots[i as int], now));
                self.data[i] = Some(Node { id: *id, addr: *addr, last_seen: Some(now) });
                proof {
                    assert(self.slots() == old_slots.update(i as int, self.slots()[i as int]));
                    assert forall|a: int, b: int| 0 <= a < b < 8 implies !(#[trigger] self.slots()[a] matches Some(x) && #[trigger] self.slots()[b] matches Some(y) && x.id == y.id) by {
                        if a == i {
                            assert(!slot_has(old_slots[b], *id));
                        } else if b == i {
                            assert(!slot_has(old_slots[a], *id));
                        } else {
                            assert(!(old_slots[a] matches Some(x) && old_slots[b] matches Some(y) && x.id == y.id));
                        }
                    }
                }
                Ok(())
            },
            None => Err(BucketFull),
        }
    }

    /// Records `id` at `addr` as heard from just now.
    pub fn try_insert(&mut self, id: &ID, addr: &Peer) -> (r: Result<(), BucketFull>)
        requires
            old(self).wf(),
        ensures
            final(self).wf(),
            final(self).spec_depth() == old(self).spec_depth(),
            r is Ok ==> holds(final(self).slots(), *id),
            exists|now: u64|
                #[trigger] insert_outcome(old(self).slots(), final(self).slots(), *id, *addr, now, r is Ok),
            holds(old(self).slots(), *id) || (exists|j: int|
                0 <= j < 8 && #[trigger] old(self).slots()[j] is None) ==> r is Ok,
    {
        let now = now_millis();
        let r = self.try_insert_at(id, addr, now);
        proof {
            assert(insert_outcome(old(self).slots(), self.slots(), *id, *addr, now, r is Ok));
            if exists|j: int| 0 <= j < 8 && #[trigger] old(self).slots()[j] is None {
                let j = choose|j: int| 0 <= j < 8 && #[trigger] old(self).slots()[j] is None;
                assert(!slot_good(old(self).slots()[j], now));
            }
            if r is Ok {
                if holds(old(self).slots(), *id) {
                    let i = choose|i: int| 0 <= i < 8 && slot_has(old(self).slots()[i], *id) && self.slots() == old(self).slots().update(i, Some(Node { last_seen: Some(now), ..old(self).slots()[i]->0 }));
                    assert(slot_has(self.slots()[i], *id));
                } else {
                    let i = choose|i: int| replaceable_at(old(self).slots(), now, i) && self.slots() == old(self).slots().update(i, Some(Node { id: *id, addr: *addr, last_seen: Some(now) }));
                    assert(slot_has(self.slots()[i], *id));
                }
            }
        }
        r
    }

    pub fn depth(&self) -> (r: usize)
        ensures
            r == self.spec_depth(),
    {
        self.depth
    }
}

impl Bucket {
    /// Splits the bucket by bit `depth` of its nodes into the buckets one level deeper: nodes
    /// with the bit clear, then nodes with it set, each half keeping the slot order.
    pub fn split(self) -> (r: (Bucket, Bucket))
        requires
            self.wf(),
            self.spec_depth() < ID_BIT_COUNT,
        ensures
            r.0.wf(),
            r.1.wf(),
            r.0.spec_depth() == self.spec_depth() + 1,
            r.1.spec_depth() == self.spec_depth() + 1,
            packed(r.0.slots(), with_bit(present(self.slots()), self.spec_depth() as int, false)),
            packed(r.1.slots(), with_bit(present(self.slots()), self.spec_depth() as int, true)),
            forall|a: int|
                0 <= a < 8 && #[trigger] r.0.slots()[a] is Some ==> !bit_at(
                    r.0.slots()[a]->0.id@,
                    self.spec_depth() as int,
                ) && exists|k: int| 0 <= k < 8 && self.slots()[k] == r.0.slots()[a],
            forall|a: int|
                0 <= a < 8 && #[trigger] r.1.slots()[a] is Some ==> bit_at(
                    r.1.slots()[a]->0.id@,
                    self.spec_depth() as int,
                ) && exists|k: int| 0 <= k < 8 && self.slots()[k] == r.1.slots()[a],
            forall|k: int|
                0 <= k < 8 && #[trigger] self.slots()[k] is Some ==> exists|a: int|
                    0 <= a < 8 && (r.0.slots()[a] == self.slots()[k] || r.1.slots()[a]
                        == self.slots()[k]),
    {
        let ghost orig = self.slots();
        let d = self.depth;
        let mut one = Bucket::new(d + 1);
        let mut zero = Bucket::new(d + 1);
        let mut zi: usize = 0;
        let mut oi: usize = 0;
        let mut i: usize = 0;
        assert(orig.take(0) == Seq::<Option<Node>>::empty());
        while i < K_NODE_PER_BUCKET
            invariant
                orig == self.slots(),
                self.wf(),
                d == self.spec_depth(),
                d < 160,
                0 <= i <= 8,
                zi + oi <= i,
                zero.spec_depth() == d + 1,
                one.spec_depth() == d + 1,
                zero.slots().len() == 8,
                one.slots().len() == 8,
                zi == with_bit(present(orig.take(i as int)), d as int, false).len(),
                oi == with_bit(present(orig.take(i as int)), d as int, true).len(),
                packed(zero.slots(), with_bit(present(orig.take(i as int)), d as int, false)),
                packed(one.slots(), with_bit(present(orig.take(i as int)), d as int, true)),
                forall|a: int| 0 <= a < zi ==> #[trigger] placed(orig, i as int, zero.slots()[a], d as int, false),
                forall|a: int| 0 <= a < oi ==> #[trigger] placed(orig, i as int, one.slots()[a], d as int, true),
                forall|k: int|
                    0 <= k < i && #[trigger] orig[k] is Some ==> exists|a: int|
                        0 <= a < 8 && (zero.slots()[a] == orig[k] || one.slots()[a] == orig[k]),
                unique_slots(zero.slots()),
                unique_slots(one.slots()),
            decreases 8 - i,
        {
            let ghost ws0 = with_bit(present(orig.take(i as int)), d as int, false);
            let ghost ws1 = with_bit(present(orig.take(i as int)), d as int, true);
            let ghost z0 = zero.slots();
            let ghost o0 = one.slots();
            let ghost zi0 = zi as int;
            let ghost oi0 = oi as int;
            assert(orig.take(i + 1).drop_last() == orig.take(i as int));
            match self.data[i] {
                Some(node) => {
                    assert(present(orig.take(i + 1)) == present(orig.take(i as int)).push(node));
                    assert(present(orig.take(i as int)).push(node).drop_last() == present(orig.take(i as int)));
                    if node.id.get_bit(d) {
                        assert(with_bit(present(orig.take(i + 1)), d as int, true) == ws1.push(node));
                        assert(with_bit(present(orig.take(i + 1)), d as int, false) == ws0);
                        one.data[oi] = Some(node);
                        proof {
                            lemma_unique_after_place(o0, one.slots(), orig, oi0, i as int, d as int, true);
                        }
                        oi += 1;
                    } else {
                        assert(with_bit(present(orig.take(i + 1)), d as int, false) == ws0.push(node));
                        assert(with_bit(present(orig.take(i + 1)), d as int, true) == ws1);
                        zero.data[zi] = Some(node);
                        proof {
                            lemma_unique_after_place(z0, zero.slots(), orig, zi0, i as int, d as int, false);
                        }
                        zi += 1;
                    }
                },
                None => {
                    assert(present(orig.take(i + 1)) == present(orig.take(i as int)));
                },
            }
            i += 1;
            proof {
                assert forall|a: int| 0 <= a < zi implies #[trigger] placed(orig, i as int, zero.slots()[a], d as int, false) by {
                    if a < zi0 {
                        assert(zero.slots()[a] == z0[a]);
                        assert(placed(orig, i - 1, z0[a], d as int, false));
                        let k = choose|k: int| 0 <= k < i - 1 && orig[k] == z0[a];
                        assert(orig[k] == zero.slots()[a]);
                    } else {
                        assert(orig[i - 1] == zero.slots()[a]);
                        assert(!bit_at(zero.slots()[a]->0.id@, d as int));
                    }
                }
                assert forall|a: int| 0 <= a < oi implies #[trigger] placed(orig, i as int, one.slots()[a], d as int, true) by {
                    if a < oi0 {
                        assert(one.slots()[a] == o0[a]);
                        assert(placed(orig, i - 1, o0[a], d as int, true));
                        let k = choose|k: int| 0 <= k < i - 1 && orig[k] == o0[a];
                        assert(orig[k] == one.slots()[a]);
                    } else {
                        assert(orig[i - 1] == one.slots()[a]);
                        assert(bit_at(one.slots()[a]->0.id@, d as int));
                    }
                }
                assert forall|k: int| 0 <= k < i && #[trigger] orig[k] is Some implies exists|a: int|
                    0 <= a < 8 && (zero.slots()[a] == orig[k] || one.slots()[a] == orig[k]) by {
                    if k == i - 1 {
                        if zi > zi0 {
                            assert(zero.slots()[zi0] == orig[k]);
                        } else {
                            assert(one.slots()[oi0] == orig[k]);
                        }
                    } else {
                        let a = choose|a: int| 0 <= a < 8 && (z0[a] == orig[k] || o0[a] == orig[k]);
                        if z0[a] == orig[k] {
                            assert(a < zi0);
                            assert(zero.slots()[a] == orig[k]);
                        } else {
                            assert(a < oi0);
                            assert(one.slots()[a] == orig[k]);
                        }
                    }
                }
            }
        }
        assert(orig.take(8) == orig);
        proof {
            assert forall|a: int| 0 <= a < 8 && #[trigger] zero.slots()[a] is Some implies !bit_at(
                zero.slots()[a]->0.id@,
                d as int,
            ) && exists|k: int| 0 <= k < 8 && orig[k] == zero.slots()[a] by {
                assert(a < zi);
                assert(placed(orig, 8, zero.slots()[a], d as int, false));
            }
            assert forall|a: int| 0 <= a < 8 && #[trigger] one.slots()[a] is Some implies bit_at(
                one.slots()[a]->0.id@,
                d as int,
            ) && exists|k: int| 0 <= k < 8 && orig[k] == one.slots()[a] by {
                assert(a < oi);
                assert(placed(orig, 8, one.slots()[a], d as int, true));
            }
        }
        (zero, one)
    }
}

impl Bucket {
    /// The nodes, in slot order.
    pub fn iter_nodes(&self) -> (r: Vec<Node>)
        requires
            self.wf(),
        ensures
            r@ == present(self.slots()),
    {
        let ghost s = self.slots();
        let mut out: Vec<Node> = Vec::new();
        let mut i: usize = 0;
        assert(s.take(0) == Seq::<Option<Node>>::empty());
        while i < K_NODE_PER_BUCKET
            invariant
                s == self.slots(),
                self.wf(),
                0 <= i <= 8,
                out@ == present(s.take(i as int)),
            decreases 8 - i,
        {
            assert(s.take(i + 1).drop_last() == s.take(i as int));
            if let Some(n) = self.data[i] {
                out.push(n);
            }
            i += 1;
        }
        assert(s.take(8) == s);
        out
    }

    /// The nodes good at `now`, in slot order.
    pub fn iter_over_goods_at(&self, now: u64) -> (r: Vec<Node>)
        requires
            self.wf(),
        ensures
            r@ == goods(self.slots(), now),
    {
        let ghost s = self.slots();
        let mut out: Vec<Node> = Vec::new();
        let mut i: usize = 0;
        assert(s.take(0) == Seq::<Option<Node>>::empty());
        while i < K_NODE_PER_BUCKET
            invariant
                s == self.slots(),
                self.wf(),
                0 <= i <= 8,
                out@ == goods(s.take(i as int), now),
            decreases 8 - i,
        {
            assert(s.take(i + 1).drop_last() == s.take(i as int));
            if let Some(n) = self.data[i] {
                if n.is_good_at(now) {
                    out.push(n);
                }
            }
            i += 1;
        }
        assert(s.take(8) == s);
        out
    }

    /// The nodes good just now, in slot order.
    pub fn iter_over_goods(&self) -> (r: Vec<Node>)
        requires
            self.wf(),
        ensures
            exists|now: u64| r@ == goods(self.slots(), now),
    {
        self.iter_over_goods_at(now_millis())
    }

    /// Whether `id` shares its first `depth + 1` bits with `own_id`, as the nodes that a split
    /// of this bucket would keep with the table's own identifier.
    pub fn id_within_bucket_range(&self, own_id: &ID, id: &ID) -> (r: bool)
        ensures
            r == within_range(*own_id, *id, self.spec_depth() as int),
    {
        match own_id.first_diff_bit_idx(id) {
            None => true,
            Some(first_diff) => {
                proof {
                    if first_diff <= self.depth {
                        assert(bit_at(own_id@, first_diff as int) != bit_at(id@, first_diff as int));
                    }
                }
                first_diff > self.depth
            },
        }
    }

    /// Number of slots holding a node that has been silent for too long at `now`.
    pub fn _count_bads_at(&self, now: u64) -> (r: usize)
        requires
            self.wf(),
        ensures
            r == count_bad(self.slots(), 8, now),
    {
        let mut c: usize = 0;
        let mut i: usize = 0;
        while i < K_NODE_PER_BUCKET
            invariant
                self.wf(),
                0 <= i <= 8,
                c == count_bad(self.slots(), i as int, now),
                c <= i,
            decreases 8 - i,
        {
            if let Some(n) = self.data[i] {
                if n.is_bad_at(now) {
                    c += 1;
                }
            }
            i += 1;
        }
        c
    }

    /// Number of slots holding a node that has been silent for too long just now.
    pub fn _count_bads(&self) -> (r: usize)
        requires
            self.wf(),
        ensures
            exists|now: u64| r == count_bad(self.slots(), 8, now),
    {
        self._count_bads_at(now_millis())
    }

    /// Number of empty slots.
    pub fn _count_empty(&self) -> (r: usize)
        requires
            self.wf(),
        ensures
            r == count_empty(self.slots(), 8),
    {
        let mut c: usize = 0;
        let mut i: usize = 0;
        while i < K_NODE_PER_BUCKET
            invariant
                self.wf(),
                0 <= i <= 8,
                c == count_empty(self.slots(), i as int),
                c <= i,
            decreases 8 - i,
        {
            if self.data[i].is_none() {
                c += 1;
            }
            i += 1;
        }
        c
    }
}

/// Index of the first bit where `a` and `b` differ, or 160 when they agree on all bits.
pub open spec fn diff_index(a: Seq<u8>, b: Seq<u8>) -> int {
    if exists|k: int| 0 <= k < 160 && #[trigger] first_diff_at(a, b, k) {
        choose|k: int| 0 <= k < 160 && #[trigger] first_diff_at(a, b, k)
    } else {
        160
    }
}

/// The bucket, among `n`, that holds `id`: the bits shared with the own identifier decide.
pub open spec fn bucket_index(own: ID, id: ID, n: int) -> int {
    if diff_index(own@, id@) < n - 1 {
        diff_index(own@, id@)
    } else {
        n - 1
    }
}

proof fn lemma_first_diff_exists(a: Seq<u8>, b: Seq<u8>, n: int)
    requires
        0 <= n,
        !bits_agree(a, b, n),
    ensures
        exists|k: int| 0 <= k < n && #[trigger] first_diff_at(a, b, k),
    decreases n,
{
    if bits_agree(a, b, n - 1) {
        assert(first_diff_at(a, b, n - 1));
    } else {
        lemma_first_diff_exists(a, b, n - 1);
        let k = choose|k: int| 0 <= k < n - 1 && #[trigger] first_diff_at(a, b, k);
        assert(first_diff_at(a, b, k));
    }
}

/// `diff_index` is where the bits first differ: they agree below it, and differ at it when it
/// is below 160.
proof fn lemma_diff_index(a: Seq<u8>, b: Seq<u8>)
    ensures
        0 <= diff_index(a, b) <= 160,
        bits_agree(a, b, diff_index(a, b)),
        diff_index(a, b) < 160 ==> first_diff_at(a, b, diff_index(a, b)),
        forall|m: int| 0 <= m <= 160 && bits_agree(a, b, m) ==> diff_index(a, b) >= m,
{
    if exists|k: int| 0 <= k < 160 && #[trigger] first_diff_at(a, b, k) {
        let k = diff_index(a, b);
        assert(first_diff_at(a, b, k));
        assert forall|m: int| 0 <= m <= 160 && bits_agree(a, b, m) implies diff_index(a, b) >= m by {
            if k < m {
                assert(bit_at(a, k) == bit_at(b, k));
            }
        }
    } else {
        if !bits_agree(a, b, 160) {
            lemma_first_diff_exists(a, b, 160);
        }
    }
}

/// Nodes of a table's buckets, bucket by bucket.
pub open spec fn all_present(bs: Seq<Bucket>) -> Seq<Node>
    decreases bs.len(),
{
    if bs.len() == 0 {
        Seq::empty()
    } else {
        all_present(bs.drop_last()) + present(bs.last().slots())
    }
}

/// The routing table: buckets `0 .. n - 2` hold the nodes whose first bit differing from the
/// own identifier is that bucket's index; the last bucket holds the rest.
#[derive(Debug)]
pub struct RoutingTable {
    own_id: ID,
    data: Vec<Bucket>,
    clock: Clock,
}

impl RoutingTable {
    pub closed spec fn own(self) -> ID {
        self.own_id
    }

    /// The latest time the table has read or recorded (milliseconds): its clock never goes
    /// back behind it.
    pub closed spec fn latest(self) -> u64 {
        self.clock.latest()
    }

    /// How many clock readings the table has taken (counting wraps around).
    pub closed spec fn clock_reads(self) -> u64 {
        self.clock.reads()
    }

    pub closed spec fn buckets(self) -> Seq<Bucket> {
        self.data@
    }

    /// Bucket `i` sits at depth `i + 1`, the last at depth `n - 1`, and each node is in the
    /// bucket its identifier belongs in.
    pub open spec fn wf(self) -> bool {
        let b = self.buckets();
        let n = b.len() as int;
        &&& 1 <= n <= MAX_BUCKETS
        &&& forall|i: int| 0 <= i < n ==> #[trigger] b[i].wf()
        &&& forall|i: int| 0 <= i < n - 1 ==> #[trigger] b[i].spec_depth() == i + 1
        &&& b[n - 1].spec_depth() == n - 1
        &&& forall|i: int, j: int|
            0 <= i < n && 0 <= j < 8 && #[trigger] b[i].slots()[j] is Some ==> bucket_index(
                self.own(),
                b[i].slots()[j]->0.id,
                n,
            ) == i
    }

    /// The table holds the node `x`.
    pub open spec fn node_in(self, x: Node) -> bool {
        exists|i: int, j: int|
            0 <= i < self.buckets().len() && 0 <= j < 8 && #[trigger] self.buckets()[i].slots()[j]
                == Some(x)
    }

    /// The table holds a node with identifier `id`.
    pub open spec fn holds_id(self, id: ID) -> bool {
        exists|i: int, j: int|
            0 <= i < self.buckets().len() && 0 <= j < 8 && #[trigger] slot_has(
                self.buckets()[i].slots()[j],
                id,
            )
    }

    /// An empty table around `own_id`.
    pub fn with_own_id(own_id: ID) -> (r: RoutingTable)
        ensures
            r.wf(),
            r.own() == own_id,
            r.buckets().len() == 1,
            forall|x: Node| !r.node_in(x),
            r.latest() == 0,
    {
        let mut data: Vec<Bucket> = Vec::new();
        data.push(Bucket::new(0));
        RoutingTable { own_id, data, clock: Clock::new() }
    }

    /// The table's own identifier.
    pub fn own_id(&self) -> (r: &ID)
        ensures
            *r == self.own(),
    {
        &self.own_id
    }

    /// The number of buckets.
    pub fn bucket_count(&self) -> (r: usize)
        ensures
            r == self.buckets().len(),
    {
        self.data.len()
    }

    /// The bucket at `idx`.
    pub fn bucket(&self, idx: usize) -> (r: &Bucket)
        requires
            idx < self.buckets().len(),
        ensures
            *r == self.buckets()[idx as int],
    {
        &self.data[idx]
    }

    /// The bucket `id` belongs in.
    pub fn find_bucket_idx_by_id(&self, id: &ID) -> (r: usize)
        requires
            self.wf(),
        ensures
            r == bucket_index(self.own(), *id, self.buckets().len() as int),
            r < self.buckets().len(),
    {
        proof {
            lemma_diff_index(self.own_id@, id@);
        }
        match self.own_id.first_diff_bit_idx(id) {
            None => {
                proof {
                    if diff_index(self.own_id@, id@) < 160 {
                        let k = diff_index(self.own_id@, id@);
                        assert(bit_at(self.own_id@, k) == bit_at(id@, k));
                    }
                }
                self.data.len() - 1
            },
            Some(first_diff_idx) => {
                proof {
                    lemma_first_diff_unique(
                        self.own_id@,
                        id@,
                        first_diff_idx as int,
                        diff_index(self.own_id@, id@),
                    );
                }
                if first_diff_idx >= self.data.len() {
                    self.data.len() - 1
                } else {
                    first_diff_idx
                }
            },
        }
    }

    /// Whether the table holds a node with identifier `id`.
    pub fn contains_node(&self, id: &ID) -> (r: bool)
        requires
            self.wf(),
        ensures
            r == self.holds_id(*id),
    {
        let idx = self.find_bucket_idx_by_id(id);
        let r = self.data[idx].contains(id);
        proof {
            if self.holds_id(*id) {
                let (i, j) = choose|i: int, j: int|
                    0 <= i < self.buckets().len() && 0 <= j < 8 && #[trigger] slot_has(
                        self.buckets()[i].slots()[j],
                        *id,
                    );
                assert(self.buckets()[i].slots()[j] is Some);
                assert(i == idx);
                assert(slot_has(self.buckets()[idx as int].slots()[j], *id));
            }
            if r {
                let j = choose|j: int| 0 <= j < 8 && #[trigger] slot_has(self.buckets()[idx as int].slots()[j], *id);
                assert(slot_has(self.buckets()[idx as int].slots()[j], *id));
            }
        }
        r
    }
}

impl RoutingTable {
    /// Splits the last bucket: nodes sharing the own identifier's next bit stay last, the
    /// others take a bucket of their own just before it.
    fn split(&mut self)
        requires
            old(self).wf(),
            old(self).buckets().len() < MAX_BUCKETS,
        ensures
            final(self).wf(),
            final(self).own() == old(self).own(),
            final(self).buckets().len() == old(self).buckets().len() + 1,
            forall|x: Node| #[trigger] final(self).node_in(x) == old(self).node_in(x),
            final(self).latest() == old(self).latest(),
            final(self).clock_reads() == old(self).clock_reads(),
    {
        let ghost old_b = self.buckets();
        let ghost n = old_b.len() as int;
        let ghost own = self.own_id;
        let last = self.data.pop().unwrap();
        let parent_depth = last.depth();
        assert(last == old_b[n - 1]);
        assert(last.wf());
        let (zero, one) = last.split();
        let (own_bucket, other_bucket) = self.own_id.bit_based_order(parent_depth, one, zero);
        self.data.push(other_bucket);
        self.data.push(own_bucket);
        proof {
            let b = self.buckets();
            let d = n - 1;
            assert(b.len() == n + 1);
            assert(forall|i: int| 0 <= i < n - 1 ==> #[trigger] b[i] == old_b[i]);
            assert(b[n - 1] == other_bucket && b[n] == own_bucket);
            assert forall|i: int, j: int|
                0 <= i < n + 1 && 0 <= j < 8 && #[trigger] b[i].slots()[j] is Some implies bucket_index(
                own,
                b[i].slots()[j]->0.id,
                n + 1,
            ) == i by {
                let x = b[i].slots()[j]->0;
                lemma_diff_index(own@, x.id@);
                if i < n - 1 {
                    assert(old_b[i].slots()[j] is Some);
                    assert(bucket_index(own, x.id, n) == i);
                } else {
                    let k = choose|k: int| 0 <= k < 8 && last.slots()[k] == b[i].slots()[j];
                    assert(last.slots()[k] is Some);
                    assert(old_b[n - 1].slots()[k] is Some);
                    assert(bucket_index(own, x.id, n) == n - 1);
                    assert(diff_index(own@, x.id@) >= n - 1);
                    assert(bits_agree(own@, x.id@, n - 1)) by {
                        assert forall|t: int| 0 <= t < n - 1 implies #[trigger] bit_at(own@, t) == bit_at(x.id@, t) by {
                            assert(t < diff_index(own@, x.id@));
                        }
                    }
                    if bit_at(x.id@, d) == bit_at(own@, d) {
                        assert(i == n);
                        assert(bits_agree(own@, x.id@, n));
                    } else {
                        assert(i == n - 1);
                        assert(first_diff_at(own@, x.id@, d));
                        if diff_index(own@, x.id@) > d {
                            assert(bit_at(own@, d) == bit_at(x.id@, d));
                        }
                    }
                }
            }
            assert forall|x: Node| #[trigger] self.node_in(x) == old(self).node_in(x) by {
                if self.node_in(x) {
                    let (i, j) = choose|i: int, j: int| 0 <= i < b.len() && 0 <= j < 8 && #[trigger] b[i].slots()[j] == Some(x);
                    if i < n - 1 {
                        assert(old_b[i].slots()[j] == Some(x));
                    } else {
                        assert(b[i].slots()[j] is Some);
                        let k = choose|k: int| 0 <= k < 8 && last.slots()[k] == b[i].slots()[j];
                        assert(old_b[n - 1].slots()[k] == Some(x));
                    }
                }
                if old(self).node_in(x) {
                    let (i, j) = choose|i: int, j: int| 0 <= i < old_b.len() && 0 <= j < 8 && #[trigger] old_b[i].slots()[j] == Some(x);
                    if i < n - 1 {
                        assert(b[i].slots()[j] == Some(x));
                    } else {
                        assert(last.slots()[j] is Some);
                        let a = choose|a: int| 0 <= a < 8 && (zero.slots()[a] == last.slots()[j] || one.slots()[a] == last.slots()[j]);
                        if zero.slots()[a] == last.slots()[j] {
                            assert(zero.slots()[a] == Some(x));
                        } else {
                            assert(one.slots()[a] == Some(x));
                        }
                    }
                }
            }
        }
    }
}

/// A node for `id` could not be stored at `now`: its bucket holds only good nodes and cannot
/// be split (it is not the last one, or `id` is not within the last bucket's range, or the
/// table has all its buckets).
pub open spec fn insert_refused(t: RoutingTable, id: ID, now: u64) -> bool {
    let n = t.buckets().len() as int;
    &&& all_good(t.buckets()[bucket_index(t.own(), id, n)].slots(), now)
    &&& (!within_range(t.own(), id, n - 1) || n == MAX_BUCKETS)
}

impl RoutingTable {
    /// Records the node `id` at `addr` as heard from at `now`: a known node is touched, a new
    /// one takes a free or stale slot of its bucket, splitting the last bucket while that makes
    /// room for it.
    pub fn insert_new_good_at(&mut self, id: ID, addr: Peer, now: u64)
        requires
            old(self).wf(),
        ensures
            final(self).wf(),
            final(self).own() == old(self).own(),
            final(self).holds_id(id) || insert_refused(*final(self), id, now),
            forall|x: Node|
                old(self).node_in(x) && node_good(x, now) && x.id != id ==> #[trigger] final(self).node_in(x),
            forall|x: Node| #[trigger] final(self).node_in(x) ==> old(self).node_in(x) || x.id == id,
            forall|x: Node| #[trigger] final(self).node_in(x) && x.id == id ==> x.last_seen == Some(now),
            final(self).latest() == if now > old(self).latest() {
                now
            } else {
                old(self).latest()
            },
            final(self).clock_reads() == old(self).clock_reads(),
        decreases MAX_BUCKETS - old(self).buckets().len(),
    {
        self.clock.advance_to(now);
        let ghost old_b = self.buckets();
        let ghost n = old_b.len() as int;
        let idx = self.find_bucket_idx_by_id(&id);
        let mut b = self.data[idx];
        assert(b.wf());
        let r = b.try_insert_at(&id, &addr, now);
        if r.is_ok() {
            self.data.set(idx, b);
            proof {
                let nb = self.buckets();
                assert(nb == old_b.update(idx as int, b));
                let os = old_b[idx as int].slots();
                let ghost slot: int = if holds(os, id) {
                    choose|i: int| 0 <= i < 8 && slot_has(os[i], id) && b.slots() == os.update(i, Some(Node { last_seen: Some(now), ..os[i]->0 }))
                } else {
                    choose|i: int| replaceable_at(os, now, i) && b.slots() == os.update(i, Some(Node { id, addr, last_seen: Some(now) }))
                };
                assert(0 <= slot < 8);
                assert(slot_has(b.slots()[slot], id));
                assert(b.slots()[slot]->0.last_seen == Some(now));
                assert forall|i: int, j: int| 0 <= i < n && 0 <= j < 8 && #[trigger] nb[i].slots()[j] is Some implies bucket_index(self.own(), nb[i].slots()[j]->0.id, n) == i by {
                    if i == idx && j != slot {
                        assert(nb[i].slots()[j] == os[j]);
                    } else if i != idx {
                        assert(nb[i] == old_b[i]);
                    }
                }
                assert(slot_has(nb[idx as int].slots()[slot], id));
                assert(self.holds_id(id));
                assert forall|x: Node| old(self).node_in(x) && node_good(x, now) && x.id != id implies #[trigger] self.node_in(x) by {
                    let (i, j) = choose|i: int, j: int| 0 <= i < n && 0 <= j < 8 && #[trigger] old_b[i].slots()[j] == Some(x);
                    if i == idx && j == slot {
                        if holds(os, id) {
                            assert(slot_has(os[slot], id));
                        } else {
                            assert(replaceable_at(os, now, slot));
                            assert(slot_good(os[slot], now));
                        }
                    }
                    assert(nb[i].slots()[j] == Some(x));
                }
                assert forall|x: Node| #[trigger] self.node_in(x) implies old(self).node_in(x) || x.id == id by {
                    let (i, j) = choose|i: int, j: int| 0 <= i < n && 0 <= j < 8 && #[trigger] nb[i].slots()[j] == Some(x);
                    if !(i == idx && j == slot) {
                        assert(old_b[i].slots()[j] == Some(x));
                    }
                }
                assert forall|x: Node| #[trigger] self.node_in(x) && x.id == id implies x.last_seen == Some(now) by {
                    let (i, j) = choose|i: int, j: int| 0 <= i < n && 0 <= j < 8 && #[trigger] nb[i].slots()[j] == Some(x);
                    assert(nb[i].slots()[j] is Some);
                    assert(i == idx);
                    if j != slot {
                        assert(nb[i].slots()[slot] is Some);
                        if j < slot {
                            assert(!(nb[i].slots()[j] matches Some(p) && nb[i].slots()[slot] matches Some(q) && p.id == q.id));
                        } else {
                            assert(!(nb[i].slots()[slot] matches Some(p) && nb[i].slots()[j] matches Some(q) && p.id == q.id));
                        }
                    }
                }
            }
            return;
        }
        proof {
            assert(!holds(old_b[idx as int].slots(), id));
            assert(!self.holds_id(id)) by {
                if self.holds_id(id) {
                    let (i, j) = choose|i: int, j: int| 0 <= i < n && 0 <= j < 8 && #[trigger] slot_has(old_b[i].slots()[j], id);
                    assert(old_b[i].slots()[j] is Some);
                    assert(i == idx);
                    assert(slot_has(old_b[idx as int].slots()[j], id));
                }
            }
            assert forall|x: Node| #[trigger] self.node_in(x) && x.id == id implies x.last_seen == Some(now) by {
                let (i, j) = choose|i: int, j: int| 0 <= i < n && 0 <= j < 8 && #[trigger] old_b[i].slots()[j] == Some(x);
                assert(slot_has(old_b[i].slots()[j], id));
            }
        }
        let last_idx = self.data.len() - 1;
        if !self.data[last_idx].id_within_bucket_range(&self.own_id, &id) {
            return;
        }
        if self.data.len() == MAX_BUCKETS {
            return;
        }
        self.split();
        proof {
            assert(!self.holds_id(id)) by {
                if self.holds_id(id) {
                    let (i, j) = choose|i: int, j: int| 0 <= i < self.buckets().len() && 0 <= j < 8 && #[trigger] slot_has(self.buckets()[i].slots()[j], id);
                    let x = self.buckets()[i].slots()[j]->0;
                    assert(self.buckets()[i].slots()[j] == Some(x));
                    assert(self.node_in(x));
                    assert(old(self).node_in(x));
                    let (i2, j2) = choose|i2: int, j2: int| 0 <= i2 < n && 0 <= j2 < 8 && #[trigger] old_b[i2].slots()[j2] == Some(x);
                    assert(slot_has(old_b[i2].slots()[j2], id));
                }
            }
        }
        self.insert_new_good_at(id, addr, now);
    }

    /// Records the node `id` at `addr` as heard from just now.
    pub fn insert_new_good(&mut self, id: ID, addr: Peer)
        requires
            old(self).wf(),
        ensures
            final(self).wf(),
            final(self).own() == old(self).own(),
            final(self).holds_id(id) || insert_refused(*final(self), id, final(self).latest()),
            forall|x: Node| #[trigger] final(self).node_in(x) ==> old(self).node_in(x) || x.id == id,
            forall|x: Node| #[trigger] final(self).node_in(x) && x.id == id ==> x.last_seen == Some(
                final(self).latest(),
            ),
            final(self).latest() >= old(self).latest(),
            final(self).clock_reads() == next_count(old(self).clock_reads()),
    {
        let now = self.clock.read();
        self.insert_new_good_at(id, addr, now);
    }

    /// Records that the node `id` at `addr` was heard from at `now`: as `insert_new_good_at`.
    pub fn touch_node_at(&mut self, id: ID, addr: Peer, now: u64)
        requires
            old(self).wf(),
        ensures
            final(self).wf(),
            final(self).own() == old(self).own(),
            final(self).holds_id(id) || insert_refused(*final(self), id, now),
            forall|x: Node|
                old(self).node_in(x) && node_good(x, now) && x.id != id ==> #[trigger] final(self).node_in(x),
            forall|x: Node| #[trigger] final(self).node_in(x) ==> old(self).node_in(x) || x.id == id,
            forall|x: Node| #[trigger] final(self).node_in(x) && x.id == id ==> x.last_seen == Some(now),
            final(self).latest() == if now > old(self).latest() {
                now
            } else {
                old(self).latest()
            },
            final(self).clock_reads() == old(self).clock_reads(),
    {
        self.insert_new_good_at(id, addr, now);
    }

    /// Records that the node `id` at `addr` was heard from just now.
    pub fn touch_node(&mut self, id: ID, addr: Peer)
        requires
            old(self).wf(),
        ensures
            touched(*old(self), *final(self), id),
    {
        let now = self.clock.read();
        self.touch_node_at(id, addr, now);
    }
}

/// What a node lookup finds: the node itself, or the closest good nodes known.
#[derive(Debug, Clone)]
pub enum Nodes {
    Exact(Node),
    Closest(Vec<Node>),
}

/// What hearing from node `id` makes of the table `t0`: the table takes one clock reading,
/// the table's latest time from then on; the node is held afterwards, heard from at that
/// reading, unless its bucket refused it; and no other node joins.
pub open spec fn touched(t0: RoutingTable, t1: RoutingTable, id: ID) -> bool {
    &&& t1.wf()
    &&& t1.own() == t0.own()
    &&& t1.holds_id(id) || insert_refused(t1, id, t1.latest())
    &&& forall|x: Node| #[trigger] t1.node_in(x) ==> t0.node_in(x) || x.id == id
    &&& t1.latest() >= t0.latest()
    &&& t1.clock_reads() == next_count(t0.clock_reads())
    &&& forall|x: Node| #[trigger] t1.node_in(x) && x.id == id ==> x.last_seen == Some(t1.latest())
}

/// The nodes a lookup found, in order.
pub open spec fn nodes_seq(n: Nodes) -> Seq<Node> {
    match n {
        Nodes::Exact(x) => seq![x],
        Nodes::Closest(v) => v@,
    }
}

impl Nodes {
    /// The nodes found, in order.
    pub fn iter(&self) -> (r: Vec<Node>)
        ensures
            r@ == nodes_seq(*self),
    {
        match self {
            Nodes::Exact(x) => {
                let mut v: Vec<Node> = Vec::new();
                v.push(*x);
                v
            },
            Nodes::Closest(nodes) => {
                let mut v: Vec<Node> = Vec::new();
                let mut i: usize = 0;
                while i < nodes.len()
                    invariant
                        0 <= i <= nodes@.len(),
                        v@ == nodes@.take(i as int),
                    decreases nodes@.len() - i,
                {
                    v.push(nodes[i]);
                    i += 1;
                    assert(v@ == nodes@.take(i as int));
                }
                assert(nodes@.take(i as int) == nodes@);
                v
            },
        }
    }
}

/// `a` is closer than `b` to `target` by XOR distance.
pub open spec fn closer(a: Node, b: Node, target: ID) -> bool {
    id_less(xor_seq(a.id@, target@), xor_seq(b.id@, target@))
}

/// No node is closer to `target` than one before it.
pub open spec fn sorted_by_distance(s: Seq<Node>, target: ID) -> bool {
    forall|i: int, j: int| 0 <= i < j < s.len() ==> !closer(#[trigger] s[j], #[trigger] s[i], target)
}

/// The `k`-th bucket visited when looking around bucket `idx` of `n`: `idx` up to the last,
/// then down from `idx - 1` to the first.
pub open spec fn visit_order(idx: int, n: int, k: int) -> int {
    if k < n - idx {
        idx + k
    } else {
        n - 1 - k
    }
}

/// The good nodes gathered from the first `k` buckets visited, no further bucket being read
/// once eight nodes are in hand.
pub open spec fn gathered(bs: Seq<Bucket>, idx: int, now: u64, k: int) -> Seq<Node>
    decreases k,
{
    if k <= 0 {
        Seq::empty()
    } else {
        let prev = gathered(bs, idx, now, k - 1);
        if prev.len() >= K_NODE_PER_BUCKET {
            prev
        } else {
            prev + goods(bs[visit_order(idx, bs.len() as int, k - 1)].slots(), now)
        }
    }
}

/// `a` is closer than `b` to `target`.
fn is_closer(a: &Node, b: &Node, target: &ID) -> (r: bool)
    ensures
        r == closer(*a, *b, *target),
{
    let da = a.id.xor(target);
    let db = b.id.xor(target);
    id_precedes(&da, &db)
}

/// The nodes sorted by XOR distance to `target`, nearest first; among equally distant nodes
/// the earlier comes first.
pub fn sort_by_distance(nodes: Vec<Node>, target: &ID) -> (r: Vec<Node>)
    ensures
        r@.to_multiset() == nodes@.to_multiset(),
        r@.len() == nodes@.len(),
        sorted_by_distance(r@, *target),
{
    broadcast use vstd::seq_lib::group_to_multiset_ensures;
    let mut out: Vec<Node> = Vec::new();
    let mut i: usize = 0;
    assert(nodes@.take(0) == Seq::<Node>::empty());
    while i < nodes.len()
        invariant
            0 <= i <= nodes@.len(),
            out@.to_multiset() == nodes@.take(i as int).to_multiset(),
            out@.len() == i,
            sorted_by_distance(out@, *target),
        decreases nodes@.len() - i,
    {
        let x = nodes[i];
        let mut p: usize = 0;
        while p < out.len() && !is_closer(&x, &out[p], target)
            invariant
                0 <= p <= out@.len(),
                forall|k: int| 0 <= k < p ==> !closer(x, #[trigger] out@[k], *target),
            decreases out@.len() - p,
        {
            p += 1;
        }
        let ghost before = out@;
        out.insert(p, x);
        proof {
            assert(nodes@.take(i + 1) == nodes@.take(i as int).push(x));
            vstd::seq_lib::to_multiset_insert(before, p as int, x);
            vstd::seq_lib::to_multiset_build(nodes@.take(i as int), x);
            let key = |n: Node| xor_seq(n.id@, target@);
            assert forall|a: int, b: int| 0 <= a < b < out@.len() implies !closer(#[trigger] out@[b], #[trigger] out@[a], *target) by {
                if b < p {
                    assert(out@[a] == before[a] && out@[b] == before[b]);
                } else if b == p {
                    assert(out@[a] == before[a]);
                } else if a < p {
                    assert(out@[a] == before[a] && out@[b] == before[b - 1]);
                } else if a == p {
                    assert(out@[b] == before[b - 1]);
                    assert(closer(x, before[p as int], *target));
                    lemma_id_less_strict_total(key(x), key(before[p as int]), key(before[b - 1]));
                    lemma_id_less_strict_total(key(before[b - 1]), key(x), key(before[p as int]));
                    if b - 1 > p {
                        assert(!closer(before[b - 1], before[p as int], *target));
                    }
                } else {
                    assert(out@[a] == before[a - 1] && out@[b] == before[b - 1]);
                }
            }
        }
        i += 1;
    }
    assert(nodes@.take(nodes@.len() as int) == nodes@);
    out
}

/// `r` holds the good nodes of `t` nearest to `id` at `now`, sorted by distance: gathered
/// bucket by bucket from the bucket of `id` outwards until eight are in hand; nothing when
/// there is none.
pub open spec fn closest_found(t: RoutingTable, id: ID, now: u64, r: Option<Nodes>) -> bool {
    let c = gathered(t.buckets(), bucket_index(t.own(), id, t.buckets().len() as int), now, t.buckets().len() as int);
    &&& c.len() == 0 ==> r is None
    &&& c.len() > 0 ==> (r matches Some(Nodes::Closest(v)) && v@.to_multiset() == c.to_multiset()
        && sorted_by_distance(v@, id))
}

impl RoutingTable {
    /// The good nodes nearest to `id` at `now`, sorted by distance: gathered bucket by bucket
    /// from the bucket of `id` outwards until eight are in hand; `None` when there is none.
    pub fn get_closest_nodes_at(&self, id: &ID, now: u64) -> (r: Option<Nodes>)
        requires
            self.wf(),
        ensures
            closest_found(*self, *id, now, r),
    {
        let idx = self.find_bucket_idx_by_id(id);
        let n = self.data.len();
        let ghost bs = self.buckets();
        let mut nodes: Vec<Node> = Vec::new();
        let mut k: usize = 0;
        while k < n
            invariant
                bs == self.buckets(),
                self.wf(),
                n == bs.len(),
                idx < n,
                0 <= k <= n,
                nodes@ == gathered(bs, idx as int, now, k as int),
            decreases n - k,
        {
            if nodes.len() < K_NODE_PER_BUCKET {
                let b = if k < n - idx {
                    idx + k
                } else {
                    n - 1 - k
                };
                let mut more = self.data[b].iter_over_goods_at(now);
                nodes.append(&mut more);
            }
            k += 1;
        }
        if nodes.len() == 0 {
            return None;
        }
        let sorted = sort_by_distance(nodes, id);
        Some(Nodes::Closest(sorted))
    }

    /// The node `id` if the table holds it, else the good nodes nearest to it at `now`.
    pub fn find_node_at(&self, id: &ID, now: u64) -> (r: Option<Nodes>)
        requires
            self.wf(),
        ensures
            self.holds_id(*id) ==> (r matches Some(Nodes::Exact(x)) && x.id == *id
                && self.node_in(x)),
            !self.holds_id(*id) ==> closest_found(*self, *id, now, r),
    {
        let idx = self.find_bucket_idx_by_id(id);
        match self.data[idx].get_node(id) {
            Some(x) => {
                proof {
                    let j = choose|j: int| 0 <= j < 8 && #[trigger] self.buckets()[idx as int].slots()[j] == Some(*x);
                    assert(self.buckets()[idx as int].slots()[j] == Some(*x));
                    assert(slot_has(self.buckets()[idx as int].slots()[j], *id));
                    assert(self.holds_id(*id));
                }
                Some(Nodes::Exact(*x))
            },
            None => {
                proof {
                    if self.holds_id(*id) {
                        let (i, j) = choose|i: int, j: int| 0 <= i < self.buckets().len() && 0 <= j < 8 && #[trigger] slot_has(self.buckets()[i].slots()[j], *id);
                        assert(self.buckets()[i].slots()[j] is Some);
                        assert(slot_has(self.buckets()[idx as int].slots()[j], *id));
                    }
                }
                self.get_closest_nodes_at(id, now)
            },
        }
    }

    /// The node `id` if the table holds it, else the good nodes nearest to it just now.
    pub fn find_node(&self, id: &ID) -> (r: Option<Nodes>)
        requires
            self.wf(),
        ensures
            self.holds_id(*id) ==> (r matches Some(Nodes::Exact(x)) && x.id == *id
                && self.node_in(x)),
            !self.holds_id(*id) ==> exists|now: u64| now >= self.latest() && #[trigger] closest_found(*self, *id, now, r),
    {
        self.find_node_at(id, self.clock.peek())
    }

    /// All nodes, bucket by bucket.
    pub fn iter_nodes(&self) -> (r: Vec<Node>)
        requires
            self.wf(),
        ensures
            r@ == all_present(self.buckets()),
    {
        let ghost bs = self.buckets();
        let mut out: Vec<Node> = Vec::new();
        let mut i: usize = 0;
        assert(bs.take(0) == Seq::<Bucket>::empty());
        while i < self.data.len()
            invariant
                bs == self.buckets(),
                self.wf(),
                0 <= i <= bs.len(),
                out@ == all_present(bs.take(i as int)),
            decreases bs.len() - i,
        {
            assert(bs.take(i + 1).drop_last() == bs.take(i as int));
            let mut more = self.data[i].iter_nodes();
            out.append(&mut more);
            i += 1;
        }
        assert(bs.take(bs.len() as int) == bs);
        out
    }
}

/// Indices of the buckets, among the first `m`, that may take a node at `now`.
pub open spec fn fillable(bs: Seq<Bucket>, now: u64, m: int) -> Seq<int>
    decreases m,
{
    if m <= 0 {
        Seq::empty()
    } else {
        fillable(bs, now, m - 1) + if !all_good(bs[m - 1].slots(), now) {
            seq![m - 1]
        } else {
            Seq::empty()
        }
    }
}

/// The last bucket may still take a node or be split.
pub open spec fn last_fillable(bs: Seq<Bucket>, now: u64) -> bool {
    !(bs.last().spec_depth() == ID_BIT_COUNT && all_good(bs.last().slots(), now))
}

/// `ids` are the identifiers worth looking up to fill `t` at `now`: one per bucket but the
/// last that may take a node, differing first from the own identifier at that bucket's bit,
/// then the own identifier unless the last bucket is full at the greatest depth.
pub open spec fn fillable_ids(t: RoutingTable, now: u64, ids: Seq<ID>) -> bool {
    let f = fillable(t.buckets(), now, t.buckets().len() - 1);
    &&& ids.len() == f.len() + if last_fillable(t.buckets(), now) {
        1int
    } else {
        0int
    }
    &&& forall|k: int| 0 <= k < f.len() ==> #[trigger] first_diff_at(t.own()@, ids[k]@, f[k])
    &&& last_fillable(t.buckets(), now) ==> ids.last() == t.own()
}

impl RoutingTable {
    /// Identifiers worth looking up to fill the table at `now`: for each bucket but the last
    /// that may take a node, an identifier that belongs in it (the own identifier with that
    /// bucket's bit flipped and random bits after it), then the own identifier unless the last
    /// bucket is full at the greatest depth.
    pub fn iter_over_ids_within_fillable_buckets_at(&self, now: u64) -> (r: Vec<ID>)
        requires
            self.wf(),
        ensures
            fillable_ids(*self, now, r@),
    {
        let ghost bs = self.buckets();
        let n = self.data.len();
        let mut out: Vec<ID> = Vec::new();
        let mut i: usize = 0;
        while i < n - 1
            invariant
                bs == self.buckets(),
                self.wf(),
                n == bs.len(),
                0 <= i <= n - 1,
                out@.len() == fillable(bs, now, i as int).len(),
                forall|k: int| 0 <= k < out@.len() ==> #[trigger] first_diff_at(self.own()@, out@[k]@, fillable(bs, now, i as int)[k]),
            decreases n - 1 - i,
        {
            let ghost f0 = fillable(bs, now, i as int);
            if !self.data[i].is_full(now) {
                let mut id = self.own_id;
                id.flip_bit(i);
                id.randomize_after_bit(i);
                proof {
                    assert forall|t: int| 0 <= t < i implies #[trigger] bit_at(self.own()@, t) == bit_at(id@, t) by {}
                    assert(first_diff_at(self.own()@, id@, i as int));
                }
                out.push(id);
                proof {
                    assert(fillable(bs, now, i + 1) == f0.push(i as int));
                    assert forall|k: int| 0 <= k < out@.len() implies #[trigger] first_diff_at(self.own()@, out@[k]@, fillable(bs, now, i + 1)[k]) by {
                        if k < f0.len() {
                            assert(out@[k] == out@.drop_last()[k]);
                        }
                    }
                }
            } else {
                assert(fillable(bs, now, i + 1) == f0);
            }
            i += 1;
        }
        let last = &self.data[n - 1];
        if !(last.depth() == ID_BIT_COUNT && last.is_full(now)) {
            let ghost before = out@;
            out.push(self.own_id);
            proof {
                assert forall|k: int| 0 <= k < before.len() implies #[trigger] first_diff_at(self.own()@, out@[k]@, fillable(bs, now, n - 1)[k]) by {
                    assert(out@[k] == before[k]);
                }
            }
        }
        out
    }

    /// Identifiers worth looking up to fill the table just now.
    pub fn iter_over_ids_within_fillable_buckets(&self) -> (r: Vec<ID>)
        requires
            self.wf(),
        ensures
            exists|now: u64| now >= self.latest() && #[trigger] fillable_ids(*self, now, r@),
    {
        self.iter_over_ids_within_fillable_buckets_at(self.clock.peek())
    }
}

/// Heard from less than the validity period before `at`: not stale at that time.
pub open spec fn heard_within_validity(x: Node, at: u64) -> bool {
    x.last_seen matches Some(s) && (at as int) < s + NODE_VALIDITY_MILLIS
}

proof fn lemma_goods_good(s: Seq<Option<Node>>, now: u64)
    ensures
        forall|k: int| 0 <= k < goods(s, now).len() ==> node_good(#[trigger] goods(s, now)[k], now)
            && exists|j: int| 0 <= j < s.len() && s[j] == Some(goods(s, now)[k]),
    decreases s.len(),
{
    if s.len() > 0 {
        lemma_goods_good(s.drop_last(), now);
        let p = goods(s.drop_last(), now);
        let g = goods(s, now);
        assert forall|k: int| 0 <= k < g.len() implies node_good(#[trigger] g[k], now)
            && exists|j: int| 0 <= j < s.len() && s[j] == Some(g[k]) by {
            if k < p.len() {
                assert(g[k] == p[k]);
                let j = choose|j: int| 0 <= j < s.drop_last().len() && s.drop_last()[j] == Some(p[k]);
                assert(s[j] == Some(g[k]));
            } else {
                assert(g[k] == s.last()->0);
                assert(s[s.len() - 1] == Some(g[k]));
            }
        }
    }
}

proof fn lemma_gathered_good(bs: Seq<Bucket>, idx: int, now: u64, k: int)
    requires
        0 <= idx < bs.len(),
        0 <= k <= bs.len(),
    ensures
        forall|m: int| 0 <= m < gathered(bs, idx, now, k).len() ==> node_good(
            #[trigger] gathered(bs, idx, now, k)[m],
            now,
        ) && exists|i: int, j: int|
            0 <= i < bs.len() && 0 <= j < bs[i].slots().len() && bs[i].slots()[j] == Some(
                gathered(bs, idx, now, k)[m],
            ),
    decreases k,
{
    if k > 0 {
        lemma_gathered_good(bs, idx, now, k - 1);
        let prev = gathered(bs, idx, now, k - 1);
        if prev.len() < K_NODE_PER_BUCKET {
            let b = visit_order(idx, bs.len() as int, k - 1);
            assert(0 <= b < bs.len());
            let gs = goods(bs[b].slots(), now);
            lemma_goods_good(bs[b].slots(), now);
            let g = gathered(bs, idx, now, k);
            assert(g == prev + gs);
            assert forall|m: int| 0 <= m < g.len() implies node_good(#[trigger] g[m], now) && exists|i: int, j: int|
                0 <= i < bs.len() && 0 <= j < bs[i].slots().len() && bs[i].slots()[j] == Some(g[m]) by {
                if m < prev.len() {
                    assert(g[m] == prev[m]);
                } else {
                    assert(g[m] == gs[m - prev.len()]);
                    let j = choose|j: int| 0 <= j < bs[b].slots().len() && bs[b].slots()[j] == Some(gs[m - prev.len()]);
                    assert(bs[b].slots()[j] == Some(g[m]));
                }
            }
        }
    }
}

/// A lookup of a node the table does not hold offers only nodes of the table that are not
/// stale: each was heard from less than the validity period before the latest time the
/// table has read, so a node silent for longer than that is never offered.
pub proof fn lemma_closest_are_fresh(t: RoutingTable, id: ID, now: u64, r: Option<Nodes>)
    requires
        t.wf(),
        now >= t.latest(),
        closest_found(t, id, now, r),
    ensures
        r matches Some(Nodes::Closest(v)) ==> forall|k: int|
            0 <= k < v@.len() ==> t.node_in(#[trigger] v@[k]) && heard_within_validity(v@[k], t.latest()),
{
    broadcast use vstd::seq_lib::group_to_multiset_ensures;

    let bs = t.buckets();
    let n = bs.len() as int;
    let idx = bucket_index(t.own(), id, n);
    lemma_diff_index(t.own()@, id@);
    let c = gathered(bs, idx, now, n);
    lemma_gathered_good(bs, idx, now, n);
    if let Some(Nodes::Closest(v)) = r {
        assert forall|k: int| 0 <= k < v@.len() implies t.node_in(#[trigger] v@[k]) && heard_within_validity(v@[k], t.latest()) by {
            let x = v@[k];
            assert(v@.contains(x));
            assert(v@.to_multiset().count(x) > 0);
            assert(c.to_multiset().count(x) > 0);
            assert(c.contains(x));
            let m = choose|m: int| 0 <= m < c.len() && c[m] == x;
            assert(node_good(c[m], now));
            let (i, j) = choose|i: int, j: int| 0 <= i < bs.len() && 0 <= j < bs[i].slots().len() && bs[i].slots()[j] == Some(c[m]);
            assert(bs[i].wf());
            assert(bs[i].slots()[j] == Some(x));
        }
    }
}

/// After a node is heard from, it counts as good for any lookup made less than the
/// validity period after that: `touch_node` stamps it with the table's fresh clock reading,
/// and a lookup reads the clock no earlier than that.
pub proof fn lemma_touched_node_stays_good(t0: RoutingTable, t1: RoutingTable, id: ID, x: Node, now: u64)
    requires
        touched(t0, t1, id),
        t1.node_in(x),
        x.id == id,
        t1.latest() <= now,
        (now as int) < t1.latest() + NODE_VALIDITY_MILLIS,
    ensures
        x.last_seen == Some(t1.latest()),
        node_good(x, now),
        t1.latest() >= t0.latest(),
{
}

impl Default for RoutingTable {
    /// An empty table around a random own identifier.
    fn default() -> (r: RoutingTable)
        ensures
            r.wf(),
            r.buckets().len() == 1,
            forall|x: Node| !r.node_in(x),
    {
        RoutingTable::with_own_id(ID::random())
    }
}

/// A well-formed table holds each identifier at most once: two slots holding nodes with the
/// same identifier are the same slot.
pub proof fn lemma_no_duplicate_ids(t: RoutingTable, i1: int, j1: int, i2: int, j2: int)
    requires
        t.wf(),
        0 <= i1 < t.buckets().len(),
        0 <= i2 < t.buckets().len(),
        0 <= j1 < 8,
        0 <= j2 < 8,
        t.buckets()[i1].slots()[j1] is Some,
        t.buckets()[i2].slots()[j2] is Some,
        t.buckets()[i1].slots()[j1]->0.id == t.buckets()[i2].slots()[j2]->0.id,
    ensures
        i1 == i2 && j1 == j2,
{
    let n = t.buckets().len() as int;
    assert(bucket_index(t.own(), t.buckets()[i1].slots()[j1]->0.id, n) == i1);
    assert(bucket_index(t.own(), t.buckets()[i2].slots()[j2]->0.id, n) == i2);
    let s = t.buckets()[i1].slots();
    assert(t.buckets()[i1].wf());
    if j1 < j2 {
        assert(!(s[j1] matches Some(a) && s[j2] matches Some(b) && a.id == b.id));
    } else if j2 < j1 {
        assert(!(s[j2] matches Some(a) && s[j1] matches Some(b) && a.id == b.id));
    }
}

} // verus!
