use vstd::prelude::*;
use crate::id::ID;

verus! {

pub const COMPACT_SOCKADDR_LEN: usize = 6;
pub const COMPACT_PEER_LEN: usize = 6;

/// IPv4 address as a big-endian number, from its four octets.
pub open spec fn ipv4_of(a: u8, b: u8, c: u8, d: u8) -> u32 {
    (a as int * 0x1000000 + b as int * 0x10000 + c as int * 0x100 + d as int) as u32
}

/// Port from its two big-endian bytes.
pub open spec fn port_of(hi: u8, lo: u8) -> u16 {
    (hi as int * 0x100 + lo as int) as u16
}

/// Compact form of an address: four octets, then the port, big-endian.
pub open spec fn compact_of(ip: u32, port: u16) -> Seq<u8> {
    seq![
        (ip / 0x1000000) as u8,
        ((ip / 0x10000) % 0x100) as u8,
        ((ip / 0x100) % 0x100) as u8,
        (ip % 0x100) as u8,
        (port / 0x100) as u8,
        (port % 0x100) as u8,
    ]
}

/// A peer, identified by its IPv4 socket address.
#[derive(Clone, Copy, PartialEq, Eq, Structural, Hash, Debug)]
pub struct Peer {
    /// The IPv4 address as a big-endian number.
    pub ip: u32,
    pub port: u16,
}

/// Why a compact address could not be read.
#[derive(Clone, Copy, PartialEq, Eq, Structural, Debug)]
pub struct CompactLenError {
    pub found: usize,
    pub expected: usize,
}

proof fn lemma_ipv4_bits(a: u8, b: u8, c: u8, d: u8)
    ensures
        ((a as u32) << 24u32) | ((b as u32) << 16u32) | ((c as u32) << 8u32) | (d as u32)
            == ipv4_of(a, b, c, d),
        ipv4_of(a, b, c, d) / 0x1000000 == a,
        (ipv4_of(a, b, c, d) / 0x10000) % 0x100 == b,
        (ipv4_of(a, b, c, d) / 0x100) % 0x100 == c,
        ipv4_of(a, b, c, d) % 0x100 == d,
{
    let w = ((a as u32) << 24u32) | ((b as u32) << 16u32) | ((c as u32) << 8u32) | (d as u32);
    assert(w == a * 0x1000000 + b * 0x10000 + c * 0x100 + d) by (bit_vector)
        requires
            w == ((a as u32) << 24u32) | ((b as u32) << 16u32) | ((c as u32) << 8u32) | (d as u32),
    ;
    assert(w / 0x1000000 == a && (w / 0x10000) % 0x100 == b && (w / 0x100) % 0x100 == c && w
        % 0x100 == d) by (bit_vector)
        requires
            w == ((a as u32) << 24u32) | ((b as u32) << 16u32) | ((c as u32) << 8u32) | (d as u32),
    ;
}

proof fn lemma_port_bits(hi: u8, lo: u8)
    ensures
        ((hi as u16) << 8u16) | (lo as u16) == port_of(hi, lo),
        port_of(hi, lo) / 0x100 == hi,
        port_of(hi, lo) % 0x100 == lo,
{
    assert(((hi as u16) << 8u16) | (lo as u16) == (hi as u16) * 0x100u16 + (lo as u16))
        by (bit_vector);
}

/// Reads a compact address (`<ip=4><port=2>`); any other length is refused.
pub fn socketaddr_from_compact_bytes(buf: &[u8]) -> (r: Result<Peer, CompactLenError>)
    ensures
        r is Ok <==> buf@.len() == COMPACT_SOCKADDR_LEN,
        r matches Ok(p) ==> p.ip == ipv4_of(buf@[0], buf@[1], buf@[2], buf@[3]) && p.port
            == port_of(buf@[4], buf@[5]),
        r matches Err(e) ==> e.found == buf@.len() && e.expected == COMPACT_SOCKADDR_LEN,
{
    if buf.len() != COMPACT_SOCKADDR_LEN {
        return Err(CompactLenError { found: buf.len(), expected: COMPACT_SOCKADDR_LEN });
    }
    proof {
        lemma_ipv4_bits(buf@[0], buf@[1], buf@[2], buf@[3]);
        lemma_port_bits(buf@[4], buf@[5]);
    }
    let ip = ((buf[0] as u32) << 24u32) | ((buf[1] as u32) << 16u32) | ((buf[2] as u32) << 8u32)
        | (buf[3] as u32);
    let port = ((buf[4] as u16) << 8u16) | (buf[5] as u16);
    Ok(Peer { ip, port })
}

impl Peer {
    pub fn new(octets: [u8; 4], port: u16) -> (r: Self)
        ensures
            r.ip == ipv4_of(octets@[0], octets@[1], octets@[2], octets@[3]),
            r.port == port,
    {
        proof {
            lemma_ipv4_bits(octets@[0], octets@[1], octets@[2], octets@[3]);
        }
        let ip = ((octets[0] as u32) << 24u32) | ((octets[1] as u32) << 16u32) | ((
        octets[2] as u32) << 8u32) | (octets[3] as u32);
        Peer { ip, port }
    }

    /// Reads a peer from its compact form; any length but six is refused.
    pub fn from_compact_bytes(buff: &[u8]) -> (r: Result<Self, CompactLenError>)
        ensures
            r is Ok <==> buff@.len() == COMPACT_PEER_LEN,
            r matches Ok(p) ==> compact_of(p.ip, p.port) == buff@,
            r matches Err(e) ==> e.found == buff@.len() && e.expected == COMPACT_PEER_LEN,
    {
        let r = socketaddr_from_compact_bytes(buff);
        proof {
            if buff@.len() == 6 {
                lemma_ipv4_bits(buff@[0], buff@[1], buff@[2], buff@[3]);
                lemma_port_bits(buff@[4], buff@[5]);
                if let Ok(p) = r {
                    assert(compact_of(p.ip, p.port) =~= buff@);
                }
            }
        }
        r
    }

    /// The four octets of the address, most significant first.
    pub fn octets(&self) -> (r: [u8; 4])
        ensures
            r@ == compact_of(self.ip, self.port).take(4),
    {
        let ip = self.ip;
        let r = [(ip / 0x1000000) as u8, ((ip / 0x10000) % 0x100) as u8, ((ip / 0x100) % 0x100) as u8, (
        ip % 0x100) as u8];
        assert(r@ =~= compact_of(self.ip, self.port).take(4));
        r
    }

    pub fn port(&self) -> (r: u16)
        ensures
            r == self.port,
    {
        self.port
    }

    /// The address as octets and port.
    pub fn addr(&self) -> (r: ([u8; 4], u16))
        ensures
            r.0@ == compact_of(self.ip, self.port).take(4),
            r.1 == self.port,
    {
        (self.octets(), self.port)
    }

    /// The compact form: four octets, then the port, big-endian.
    pub fn to_compact_bytes(&self) -> (r: Vec<u8>)
        ensures
            r@ == compact_of(self.ip, self.port),
    {
        let ip = self.ip;
        let port = self.port;
        let mut v: Vec<u8> = Vec::with_capacity(COMPACT_PEER_LEN);
        v.push((ip / 0x1000000) as u8);
        v.push(((ip / 0x10000) % 0x100) as u8);
        v.push(((ip / 0x100) % 0x100) as u8);
        v.push((ip % 0x100) as u8);
        v.push((port / 0x100) as u8);
        v.push((port % 0x100) as u8);
        assert(v@ =~= compact_of(ip, port));
        v
    }
}

/// Encoding a peer and reading it back gives the same peer.
pub proof fn lemma_compact_roundtrip(p: Peer)
    ensures
        ipv4_of(
            compact_of(p.ip, p.port)[0],
            compact_of(p.ip, p.port)[1],
            compact_of(p.ip, p.port)[2],
            compact_of(p.ip, p.port)[3],
        ) == p.ip,
        port_of(compact_of(p.ip, p.port)[4], compact_of(p.ip, p.port)[5]) == p.port,
{
    let ip = p.ip;
    let port = p.port;
    assert((ip / 0x1000000) * 0x1000000 + ((ip / 0x10000) % 0x100) * 0x10000 + ((ip / 0x100)
        % 0x100) * 0x100 + ip % 0x100 == ip) by (nonlinear_arith);
}

/// What is known of a peer that is not currently in use.
#[derive(Clone, Copy, PartialEq, Eq, Structural, Debug)]
pub enum Status {
    Active,
    Unknown,
    UnableToConnect,
    ChokedForTooLong,
    NoUsefulPieces,
}

/// No peer occurs twice among the entries.
pub open spec fn unique_peers(e: Seq<(Peer, Status)>) -> bool {
    forall|i: int, j: int| 0 <= i < j < e.len() ==> #[trigger] e[i].0 != #[trigger] e[j].0
}

/// The entries after recording `p` with status `st`: its entry is updated in place, or
/// appended when `p` was not known.
pub open spec fn upsert(e: Seq<(Peer, Status)>, p: Peer, st: Status) -> Seq<(Peer, Status)> {
    if exists|i: int| 0 <= i < e.len() && e[i].0 == p {
        let i = choose|i: int| 0 <= i < e.len() && e[i].0 == p;
        e.update(i, (p, st))
    } else {
        e.push((p, st))
    }
}

/// The entries after recording each of `bad`, in order.
pub open spec fn upsert_all(e: Seq<(Peer, Status)>, bad: Seq<(Peer, Status)>) -> Seq<
    (Peer, Status),
>
    decreases bad.len(),
{
    if bad.len() == 0 {
        e
    } else {
        let prev = upsert_all(e, bad.drop_last());
        upsert(prev, bad.last().0, bad.last().1)
    }
}

/// Indices below `n` whose entry has status `st`, ascending.
pub open spec fn indices_with(e: Seq<(Peer, Status)>, st: Status, n: int) -> Seq<int>
    decreases n,
{
    if n <= 0 {
        seq![]
    } else if e[n - 1].1 == st {
        indices_with(e, st, n - 1).push(n - 1)
    } else {
        indices_with(e, st, n - 1)
    }
}

/// Order in which idle peers are handed out.
pub open spec fn priority(k: int) -> Status {
    if k == 0 {
        Status::Unknown
    } else if k == 1 {
        Status::NoUsefulPieces
    } else if k == 2 {
        Status::ChokedForTooLong
    } else {
        Status::UnableToConnect
    }
}

/// Indices of the entries of the first `k` priority classes, class by class.
pub open spec fn candidates_upto(e: Seq<(Peer, Status)>, k: int) -> Seq<int>
    decreases k,
{
    if k <= 0 {
        seq![]
    } else {
        candidates_upto(e, k - 1) + indices_with(e, priority(k - 1), e.len() as int)
    }
}

/// The first `l` elements of `s`, or all of them when there are fewer.
pub open spec fn clamp_take<T>(s: Seq<T>, l: int) -> Seq<T> {
    s.take(
        if l < s.len() {
            l
        } else {
            s.len() as int
        },
    )
}

/// The entries handed out by one batch request of size `limit`.
pub open spec fn batch_indices(e: Seq<(Peer, Status)>, limit: int) -> Seq<int> {
    clamp_take(candidates_upto(e, 4), limit)
}

proof fn lemma_indices_with_bounds(e: Seq<(Peer, Status)>, st: Status, n: int)
    requires
        n <= e.len(),
    ensures
        forall|k: int|
            0 <= k < indices_with(e, st, n).len() ==> 0 <= #[trigger] indices_with(e, st, n)[k] < n
                && e[indices_with(e, st, n)[k]].1 == st,
        forall|a: int, b: int|
            0 <= a < b < indices_with(e, st, n).len() ==> #[trigger] indices_with(e, st, n)[a]
                < #[trigger] indices_with(e, st, n)[b],
    decreases n,
{
    if n > 0 {
        lemma_indices_with_bounds(e, st, n - 1);
    }
}

/// The peers known for one torrent, with what is known of each.
#[derive(Clone, Debug)]
pub struct Peers {
    info_hash: ID,
    data: Vec<(Peer, Status)>,
}

impl Peers {
    /// The known peers and their statuses.
    pub closed spec fn entries(self) -> Seq<(Peer, Status)> {
        self.data@
    }

    /// The torrent these peers serve.
    pub closed spec fn spec_info_hash(self) -> ID {
        self.info_hash
    }

    pub open spec fn wf(self) -> bool {
        unique_peers(self.entries())
    }

    pub fn new(info_hash: &ID) -> (r: Self)
        ensures
            r.wf(),
            r.entries() == Seq::<(Peer, Status)>::empty(),
            r.spec_info_hash() == *info_hash,
    {
        Peers { info_hash: *info_hash, data: Vec::new() }
    }

    /// Whether these are the peers of the torrent with `info_hash`.
    pub fn serve(&self, info_hash: &ID) -> (r: bool)
        ensures
            r == (info_hash@ == self.spec_info_hash()@),
    {
        *info_hash == self.info_hash
    }

    /// All known peers.
    pub fn peer_addresses(&self) -> (r: Vec<Peer>)
        ensures
            r@.len() == self.entries().len(),
            forall|i: int| 0 <= i < r@.len() ==> r@[i] == #[trigger] self.entries()[i].0,
    {
        let mut r: Vec<Peer> = Vec::new();
        let mut i: usize = 0;
        while i < self.data.len()
            invariant
                0 <= i <= self.data@.len(),
                r@.len() == i,
                forall|k: int| 0 <= k < i ==> r@[k] == #[trigger] self.data@[k].0,
            decreases self.data@.len() - i,
        {
            r.push(self.data[i].0);
            i += 1;
        }
        r
    }

    /// What is known of `p`, if it is known.
    pub fn status_of(&self, p: &Peer) -> (r: Option<Status>)
        requires
            self.wf(),
        ensures
            r matches Some(st) ==> exists|i: int| 0 <= i < self.entries().len() && #[trigger] self.entries()[i] == (*p, st),
            r is None ==> forall|i: int| 0 <= i < self.entries().len() ==> #[trigger] self.entries()[i].0 != *p,
    {
        let mut i: usize = 0;
        while i < self.data.len()
            invariant
                0 <= i <= self.data@.len(),
                forall|k: int| 0 <= k < i ==> #[trigger] self.entries()[k].0 != *p,
            decreases self.data@.len() - i,
        {
            if self.data[i].0 == *p {
                assert(self.entries()[i as int] == (*p, self.data@[i as int].1));
                return Some(self.data[i].1);
            }
            i += 1;
        }
        None
    }

    /// Records `p` with status `st`.
    fn upsert_one(&mut self, p: Peer, st: Status)
        requires
            old(self).wf(),
        ensures
            final(self).wf(),
            final(self).entries() == upsert(old(self).entries(), p, st),
            final(self).spec_info_hash() == old(self).spec_info_hash(),
    {
        let mut i: usize = 0;
        while i < self.data.len()
            invariant
                0 <= i <= self.data@.len(),
                self.data@ == old(self).data@,
                unique_peers(old(self).data@),
                self.info_hash == old(self).info_hash,
                forall|k: int| 0 <= k < i ==> self.data@[k].0 != p,
            decreases self.data@.len() - i,
        {
            if self.data[i].0 == p {
                let ghost e = self.data@;
                proof {
                    let c = choose|c: int| 0 <= c < e.len() && e[c].0 == p;
                    if c < i {
                        assert(e[c].0 != e[i as int].0);
                    } else if c > i {
                        assert(e[i as int].0 != e[c].0);
                    }
                    assert(c == i);
                }
                self.data.set(i, (p, st));
                proof {
                    assert(self.data@ == upsert(e, p, st));
                    assert forall|x: int, y: int| 0 <= x < y < self.data@.len() implies #[trigger] self.data@[x].0
                        != #[trigger] self.data@[y].0 by {
                        assert(self.data@[x].0 == e[x].0);
                        assert(self.data@[y].0 == e[y].0);
                    }
                }
                return;
            }
            i += 1;
        }
        self.data.push((p, st));
        proof {
            let e = old(self).data@;
            assert(!(exists|c: int| 0 <= c < e.len() && e[c].0 == p));
            assert forall|x: int, y: int| 0 <= x < y < self.data@.len() implies #[trigger] self.data@[x].0
                != #[trigger] self.data@[y].0 by {
                if y < e.len() {
                    assert(self.data@[x].0 == e[x].0);
                    assert(self.data@[y].0 == e[y].0);
                } else {
                    assert(self.data@[x].0 == e[x].0);
                }
            }
        }
    }

    /// Marks every given peer with `Status::Unknown`, adding those not yet known.
    pub fn extend(&mut self, peers: &[Peer])
        requires
            old(self).wf(),
        ensures
            final(self).wf(),
            final(self).entries() == upsert_all(
                old(self).entries(),
                Seq::new(peers@.len(), |i: int| (peers@[i], Status::Unknown)),
            ),
            final(self).spec_info_hash() == old(self).spec_info_hash(),
    {
        let ghost all = Seq::new(peers@.len(), |i: int| (peers@[i], Status::Unknown));
        let mut i: usize = 0;
        while i < peers.len()
            invariant
                0 <= i <= peers@.len(),
                all == Seq::new(peers@.len(), |i: int| (peers@[i], Status::Unknown)),
                self.wf(),
                self.spec_info_hash() == old(self).spec_info_hash(),
                self.entries() == upsert_all(old(self).entries(), all.take(i as int)),
            decreases peers@.len() - i,
        {
            assert(all.take(i + 1).drop_last() == all.take(i as int));
            self.upsert_one(peers[i], Status::Unknown);
            i += 1;
        }
        assert(all.take(peers@.len() as int) == all);
    }

    /// Records the statuses of returned peers, then hands out up to `limit` idle peers —
    /// never-tried ones first, then those without useful pieces, those that choked for too
    /// long, and last those that could not be reached — and marks them active.
    pub fn return_batch_of_bad_peers_and_get_new_batch(
        &mut self,
        bad_peers: &Vec<(Peer, Status)>,
        limit: usize,
    ) -> (r: Vec<Peer>)
        requires
            old(self).wf(),
        ensures
            final(self).wf(),
            final(self).spec_info_hash() == old(self).spec_info_hash(),
            ({
                let e1 = upsert_all(old(self).entries(), bad_peers@);
                let picked = batch_indices(e1, limit as int);
                &&& r@.len() == picked.len()
                &&& forall|k: int| 0 <= k < r@.len() ==> r@[k] == #[trigger] e1[picked[k]].0
                &&& final(self).entries().len() == e1.len()
                &&& forall|i: int|
                    0 <= i < e1.len() ==> #[trigger] final(self).entries()[i] == if picked.contains(
                        i,
                    ) {
                        (e1[i].0, Status::Active)
                    } else {
                        e1[i]
                    }
            }),
    {
        let mut b: usize = 0;
        while b < bad_peers.len()
            invariant
                0 <= b <= bad_peers@.len(),
                self.wf(),
                self.info_hash == old(self).info_hash,
                self.spec_info_hash() == old(self).spec_info_hash(),
                self.entries() == upsert_all(old(self).entries(), bad_peers@.take(b as int)),
            decreases bad_peers@.len() - b,
        {
            assert(bad_peers@.take(b + 1).drop_last() == bad_peers@.take(b as int));
            self.upsert_one(bad_peers[b].0, bad_peers[b].1);
            b += 1;
        }
        assert(bad_peers@.take(bad_peers@.len() as int) == bad_peers@);
        let ghost e1 = self.data@;
        let order = [
            Status::Unknown,
            Status::NoUsefulPieces,
            Status::ChokedForTooLong,
            Status::UnableToConnect,
        ];
        let mut picked: Vec<usize> = Vec::new();
        let mut k: usize = 0;
        while k < 4
            invariant
                0 <= k <= 4,
                self.data@ == e1,
                self.info_hash == old(self).info_hash,
                order@ == seq![
                    Status::Unknown,
                    Status::NoUsefulPieces,
                    Status::ChokedForTooLong,
                    Status::UnableToConnect,
                ],
                picked@.map_values(|x: usize| x as int) == clamp_take(
                    candidates_upto(e1, k as int),
                    limit as int,
                ),
            decreases 4 - k,
        {
            let st = order[k];
            assert(st == priority(k as int));
            let mut i: usize = 0;
            while i < self.data.len()
                invariant
                    0 <= i <= e1.len(),
                    self.data@ == e1,
                    self.info_hash == old(self).info_hash,
                    0 <= k < 4,
                    st == priority(k as int),
                    picked@.map_values(|x: usize| x as int) == clamp_take(
                        candidates_upto(e1, k as int) + indices_with(e1, st, i as int),
                        limit as int,
                    ),
                decreases e1.len() - i,
            {
                let ghost before = candidates_upto(e1, k as int) + indices_with(e1, st, i as int);
                let ghost after = candidates_upto(e1, k as int) + indices_with(
                    e1,
                    st,
                    i + 1 as int,
                );
                if self.data[i].1 == st {
                    assert(after =~= before.push(i as int));
                    if picked.len() < limit {
                        let ghost prev = picked@.map_values(|x: usize| x as int);
                        assert(prev.len() == picked@.len());
                        proof {
                            if before.len() >= limit {
                                assert(clamp_take(before, limit as int).len() == limit);
                            }
                        }
                        assert(before.len() < limit);
                        assert(clamp_take(before, limit as int) =~= before);
                        picked.push(i);
                        assert(picked@.map_values(|x: usize| x as int) =~= prev.push(i as int));
                        assert(picked@.map_values(|x: usize| x as int) =~= clamp_take(after, limit as int));
                    } else {
                        assert(clamp_take(after, limit as int) =~= clamp_take(before, limit as int));
                    }
                } else {
                    assert(after == before);
                }
                i += 1;
            }
            assert(candidates_upto(e1, k + 1 as int) == candidates_upto(e1, k as int) + indices_with(
                e1,
                st,
                e1.len() as int,
            ));
            k += 1;
        }
        proof {
            lemma_candidates_bounds(e1, 4);
        }
        let ghost picked_int = picked@.map_values(|x: usize| x as int);
        assert(picked_int == batch_indices(e1, limit as int));
        let mut result: Vec<Peer> = Vec::new();
        let mut m: usize = 0;
        while m < picked.len()
            invariant
                0 <= m <= picked@.len(),
                self.info_hash == old(self).info_hash,
                picked_int == picked@.map_values(|x: usize| x as int),
                picked_int == batch_indices(e1, limit as int),
                forall|a: int| 0 <= a < picked_int.len() ==> 0 <= #[trigger] picked_int[a] < e1.len(),
                forall|a: int, c: int|
                    0 <= a < c < picked_int.len() ==> #[trigger] picked_int[a] != #[trigger] picked_int[c],
                self.data@.len() == e1.len(),
                result@.len() == m,
                forall|a: int| 0 <= a < m ==> result@[a] == #[trigger] e1[picked_int[a]].0,
                forall|i: int|
                    0 <= i < e1.len() ==> #[trigger] self.data@[i] == if picked_int.take(
                        m as int,
                    ).contains(i) {
                        (e1[i].0, Status::Active)
                    } else {
                        e1[i]
                    },
            decreases picked@.len() - m,
        {
            let idx = picked[m];
            assert(picked_int[m as int] == idx);
            let p = self.data[idx].0;
            proof {
                assert(!picked_int.take(m as int).contains(idx as int));
                assert(p == e1[idx as int].0);
            }
            self.data.set(idx, (p, Status::Active));
            result.push(p);
            proof {
                assert forall|i: int| 0 <= i < e1.len() implies #[trigger] self.data@[i] == if picked_int.take(
                    m + 1 as int,
                ).contains(i) {
                    (e1[i].0, Status::Active)
                } else {
                    e1[i]
                } by {
                    if i == idx {
                        assert(picked_int.take(m + 1 as int)[m as int] == i);
                    } else {
                        if picked_int.take(m + 1 as int).contains(i) {
                            let w = choose|w: int| 0 <= w < m + 1 && #[trigger] picked_int.take(m + 1 as int)[w] == i;
                            assert(picked_int.take(m as int)[w] == i);
                        }
                        if picked_int.take(m as int).contains(i) {
                            let w = choose|w: int| 0 <= w < m && #[trigger] picked_int.take(m as int)[w] == i;
                            assert(picked_int.take(m + 1 as int)[w] == i);
                        }
                    }
                }
            }
            m += 1;
        }
        proof {
            assert(picked_int.take(picked_int.len() as int) == picked_int);
            assert forall|i: int, j: int| 0 <= i < j < self.data@.len() implies #[trigger] self.data@[i].0
                != #[trigger] self.data@[j].0 by {
                assert(self.data@[i].0 == e1[i].0);
                assert(self.data@[j].0 == e1[j].0);
            }
        }
        result
    }
}

proof fn lemma_candidates_prefix(e: Seq<(Peer, Status)>, k: int, m: int)
    requires
        0 <= k <= m,
    ensures
        candidates_upto(e, m).len() >= candidates_upto(e, k).len(),
        candidates_upto(e, m).take(candidates_upto(e, k).len() as int) == candidates_upto(e, k),
    decreases m - k,
{
    if k < m {
        lemma_candidates_prefix(e, k, m - 1);
        let a = candidates_upto(e, m - 1);
        let full = a + indices_with(e, priority(m - 1), e.len() as int);
        assert(full.take(a.len() as int) == a);
        assert(full.take(candidates_upto(e, k).len() as int) == a.take(candidates_upto(e, k).len() as int));
    } else {
        assert(candidates_upto(e, m).take(candidates_upto(e, m).len() as int) == candidates_upto(e, m));
    }
}

proof fn lemma_candidates_bounds(e: Seq<(Peer, Status)>, k: int)
    requires
        0 <= k <= 4,
    ensures
        forall|a: int|
            0 <= a < candidates_upto(e, k).len() ==> 0 <= #[trigger] candidates_upto(e, k)[a] < e.len(),
        forall|a: int, c: int|
            0 <= a < c < candidates_upto(e, k).len() ==> #[trigger] candidates_upto(e, k)[a]
                != #[trigger] candidates_upto(e, k)[c],
    decreases k,
{
    if k > 0 {
        lemma_candidates_bounds(e, k - 1);
        lemma_indices_with_bounds(e, priority(k - 1), e.len() as int);
        let a = candidates_upto(e, k - 1);
        let b = indices_with(e, priority(k - 1), e.len() as int);
        assert(candidates_upto(e, k) == a + b);
        assert forall|x: int, y: int| 0 <= x < y < (a + b).len() implies #[trigger] (a + b)[x]
            != #[trigger] (a + b)[y] by {
            if x < a.len() && y >= a.len() {
                lemma_candidates_status(e, k - 1, x);
                assert((a + b)[x] == a[x]);
                assert((a + b)[y] == b[y - a.len()]);
                assert(e[(a + b)[y]].1 == priority(k - 1));
                assert(e[(a + b)[x]].1 != priority(k - 1));
            } else if x < a.len() {
                assert((a + b)[x] == a[x]);
                assert((a + b)[y] == a[y]);
            } else {
                assert((a + b)[x] == b[x - a.len()]);
                assert((a + b)[y] == b[y - a.len()]);
            }
        }
    }
}

proof fn lemma_candidates_status(e: Seq<(Peer, Status)>, k: int, x: int)
    requires
        0 <= k,
        0 <= x < candidates_upto(e, k).len(),
    ensures
        exists|c: int| 0 <= c < k && e[candidates_upto(e, k)[x]].1 == priority(c),
        forall|c: int| k <= c < 4 ==> e[candidates_upto(e, k)[x]].1 != #[trigger] priority(c),
    decreases k,
{
    let a = candidates_upto(e, k - 1);
    lemma_indices_with_bounds(e, priority(k - 1), e.len() as int);
    if x < a.len() {
        lemma_candidates_status(e, k - 1, x);
        assert(candidates_upto(e, k)[x] == a[x]);
    } else {
        assert(e[candidates_upto(e, k)[x]].1 == priority(k - 1));
    }
}

/// A batch hands out no entry twice, and never a peer that is already active.
pub proof fn lemma_batch_picks_idle_peers(e: Seq<(Peer, Status)>, limit: int)
    requires
        0 <= limit,
    ensures
        forall|a: int|
            0 <= a < batch_indices(e, limit).len() ==> 0 <= #[trigger] batch_indices(e, limit)[a]
                < e.len() && e[batch_indices(e, limit)[a]].1 != Status::Active,
        forall|a: int, c: int|
            0 <= a < c < batch_indices(e, limit).len() ==> #[trigger] batch_indices(e, limit)[a]
                != #[trigger] batch_indices(e, limit)[c],
{
    lemma_candidates_bounds(e, 4);
    let cands = candidates_upto(e, 4);
    let batch = batch_indices(e, limit);
    assert(batch.len() <= cands.len());
    assert forall|a: int| 0 <= a < batch.len() implies 0 <= #[trigger] batch[a] < e.len()
        && e[batch[a]].1 != Status::Active by {
        assert(batch[a] == cands[a]);
        lemma_candidates_status(e, 4, a);
        let c = choose|c: int| 0 <= c < 4 && e[cands[a]].1 == priority(c);
        assert(priority(c) != Status::Active);
    }
    assert forall|a: int, c: int| 0 <= a < c < batch.len() implies #[trigger] batch[a]
        != #[trigger] batch[c] by {
        assert(batch[a] == cands[a]);
        assert(batch[c] == cands[c]);
    }
}

/// Recording the statuses of other peers leaves the entry of `p` where it is.
pub proof fn lemma_upsert_all_keeps(e: Seq<(Peer, Status)>, bad: Seq<(Peer, Status)>, ip: int)
    requires
        0 <= ip < e.len(),
        forall|k: int| 0 <= k < bad.len() ==> #[trigger] bad[k].0 != e[ip].0,
    ensures
        upsert_all(e, bad).len() >= e.len(),
        upsert_all(e, bad)[ip] == e[ip],
    decreases bad.len(),
{
    if bad.len() > 0 {
        let prev = upsert_all(e, bad.drop_last());
        assert forall|k: int| 0 <= k < bad.drop_last().len() implies #[trigger] bad.drop_last()[k].0 != e[ip].0 by {
            assert(bad.drop_last()[k] == bad[k]);
        }
        lemma_upsert_all_keeps(e, bad.drop_last(), ip);
        assert(bad.last().0 != e[ip].0);
        if exists|i: int| 0 <= i < prev.len() && prev[i].0 == bad.last().0 {
            let i = choose|i: int| 0 <= i < prev.len() && prev[i].0 == bad.last().0;
            assert(i != ip);
        }
    }
}

} // verus!
