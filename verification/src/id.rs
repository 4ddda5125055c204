use vstd::prelude::*;
use crate::bitmap::{bit_at, popcount8, popcount_seq};
use core::cmp::Ordering;
use vstd::std_specs::cmp::PartialEqSpecImpl;

verus! {

pub const ID_LEN: usize = 20;
pub const ID_BIT_COUNT: usize = 160;

/// Number of set bits in a 32-bit word.
pub open spec fn popcount32(x: u32) -> int {
    (x & 1) + ((x >> 1) & 1) + ((x >> 2) & 1) + ((x >> 3) & 1) + ((x >> 4) & 1) + ((x >> 5) & 1)
        + ((x >> 6) & 1) + ((x >> 7) & 1) + ((x >> 8) & 1) + ((x >> 9) & 1) + ((x >> 10) & 1) + ((
    x >> 11) & 1) + ((x >> 12) & 1) + ((x >> 13) & 1) + ((x >> 14) & 1) + ((x >> 15) & 1) + ((x
        >> 16) & 1) + ((x >> 17) & 1) + ((x >> 18) & 1) + ((x >> 19) & 1) + ((x >> 20) & 1) + ((x
        >> 21) & 1) + ((x >> 22) & 1) + ((x >> 23) & 1) + ((x >> 24) & 1) + ((x >> 25) & 1) + ((x
        >> 26) & 1) + ((x >> 27) & 1) + ((x >> 28) & 1) + ((x >> 29) & 1) + ((x >> 30) & 1) + ((x
        >> 31) & 1)
}

/// Population count of a 32-bit word with the parallel-sum method.
pub fn hamming_weight(x: u32) -> (r: u32)
    ensures
        r == popcount32(x),
{
    let x0 = x;
    assert((x0 >> 1) & 0x55555555 <= x0) by (bit_vector);
    let x1 = x0 - ((x0 >> 1) & 0x55555555);
    assert((x1 & 0x33333333) + ((x1 >> 2) & 0x33333333) <= u32::MAX) by (bit_vector);
    let x2 = (x1 & 0x33333333) + ((x1 >> 2) & 0x33333333);
    assert(x2 + (x2 >> 4) <= u32::MAX) by (bit_vector)
        requires
            x2 == (x1 & 0x33333333) + ((x1 >> 2) & 0x33333333),
    ;
    let x3 = (x2 + (x2 >> 4)) & 0x0f0f0f0f;
    let m = x3.wrapping_mul(0x01010101);
    proof {
        let p: u64 = (x3 as u64 * 0x01010101u64) as u64;
        assert(x3 as u64 * 0x01010101u64 == x3 as int * 0x01010101int) by (nonlinear_arith)
            requires
                x3 <= u32::MAX,
        ;
        assert(p as u32 == p % 0x1_0000_0000) by (bit_vector);
        assert(m == p as u32);
        assert(((x3 as u64 * 0x01010101u64) as u32) >> 24u32 == popcount32(x0)) by (bit_vector)
            requires
                x1 == x0 - ((x0 >> 1) & 0x55555555),
                x2 == (x1 & 0x33333333) + ((x1 >> 2) & 0x33333333),
                x3 == ((x2 + (x2 >> 4)) as u32) & 0x0f0f0f0f,
                x2 + (x2 >> 4) <= u32::MAX,
        ;
    }
    m >> 24
}

/// The first `k` bits of `a` and `b` are equal.
pub open spec fn bits_agree(a: Seq<u8>, b: Seq<u8>, k: int) -> bool {
    forall|i: int| 0 <= i < k ==> #[trigger] bit_at(a, i) == bit_at(b, i)
}

/// Bit `k` is the first bit where `a` and `b` differ.
pub open spec fn first_diff_at(a: Seq<u8>, b: Seq<u8>, k: int) -> bool {
    bits_agree(a, b, k) && bit_at(a, k) != bit_at(b, k)
}

/// `bits_agree` for a machine-sized bit count.
pub open spec fn bits_agree_upto(a: Seq<u8>, b: Seq<u8>, n: usize) -> bool {
    bits_agree(a, b, n as int)
}

/// `bits_less` for a machine-sized bit count.
pub open spec fn bits_less_upto(a: Seq<u8>, b: Seq<u8>, n: usize) -> bool {
    bits_less(a, b, n as int)
}

/// Within their first `n` bits, `a` sorts before `b`.
pub open spec fn bits_less(a: Seq<u8>, b: Seq<u8>, n: int) -> bool {
    exists|k: int| 0 <= k < n && #[trigger] first_diff_at(a, b, k) && !bit_at(a, k)
}

/// Ordering of two 20-byte identifiers: bitwise, most significant first.
pub open spec fn id_less(a: Seq<u8>, b: Seq<u8>) -> bool {
    bits_less(a, b, 160)
}

/// Bitwise exclusive or of two byte sequences of equal length.
pub open spec fn xor_seq(a: Seq<u8>, b: Seq<u8>) -> Seq<u8> {
    Seq::new(a.len(), |i: int| a[i] ^ b[i])
}

/// Name for what SHA-1 (as computed by the `openssl` crate) returns for some data.
pub uninterp spec fn spec_sha1(data: Seq<u8>) -> Seq<u8>;

/// `openssl::sha::sha1`: the SHA-1 digest of `data`. The contract claims only that the
/// digest depends on the data alone.
#[verifier::external_body]
pub(crate) fn sha1(data: &[u8]) -> (r: [u8; 20])
    ensures
        r@ == spec_sha1(data@),
{
    openssl::sha::sha1(data)
}

/// `rand::random::<u8>()`: a byte from the thread-local generator; nothing is claimed of it.
#[verifier::external_body]
pub(crate) fn random_byte() -> u8 {
    rand::random::<u8>()
}

/// A coin flip: the low bit of a random byte.
fn random_bool() -> bool {
    random_byte() % 2 == 1
}

/// A 160-bit identifier (node id, info hash, peer id).
#[derive(Clone, Copy, Hash, Eq, PartialOrd, Ord, Debug)]
pub struct ID(pub [u8; ID_LEN]);

impl PartialEq for ID {
    fn eq(&self, other: &Self) -> (r: bool) {
        let mut k: usize = 0;
        while k < ID_LEN
            invariant
                0 <= k <= 20,
                forall|j: int| 0 <= j < k ==> self@[j] == other@[j],
            decreases 20 - k,
        {
            if self.0[k] != other.0[k] {
                return false;
            }
            k += 1;
        }
        assert(self@ =~= other@);
        true
    }
}

impl PartialEqSpecImpl for ID {
    open spec fn obeys_eq_spec() -> bool {
        true
    }

    open spec fn eq_spec(&self, other: &Self) -> bool {
        self@ == other@
    }
}

impl View for ID {
    type V = Seq<u8>;

    open spec fn view(&self) -> Seq<u8> {
        self.0@
    }
}

pub proof fn lemma_bit_at_bytes(a: Seq<u8>, i: int)
    requires
        0 <= i,
    ensures
        bit_at(a, i) == ((0x80u8 >> ((i % 8) as u8)) & a[i / 8] != 0u8),
{
}

/// Two bytes that agree in their top `k` bits and differ in bit `k` are ordered by that bit.
proof fn lemma_byte_order_at(x: u8, y: u8, k: u8)
    requires
        k < 8,
        (x as u32) >> ((8 - k) as u32) == (y as u32) >> ((8 - k) as u32),
        ((0x80u8 >> k) & x != 0u8) != ((0x80u8 >> k) & y != 0u8),
    ensures
        (x < y) == ((0x80u8 >> k) & x == 0u8),
{
    assert((x < y) == ((0x80u8 >> k) & x == 0u8)) by (bit_vector)
        requires
            k < 8,
            (x as u32) >> ((8 - k) as u32) == (y as u32) >> ((8 - k) as u32),
            ((0x80u8 >> k) & x != 0u8) != ((0x80u8 >> k) & y != 0u8),
    ;
}

proof fn lemma_byte_top_bits(x: u8, y: u8, k: u8, j: u8)
    requires
        j < k <= 8,
        (x as u32) >> ((8 - k) as u32) == (y as u32) >> ((8 - k) as u32),
    ensures
        ((0x80u8 >> j) & x != 0u8) == ((0x80u8 >> j) & y != 0u8),
{
    assert(((0x80u8 >> j) & x != 0u8) == ((0x80u8 >> j) & y != 0u8)) by (bit_vector)
        requires
            j < k <= 8,
            (x as u32) >> ((8 - k) as u32) == (y as u32) >> ((8 - k) as u32),
    ;
}

proof fn lemma_byte_top_step(x: u8, y: u8, k: u8)
    requires
        k < 8,
        (x as u32) >> ((8 - k) as u32) == (y as u32) >> ((8 - k) as u32),
        ((0x80u8 >> k) & x != 0u8) == ((0x80u8 >> k) & y != 0u8),
    ensures
        (x as u32) >> ((8 - (k + 1)) as u32) == (y as u32) >> ((8 - (k + 1)) as u32),
{
    assert((x as u32) >> ((8 - (k + 1)) as u32) == (y as u32) >> ((8 - (k + 1)) as u32))
        by (bit_vector)
        requires
            k < 8,
            (x as u32) >> ((8 - k) as u32) == (y as u32) >> ((8 - k) as u32),
            ((0x80u8 >> k) & x != 0u8) == ((0x80u8 >> k) & y != 0u8),
    ;
}

/// For distinct bytes, the first differing bit (from the top) decides their order.
proof fn lemma_byte_first_diff(x: u8, y: u8) -> (k: u8)
    requires
        x != y,
    ensures
        k < 8,
        forall|j: u8| j < k ==> ((0x80u8 >> j) & x != 0u8) == ((0x80u8 >> j) & y != 0u8),
        ((0x80u8 >> k) & x != 0u8) != ((0x80u8 >> k) & y != 0u8),
        (x < y) == ((0x80u8 >> k) & x == 0u8),
{
    assert((x as u32) >> 8u32 == (y as u32) >> 8u32) by (bit_vector);
    lemma_byte_first_diff_from(x, y, 0)
}

proof fn lemma_byte_first_diff_from(x: u8, y: u8, k: u8) -> (r: u8)
    requires
        x != y,
        k <= 8,
        (x as u32) >> ((8 - k) as u32) == (y as u32) >> ((8 - k) as u32),
    ensures
        k <= r < 8,
        forall|j: u8| j < r ==> ((0x80u8 >> j) & x != 0u8) == ((0x80u8 >> j) & y != 0u8),
        ((0x80u8 >> r) & x != 0u8) != ((0x80u8 >> r) & y != 0u8),
        (x < y) == ((0x80u8 >> r) & x == 0u8),
    decreases 8 - k,
{
    if k == 8 {
        assert((x as u32) >> 0u32 == (y as u32) >> 0u32 ==> x == y) by (bit_vector);
        assert(false);
        k
    } else if ((0x80u8 >> k) & x != 0u8) != ((0x80u8 >> k) & y != 0u8) {
        assert forall|j: u8| j < k implies ((0x80u8 >> j) & x != 0u8) == ((0x80u8 >> j) & y
            != 0u8) by {
            lemma_byte_top_bits(x, y, k, j);
        }
        lemma_byte_order_at(x, y, k);
        k
    } else {
        lemma_byte_top_step(x, y, k);
        lemma_byte_first_diff_from(x, y, (k + 1) as u8)
    }
}

/// Bits of a byte sequence agree byte by byte.
proof fn lemma_agree_bytes(a: Seq<u8>, b: Seq<u8>, nbytes: int)
    requires
        0 <= nbytes <= a.len(),
        nbytes <= b.len(),
        forall|j: int| 0 <= j < nbytes ==> a[j] == b[j],
    ensures
        bits_agree(a, b, 8 * nbytes),
{
    assert forall|i: int| 0 <= i < 8 * nbytes implies #[trigger] bit_at(a, i) == bit_at(b, i) by {
        assert(i / 8 < nbytes);
    }
}

/// The first differing byte decides the first differing bit.
proof fn lemma_first_diff_in_byte(a: Seq<u8>, b: Seq<u8>, j: int) -> (k: int)
    requires
        0 <= j < a.len(),
        j < b.len(),
        forall|i: int| 0 <= i < j ==> a[i] == b[i],
        a[j] != b[j],
    ensures
        8 * j <= k < 8 * j + 8,
        first_diff_at(a, b, k),
        (a[j] < b[j]) == !bit_at(a, k),
{
    let kb = lemma_byte_first_diff(a[j], b[j]);
    lemma_agree_bytes(a, b, j);
    let k = 8 * j + kb;
    assert(k / 8 == j && k % 8 == kb);
    assert forall|i: int| 0 <= i < k implies #[trigger] bit_at(a, i) == bit_at(b, i) by {
        if i >= 8 * j {
            assert(i / 8 == j);
            let jb = (i % 8) as u8;
            assert(jb < kb);
        }
    }
    k
}

proof fn lemma_first_diff_in_byte_at(a: Seq<u8>, b: Seq<u8>, j: usize) -> (k: int)
    requires
        j < a.len(),
        j < b.len(),
        forall|i: int| 0 <= i < j ==> a[i] == b[i],
        a[j as int] != b[j as int],
    ensures
        8 * j <= k < 8 * j + 8,
        first_diff_at(a, b, k),
        (a[j as int] < b[j as int]) == !bit_at(a, k),
{
    lemma_first_diff_in_byte(a, b, j as int)
}

proof fn lemma_agree_bytes_upto(a: Seq<u8>, b: Seq<u8>, nbytes: usize)
    requires
        nbytes <= a.len(),
        nbytes <= b.len(),
        forall|j: int| 0 <= j < nbytes ==> a[j] == b[j],
    ensures
        bits_agree(a, b, 8 * nbytes),
{
    lemma_agree_bytes(a, b, nbytes as int);
}

pub proof fn lemma_first_diff_unique(a: Seq<u8>, b: Seq<u8>, k1: int, k2: int)
    requires
        0 <= k1,
        0 <= k2,
        first_diff_at(a, b, k1),
        first_diff_at(a, b, k2),
    ensures
        k1 == k2,
{
    if k1 < k2 {
        assert(bit_at(a, k1) == bit_at(b, k1));
    } else if k2 < k1 {
        assert(bit_at(a, k2) == bit_at(b, k2));
    }
}

/// The ordering on identifiers is irreflexive, transitive and total.
pub proof fn lemma_id_less_strict_total(a: Seq<u8>, b: Seq<u8>, c: Seq<u8>)
    ensures
        !id_less(a, a),
        id_less(a, b) ==> !id_less(b, a),
        id_less(a, b) && id_less(b, c) ==> id_less(a, c),
        a.len() == 20 && b.len() == 20 && a != b ==> id_less(a, b) || id_less(b, a),
{
    if id_less(a, b) && id_less(b, a) {
        let k1 = choose|k: int| 0 <= k < 160 && #[trigger] first_diff_at(a, b, k) && !bit_at(a, k);
        let k2 = choose|k: int| 0 <= k < 160 && #[trigger] first_diff_at(b, a, k) && !bit_at(b, k);
        assert(first_diff_at(a, b, k2));
        lemma_first_diff_unique(a, b, k1, k2);
    }
    if id_less(a, b) && id_less(b, c) {
        let k1 = choose|k: int| 0 <= k < 160 && #[trigger] first_diff_at(a, b, k) && !bit_at(a, k);
        let k2 = choose|k: int| 0 <= k < 160 && #[trigger] first_diff_at(b, c, k) && !bit_at(b, k);
        let k = if k1 < k2 { k1 } else { k2 };
        assert(first_diff_at(a, c, k));
        assert(!bit_at(a, k));
    }
    if a.len() == 20 && b.len() == 20 && a != b {
        let j = choose|j: int| 0 <= j < 20 && a[j] != b[j];
        assert(exists|j: int| 0 <= j < 20 && a[j] != b[j]) by {
            if forall|j: int| 0 <= j < 20 ==> a[j] == b[j] {
                assert(a =~= b);
            }
        }
        lemma_least_diff_byte(a, b, j);
        let j0 = choose|j0: int| 0 <= j0 < 20 && a[j0] != b[j0] && forall|i: int| 0 <= i < j0 ==> a[i]
            == b[i];
        let k = lemma_first_diff_in_byte(a, b, j0);
        if bit_at(a, k) {
            assert(first_diff_at(b, a, k));
        }
    }
}

proof fn lemma_least_diff_byte(a: Seq<u8>, b: Seq<u8>, j: int)
    requires
        0 <= j < a.len(),
        j < b.len(),
        a[j] != b[j],
    ensures
        exists|j0: int| 0 <= j0 <= j && a[j0] != b[j0] && forall|i: int| 0 <= i < j0 ==> a[i] == b[i],
    decreases j,
{
    if exists|i: int| 0 <= i < j && a[i] != b[i] {
        let i = choose|i: int| 0 <= i < j && a[i] != b[i];
        lemma_least_diff_byte(a, b, i);
    } else {
        assert(forall|i: int| 0 <= i < j ==> a[i] == b[i]);
    }
}

impl ID {
    pub fn new(id_array: [u8; ID_LEN]) -> (r: Self)
        ensures
            r@ == id_array@,
    {
        Self(id_array)
    }

    /// An identifier drawn from the random number generator.
    pub fn random() -> (r: Self) {
        let mut bytes = [0u8; ID_LEN];
        let mut k: usize = 0;
        while k < ID_LEN
            invariant
                0 <= k <= 20,
            decreases 20 - k,
        {
            bytes[k] = random_byte();
            k += 1;
        }
        Self(bytes)
    }

    /// Bit `i`, most significant first.
    pub fn get_bit(&self, i: usize) -> (r: bool)
        requires
            i < ID_BIT_COUNT,
        ensures
            r == bit_at(self@, i as int),
    {
        let byte_idx = i / 8;
        let bit_offset = (i % 8) as u8;
        let bit_filter = 0b1000_0000u8 >> bit_offset;
        (bit_filter & self.0[byte_idx]) > 0
    }

    /// Inverts bit `i`.
    pub fn flip_bit(&mut self, i: usize)
        requires
            i < ID_BIT_COUNT,
        ensures
            forall|j: int|
                0 <= j < 160 ==> #[trigger] bit_at(final(self)@, j) == if j == i {
                    !bit_at(old(self)@, j)
                } else {
                    bit_at(old(self)@, j)
                },
            final(self)@ == old(self)@.update(
                i as int / 8,
                old(self)@[i as int / 8] ^ (0x80u8 >> ((i % 8) as u8)),
            ),
    {
        let byte_idx = i / 8;
        let bit_offset = (i % 8) as u8;
        let bit_filter = 0b1000_0000u8 >> bit_offset;
        let old_byte = self.0[byte_idx];
        let new_byte = old_byte ^ bit_filter;
        self.0[byte_idx] = new_byte;
        proof {
            assert forall|j: int| 0 <= j < 160 implies #[trigger] bit_at(self@, j) == if j == i {
                !bit_at(old(self)@, j)
            } else {
                bit_at(old(self)@, j)
            } by {
                if j / 8 == byte_idx {
                    let off2 = (j % 8) as u8;
                    assert(((0x80u8 >> off2) & (old_byte ^ (0x80u8 >> bit_offset)) != 0u8) == (
                    if off2 == bit_offset {
                        !((0x80u8 >> off2) & old_byte != 0u8)
                    } else {
                        (0x80u8 >> off2) & old_byte != 0u8
                    })) by (bit_vector)
                        requires
                            off2 < 8,
                            bit_offset < 8,
                    ;
                }
            }
        }
    }

    /// Sets bit `i` to `v`.
    pub fn change_bit(&mut self, i: usize, v: bool)
        requires
            i < ID_BIT_COUNT,
        ensures
            forall|j: int|
                0 <= j < 160 ==> #[trigger] bit_at(final(self)@, j) == if j == i {
                    v
                } else {
                    bit_at(old(self)@, j)
                },
            final(self)@ == old(self)@.update(
                i as int / 8,
                crate::bitmap::with_bit(old(self)@[i as int / 8], (i % 8) as u8, v),
            ),
    {
        let byte_idx = i / 8;
        let bit_offset = (i % 8) as u8;
        let bit_clearer = !(0b1000_0000u8 >> bit_offset);
        let byte_without_target_bit = bit_clearer & self.0[byte_idx];
        let bit_setter = (if v {
            1u8
        } else {
            0u8
        }) << (7 - bit_offset);
        let new_byte = byte_without_target_bit | bit_setter;
        let ghost old_byte = old(self)@[i as int / 8];
        assert(new_byte == crate::bitmap::with_bit(old_byte, bit_offset, v));
        self.0[byte_idx] = new_byte;
        proof {
            assert forall|j: int| 0 <= j < 160 implies #[trigger] bit_at(self@, j) == if j == i {
                v
            } else {
                bit_at(old(self)@, j)
            } by {
                if j / 8 == byte_idx {
                    crate::bitmap::lemma_with_bit(old_byte, bit_offset, v, (j % 8) as u8);
                }
            }
        }
    }

    /// Compares the first `n` bits of two identifiers, most significant first.
    pub fn cmp_first_n_bits(&self, other: &Self, n: usize) -> (r: Ordering)
        requires
            n <= ID_BIT_COUNT,
        ensures
            r == Ordering::Equal ==> bits_agree_upto(self@, other@, n),
            r == Ordering::Less ==> bits_less_upto(self@, other@, n),
            r == Ordering::Greater ==> bits_less_upto(other@, self@, n),
    {
        let byte_idx = n / 8;
        let bit_offset = n % 8;
        let mut j: usize = 0;
        while j < byte_idx
            invariant
                byte_idx == n / 8,
                n <= 160,
                0 <= j <= byte_idx,
                forall|i: int| 0 <= i < j ==> self@[i] == other@[i],
            decreases byte_idx - j,
        {
            let x = self.0[j];
            let y = other.0[j];
            if x != y {
                proof {
                    let k = lemma_first_diff_in_byte_at(self@, other@, j);
                    if !(x < y) {
                        assert(first_diff_at(other@, self@, k));
                    }
                }
                if x < y {
                    return Ordering::Less;
                } else {
                    return Ordering::Greater;
                }
            }
            j += 1;
        }
        proof {
            lemma_agree_bytes_upto(self@, other@, byte_idx);
        }
        let mut i: usize = 0;
        while i < bit_offset
            invariant
                byte_idx == n / 8,
                bit_offset == n % 8,
                n <= 160,
                0 <= i <= bit_offset,
                bits_agree(self@, other@, 8 * byte_idx + i),
            decreases bit_offset - i,
        {
            let cur_idx = byte_idx * 8 + i;
            let l = self.get_bit(cur_idx);
            let r = other.get_bit(cur_idx);
            if l != r {
                assert(first_diff_at(self@, other@, 8 * byte_idx + i));
                if r {
                    return Ordering::Less;
                } else {
                    assert(first_diff_at(other@, self@, 8 * byte_idx + i));
                    return Ordering::Greater;
                }
            }
            i += 1;
        }
        Ordering::Equal
    }

    /// Index of the first bit where the identifiers differ, if any.
    pub fn first_diff_bit_idx(&self, other: &Self) -> (r: Option<usize>)
        ensures
            r matches Some(k) ==> k < 160 && first_diff_at(self@, other@, k as int),
            r is None ==> bits_agree(self@, other@, 160),
    {
        let mut i: usize = 0;
        while i < ID_BIT_COUNT
            invariant
                0 <= i <= 160,
                bits_agree(self@, other@, i as int),
            decreases 160 - i,
        {
            if self.get_bit(i) != other.get_bit(i) {
                return Some(i);
            }
            i += 1;
        }
        None
    }

    /// Replaces every bit after bit `i` with random ones; bits up to `i` stay.
    pub fn randomize_after_bit(&mut self, i: usize)
        ensures
            i >= 160 ==> final(self)@ == old(self)@,
            forall|j: int| 0 <= j <= i && j < 160 ==> #[trigger] bit_at(final(self)@, j) == bit_at(
                old(self)@,
                j,
            ),
    {
        if i >= ID_BIT_COUNT {
            return;
        }
        let first_byte_idx = i / 8 + 1;
        let mut k: usize = first_byte_idx;
        while k < ID_LEN
            invariant
                first_byte_idx == i / 8 + 1,
                i < 160,
                first_byte_idx <= k <= 20,
                forall|b: int| 0 <= b < first_byte_idx ==> self@[b] == old(self)@[b],
            decreases 20 - k,
        {
            self.0[k] = random_byte();
            k += 1;
        }
        let mut bit_idx: usize = i + 1;
        while bit_idx < first_byte_idx * 8
            invariant
                first_byte_idx == i / 8 + 1,
                i < 160,
                i + 1 <= bit_idx,
                forall|j: int| 0 <= j <= i ==> #[trigger] bit_at(self@, j) == bit_at(old(self)@, j),
            decreases first_byte_idx * 8 - bit_idx,
        {
            if random_bool() {
                self.flip_bit(bit_idx);
            }
            bit_idx += 1;
        }
    }

    /// Orders two values by bit `bit_idx`: the first value leads when the bit is set.
    pub fn bit_based_order<T>(&self, bit_idx: usize, first_if_true: T, first_if_false: T) -> (r: (
        T,
        T,
    ))
        requires
            bit_idx < ID_BIT_COUNT,
        ensures
            bit_at(self@, bit_idx as int) ==> r == (first_if_true, first_if_false),
            !bit_at(self@, bit_idx as int) ==> r == (first_if_false, first_if_true),
    {
        if self.get_bit(bit_idx) {
            (first_if_true, first_if_false)
        } else {
            (first_if_false, first_if_true)
        }
    }

    /// SHA-1 of the identifier followed by `secret`.
    pub fn hash_as_bytes(&self, secret: &[u8]) -> (r: Vec<u8>)
        ensures
            r@ == spec_sha1(self@ + secret@),
    {
        let mut data: Vec<u8> = Vec::new();
        let mut k: usize = 0;
        while k < ID_LEN
            invariant
                0 <= k <= 20,
                data@ == self@.take(k as int),
            decreases 20 - k,
        {
            data.push(self.0[k]);
            k += 1;
            assert(data@ == self@.take(k as int));
        }
        let mut m: usize = 0;
        while m < secret.len()
            invariant
                0 <= m <= secret@.len(),
                data@ == self@ + secret@.take(m as int),
            decreases secret@.len() - m,
        {
            data.push(secret[m]);
            m += 1;
            assert(data@ == self@ + secret@.take(m as int));
        }
        assert(secret@.take(secret@.len() as int) == secret@);
        let digest = sha1(data.as_slice());
        let mut out: Vec<u8> = Vec::new();
        let mut d: usize = 0;
        while d < 20
            invariant
                0 <= d <= 20,
                out@ == digest@.take(d as int),
            decreases 20 - d,
        {
            out.push(digest[d]);
            d += 1;
            assert(out@ == digest@.take(d as int));
        }
        assert(digest@.take(20) == digest@);
        out
    }

    pub fn as_byte_ref(&self) -> (r: &[u8])
        ensures
            r@ == self@,
    {
        self.0.as_slice()
    }

    /// Number of set bits.
    pub fn weight(&self) -> (r: usize)
        ensures
            r == popcount_seq(self@),
    {
        let mut total: usize = 0;
        let mut w: usize = 0;
        while w < 5
            invariant
                0 <= w <= 5,
                total == popcount_seq(self@.take(4 * w as int)),
                total <= 32 * w,
            decreases 5 - w,
        {
            let b0 = self.0[4 * w];
            let b1 = self.0[4 * w + 1];
            let b2 = self.0[4 * w + 2];
            let b3 = self.0[4 * w + 3];
            let word: u32 = (b0 as u32) | ((b1 as u32) << 8u32) | ((b2 as u32) << 16u32) | ((
            b3 as u32) << 24u32);
            proof {
                lemma_word_popcount(b0, b1, b2, b3);
                let s = self@;
                let t = 4 * w as int;
                assert(s.take(t + 4).drop_last() == s.take(t + 3));
                assert(s.take(t + 3).drop_last() == s.take(t + 2));
                assert(s.take(t + 2).drop_last() == s.take(t + 1));
                assert(s.take(t + 1).drop_last() == s.take(t));
                assert(popcount_seq(s.take(t + 1)) == popcount_seq(s.take(t)) + popcount8(b0));
                assert(popcount_seq(s.take(t + 2)) == popcount_seq(s.take(t + 1)) + popcount8(b1));
                assert(popcount_seq(s.take(t + 3)) == popcount_seq(s.take(t + 2)) + popcount8(b2));
                assert(popcount_seq(s.take(t + 4)) == popcount_seq(s.take(t + 3)) + popcount8(b3));
            }
            let hw = hamming_weight(word);
            total = total + hw as usize;
            w += 1;
        }
        assert(self@.take(20) == self@);
        total
    }

    /// Bitwise exclusive or, the distance metric of the DHT.
    pub fn xor(&self, rhs: &ID) -> (r: ID)
        ensures
            r@ == xor_seq(self@, rhs@),
    {
        let mut rv = [0u8; ID_LEN];
        let mut k: usize = 0;
        while k < ID_LEN
            invariant
                0 <= k <= 20,
                forall|j: int| 0 <= j < k ==> rv@[j] == self@[j] ^ rhs@[j],
            decreases 20 - k,
        {
            rv[k] = self.0[k] ^ rhs.0[k];
            k += 1;
        }
        assert(rv@ =~= xor_seq(self@, rhs@));
        ID(rv)
    }

    /// Builds an identifier from exactly twenty bytes.
    pub fn from_vec(vec: Vec<u8>) -> (r: ID)
        requires
            vec@.len() == ID_LEN,
        ensures
            r@ == vec@,
    {
        let mut rv = [0u8; ID_LEN];
        let mut k: usize = 0;
        while k < ID_LEN
            invariant
                0 <= k <= 20,
                vec@.len() == 20,
                forall|j: int| 0 <= j < k ==> rv@[j] == vec@[j],
            decreases 20 - k,
        {
            rv[k] = vec[k];
            k += 1;
        }
        assert(rv@ =~= vec@);
        ID(rv)
    }
}

proof fn lemma_word_popcount(b0: u8, b1: u8, b2: u8, b3: u8)
    ensures
        popcount32(
            (b0 as u32) | ((b1 as u32) << 8u32) | ((b2 as u32) << 16u32) | ((b3 as u32) << 24u32),
        ) == popcount8(b0) + popcount8(b1) + popcount8(b2) + popcount8(b3),
        popcount8(b0) + popcount8(b1) + popcount8(b2) + popcount8(b3) <= 32,
{
    assert(popcount32(
        (b0 as u32) | ((b1 as u32) << 8u32) | ((b2 as u32) << 16u32) | ((b3 as u32) << 24u32),
    ) == ((b0 & 1u8) + ((b0 >> 1u8) & 1u8) + ((b0 >> 2u8) & 1u8) + ((b0 >> 3u8) & 1u8) + ((b0
        >> 4u8) & 1u8) + ((b0 >> 5u8) & 1u8) + ((b0 >> 6u8) & 1u8) + ((b0 >> 7u8) & 1u8)) + ((b1
        & 1u8) + ((b1 >> 1u8) & 1u8) + ((b1 >> 2u8) & 1u8) + ((b1 >> 3u8) & 1u8) + ((b1 >> 4u8)
        & 1u8) + ((b1 >> 5u8) & 1u8) + ((b1 >> 6u8) & 1u8) + ((b1 >> 7u8) & 1u8)) + ((b2 & 1u8)
        + ((b2 >> 1u8) & 1u8) + ((b2 >> 2u8) & 1u8) + ((b2 >> 3u8) & 1u8) + ((b2 >> 4u8) & 1u8)
        + ((b2 >> 5u8) & 1u8) + ((b2 >> 6u8) & 1u8) + ((b2 >> 7u8) & 1u8)) + ((b3 & 1u8) + ((b3
        >> 1u8) & 1u8) + ((b3 >> 2u8) & 1u8) + ((b3 >> 3u8) & 1u8) + ((b3 >> 4u8) & 1u8) + ((b3
        >> 5u8) & 1u8) + ((b3 >> 6u8) & 1u8) + ((b3 >> 7u8) & 1u8))) by (bit_vector);
    crate::bitmap::lemma_popcount8_bound(b0);
    crate::bitmap::lemma_popcount8_bound(b1);
    crate::bitmap::lemma_popcount8_bound(b2);
    crate::bitmap::lemma_popcount8_bound(b3);
}

impl<'a, 'b> core::ops::BitXor<&'b ID> for &'a ID {
    type Output = ID;

    fn bitxor(self, rhs: &'b ID) -> (r: ID) {
        let r = self.xor(rhs);
        proof {
            lemma_xor_id(*self, *rhs, r);
        }
        r
    }
}

impl<'a, 'b> vstd::std_specs::ops::BitXorSpecImpl<&'b ID> for &'a ID {
    open spec fn obeys_bitxor_spec() -> bool {
        true
    }

    open spec fn bitxor_req(self, rhs: &'b ID) -> bool {
        true
    }

    open spec fn bitxor_spec(self, rhs: &'b ID) -> ID {
        xor_id(*self, *rhs)
    }
}

impl<'a, 'b> core::ops::Sub<&'b ID> for &'a ID {
    type Output = ID;

    fn sub(self, other: &'b ID) -> (r: ID) {
        let r = self.xor(other);
        proof {
            lemma_xor_id(*self, *other, r);
        }
        r
    }
}

impl<'a, 'b> vstd::std_specs::ops::SubSpecImpl<&'b ID> for &'a ID {
    open spec fn obeys_sub_spec() -> bool {
        true
    }

    open spec fn sub_req(self, rhs: &'b ID) -> bool {
        true
    }

    open spec fn sub_spec(self, rhs: &'b ID) -> ID {
        xor_id(*self, *rhs)
    }
}

/// The identifier whose bytes are the exclusive or of the two identifiers' bytes.
pub open spec fn xor_id(a: ID, b: ID) -> ID {
    choose|r: ID| r@ == xor_seq(a@, b@)
}

/// Identifiers with the same bytes are the same identifier.
pub proof fn lemma_id_view_eq(a: ID, b: ID)
    requires
        a@ == b@,
    ensures
        a == b,
{
    vstd::array::axiom_array_ext_equal(a.0, b.0);
}

proof fn lemma_xor_id(a: ID, b: ID, r: ID)
    requires
        r@ == xor_seq(a@, b@),
    ensures
        r == xor_id(a, b),
{
    let c = xor_id(a, b);
    assert(c@ == xor_seq(a@, b@));
    assert(c.0@ =~= r.0@);
    vstd::array::axiom_array_ext_equal(c.0, r.0);
}

} // verus!
