use vstd::prelude::*;

verus! {

/// Number of bytes needed to hold `len` bits (`len >= 1`).
pub open spec fn bytes_for_bits(len: int) -> int {
    1 + (len - 1) / 8
}

/// Bit `i` of a most-significant-bit-first packed byte sequence.
pub open spec fn bit_at(data: Seq<u8>, i: int) -> bool {
    (0x80u8 >> ((i % 8) as u8)) & data[i / 8] != 0u8
}

/// The bits of `data`, first `n` of them, most significant bit of each byte first.
pub open spec fn bits_of(data: Seq<u8>, n: int) -> Seq<bool> {
    Seq::new(n as nat, |i: int| bit_at(data, i))
}

/// Number of set bits in a byte.
pub open spec fn popcount8(b: u8) -> nat {
    ((b & 1u8) + ((b >> 1u8) & 1u8) + ((b >> 2u8) & 1u8) + ((b >> 3u8) & 1u8) + ((b >> 4u8)
        & 1u8) + ((b >> 5u8) & 1u8) + ((b >> 6u8) & 1u8) + ((b >> 7u8) & 1u8)) as nat
}

/// Number of set bits in a byte sequence.
pub open spec fn popcount_seq(data: Seq<u8>) -> nat
    decreases data.len(),
{
    if data.len() == 0 {
        0
    } else {
        popcount_seq(data.drop_last()) + popcount8(data.last())
    }
}

/// `b` with bit `off` (counted from the most significant bit) set to `v`.
pub open spec fn with_bit(b: u8, off: u8, v: bool) -> u8 {
    (!(0x80u8 >> off) & b) | ((if v { 1u8 } else { 0u8 }) << ((7 - off) as u8))
}

/// Number of set bits in a byte.
fn count_ones_byte(b: u8) -> (r: u32)
    ensures
        r == popcount8(b),
{
    assert((b & 1u8) <= 1 && ((b >> 1u8) & 1u8) <= 1 && ((b >> 2u8) & 1u8) <= 1 && ((b >> 3u8) & 1u8)
        <= 1 && ((b >> 4u8) & 1u8) <= 1 && ((b >> 5u8) & 1u8) <= 1 && ((b >> 6u8) & 1u8) <= 1 && ((
    b >> 7u8) & 1u8) <= 1) by (bit_vector);
    let sum: u8 = (b & 1u8) + ((b >> 1u8) & 1u8) + ((b >> 2u8) & 1u8) + ((b >> 3u8) & 1u8) + ((b
        >> 4u8) & 1u8) + ((b >> 5u8) & 1u8) + ((b >> 6u8) & 1u8) + ((b >> 7u8) & 1u8);
    sum as u32
}

pub proof fn lemma_with_bit(b: u8, off: u8, v: bool, off2: u8)
    requires
        off < 8,
        off2 < 8,
    ensures
        ((0x80u8 >> off2) & with_bit(b, off, v) != 0u8) == (if off2 == off {
            v
        } else {
            (0x80u8 >> off2) & b != 0u8
        }),
{
    if v {
        assert(((0x80u8 >> off2) & ((!(0x80u8 >> off) & b) | (1u8 << ((7 - off) as u8))) != 0u8) == (
        if off2 == off {
            true
        } else {
            (0x80u8 >> off2) & b != 0u8
        })) by (bit_vector)
            requires
                off < 8,
                off2 < 8,
        ;
    } else {
        assert(((0x80u8 >> off2) & ((!(0x80u8 >> off) & b) | (0u8 << ((7 - off) as u8))) != 0u8) == (
        if off2 == off {
            false
        } else {
            (0x80u8 >> off2) & b != 0u8
        })) by (bit_vector)
            requires
                off < 8,
                off2 < 8,
        ;
    }
}

/// Fixed-length set of flags (one per piece), packed most significant bit first.
#[derive(Debug, Clone)]
pub struct Bitmap {
    data: Vec<u8>,
    len: usize,
}

/// `replace_data` was given a byte count different from the bitmap's own.
#[derive(Debug, Clone, Copy, PartialEq, Eq)]
pub struct LengthMismatch {
    pub old: usize,
    pub new: usize,
}

impl Bitmap {
    /// The packed bytes.
    pub closed spec fn bytes(self) -> Seq<u8> {
        self.data@
    }

    /// Number of flags.
    pub closed spec fn spec_len(self) -> nat {
        self.len as nat
    }

    /// The flags, in order.
    pub open spec fn view(self) -> Seq<bool> {
        bits_of(self.bytes(), self.spec_len() as int)
    }

    /// What every bitmap satisfies: at least one flag, and exactly enough bytes for them.
    pub open spec fn wf(self) -> bool {
        &&& self.spec_len() >= 1
        &&& self.bytes().len() == bytes_for_bits(self.spec_len() as int)
    }

    /// A bitmap of `len` cleared flags.
    pub fn new(len: usize) -> (r: Self)
        requires
            len >= 1,
        ensures
            r.spec_len() == len,
            r.wf(),
            r.bytes() == Seq::new(bytes_for_bits(len as int) as nat, |i: int| 0u8),
    {
        let number_of_bytes_needed = 1 + (len - 1) / 8;
        let data = vec![0u8; number_of_bytes_needed];
        assert(data@ == Seq::new(bytes_for_bits(len as int) as nat, |i: int| 0u8));
        Self { data, len }
    }

    pub fn len(&self) -> (r: usize)
        requires
            self.wf(),
        ensures
            r == self.spec_len(),
            self.wf(),
    {

        self.len
    }

    /// The packed bytes.
    pub fn data(&self) -> (r: &Vec<u8>)
        requires
            self.wf(),
        ensures
            r@ == self.bytes(),
            self.wf(),
    {

        &self.data
    }

    /// Overwrites all bytes; refused when the byte count differs.
    pub fn replace_data(&mut self, new_data: &[u8]) -> (r: Result<(), LengthMismatch>)
        requires
            old(self).wf(),
        ensures
            final(self).wf(),
            final(self).spec_len() == old(self).spec_len(),
            r is Ok <==> new_data@.len() == old(self).bytes().len(),
            r is Ok ==> final(self).bytes() == new_data@,
            r is Err ==> final(self).bytes() == old(self).bytes(),
            r matches Err(e) ==> e.old == old(self).bytes().len() && e.new == new_data@.len(),
    {
        if new_data.len() != self.data.len() {
            return Err(LengthMismatch { old: self.data.len(), new: new_data.len() });
        }
        let mut i: usize = 0;
        while i < new_data.len()
            invariant
                self.len == old(self).len,
                self.data@.len() == new_data@.len(),
                self.data@.len() == old(self).data@.len(),
                0 <= i <= new_data@.len(),
                forall|j: int| 0 <= j < i ==> self.data@[j] == new_data@[j],
            decreases new_data@.len() - i,
        {
            self.data.set(i, new_data[i]);
            i += 1;
        }
        assert(self.data@ =~= new_data@);
        Ok(())
    }

    /// Bit `i`; any index inside the packed bytes may be read.
    pub fn get(&self, i: usize) -> (r: bool)
        requires
            i / 8 < self.bytes().len(),
        ensures
            r == bit_at(self.bytes(), i as int),
    {
        let byte_idx = i / 8;
        let bit_offset = (i % 8) as u8;
        let bit_getter = 0b1000_0000u8 >> bit_offset;
        bit_getter & self.data[byte_idx] > 0
    }

    /// Sets bit `idx` to `val` and returns its previous value.
    pub fn change(&mut self, idx: usize, val: bool) -> (r: bool)
        requires
            old(self).wf(),
            idx / 8 < old(self).bytes().len(),
        ensures
            final(self).wf(),
            r == bit_at(old(self).bytes(), idx as int),
            final(self).spec_len() == old(self).spec_len(),
            final(self).bytes() == old(self).bytes().update(
                idx as int / 8,
                with_bit(old(self).bytes()[idx as int / 8], (idx % 8) as u8, val),
            ),
            forall|j: int|
                0 <= j < 8 * old(self).bytes().len() ==> #[trigger] bit_at(final(self).bytes(), j)
                    == if j == idx {
                    val
                } else {
                    bit_at(old(self).bytes(), j)
                },
    {
        let byte_idx = idx / 8;
        let bit_offset = (idx % 8) as u8;
        let bit_getter = 0b1000_0000u8 >> bit_offset;
        let old_byte = self.data[byte_idx];
        let bit_val = bit_getter & old_byte;
        let bit_clearer = !bit_getter;
        let byte_without_target_bit = bit_clearer & old_byte;
        let bit_setter = (if val {
            1u8
        } else {
            0u8
        }) << (7 - bit_offset);
        let new_byte = byte_without_target_bit | bit_setter;
        assert(new_byte == with_bit(old_byte, bit_offset, val));
        self.data.set(byte_idx, new_byte);
        proof {
            assert forall|j: int| 0 <= j < 8 * old(self).bytes().len() implies #[trigger] bit_at(
                self.data@,
                j,
            ) == if j == idx {
                val
            } else {
                bit_at(old(self).bytes(), j)
            } by {
                if j / 8 == byte_idx {
                    lemma_with_bit(old_byte, bit_offset, val, (j % 8) as u8);
                }
            }
        }
        bit_val > 0
    }

    /// Number of set bits in the packed bytes.
    pub fn weight(&self) -> (r: usize)
        requires
            self.wf(),
            popcount_seq(self.bytes()) <= u32::MAX,
        ensures
            r == popcount_seq(self.bytes()),
    {

        let mut sum: usize = 0;
        let mut i: usize = 0;
        while i < self.data.len()
            invariant
                0 <= i <= self.data@.len(),
                sum == popcount_seq(self.data@.take(i as int)),
                popcount_seq(self.data@) <= u32::MAX,
            decreases self.data@.len() - i,
        {
            proof {
                assert(self.data@.take(i + 1).drop_last() == self.data@.take(i as int));
                lemma_popcount_take_mono(self.data@, i + 1);
            }
            let c = count_ones_byte(self.data[i]);
            sum = sum + c as usize;
            i += 1;
        }
        assert(self.data@.take(i as int) == self.data@);
        sum
    }

    /// An iterator over the flags in order.
    pub fn iter(&self) -> (r: Iter<'_>)
        requires
            self.wf(),
        ensures
            r.source() == *self,
            r.position() == 0,
    {
        Iter { data: self, cur_idx: 0, cur_byte: 0 }
    }
}

pub proof fn lemma_popcount8_bound(b: u8)
    ensures
        popcount8(b) <= 8,
{
    assert(((b & 1u8) + ((b >> 1u8) & 1u8) + ((b >> 2u8) & 1u8) + ((b >> 3u8) & 1u8) + ((b >> 4u8)
        & 1u8) + ((b >> 5u8) & 1u8) + ((b >> 6u8) & 1u8) + ((b >> 7u8) & 1u8)) <= 8) by (bit_vector);
}

pub proof fn lemma_popcount_take_mono(s: Seq<u8>, i: int)
    requires
        0 <= i <= s.len(),
    ensures
        popcount_seq(s.take(i)) <= popcount_seq(s),
    decreases s.len() - i,
{
    if i < s.len() {
        lemma_popcount_take_mono(s, i + 1);
        assert(s.take(i + 1).drop_last() == s.take(i));
    } else {
        assert(s.take(i) == s);
    }
}

pub proof fn lemma_popcount_seq_bound(data: Seq<u8>)
    ensures
        popcount_seq(data) <= 8 * data.len(),
    decreases data.len(),
{
    if data.len() > 0 {
        lemma_popcount_seq_bound(data.drop_last());
        lemma_popcount8_bound(data.last());
    }
}

/// One for a set flag, zero for a cleared one.
pub open spec fn flag_count(v: bool) -> int {
    if v {
        1
    } else {
        0
    }
}

/// Setting bit `off` of a byte to `v` changes its number of set bits by what the bit was and
/// what it becomes.
proof fn lemma_popcount8_with_bit(b: u8, off: u8, v: bool)
    requires
        off < 8,
    ensures
        popcount8(with_bit(b, off, v)) == popcount8(b) - flag_count((0x80u8 >> off) & b != 0u8)
            + flag_count(v),
{
    if v {
        assert(((!(0x80u8 >> off) & b) | (1u8 << ((7 - off) as u8))) == with_bit(b, off, v));
        let nb = (!(0x80u8 >> off) & b) | (1u8 << ((7 - off) as u8));
        if (0x80u8 >> off) & b != 0u8 {
            assert(nb == b) by (bit_vector)
                requires
                    off < 8,
                    nb == (!(0x80u8 >> off) & b) | (1u8 << ((7 - off) as u8)),
                    (0x80u8 >> off) & b != 0u8,
            ;
        } else {
            assert(((nb & 1u8) + ((nb >> 1u8) & 1u8) + ((nb >> 2u8) & 1u8) + ((nb >> 3u8) & 1u8) + ((nb >> 4u8)
                & 1u8) + ((nb >> 5u8) & 1u8) + ((nb >> 6u8) & 1u8) + ((nb >> 7u8) & 1u8)) == ((b & 1u8) + ((b >> 1u8) & 1u8) + ((b >> 2u8) & 1u8) + ((b >> 3u8) & 1u8) + ((b >> 4u8)
                & 1u8) + ((b >> 5u8) & 1u8) + ((b >> 6u8) & 1u8) + ((b >> 7u8) & 1u8)) + 1) by (bit_vector)
                requires
                    off < 8,
                    nb == (!(0x80u8 >> off) & b) | (1u8 << ((7 - off) as u8)),
                    (0x80u8 >> off) & b == 0u8,
            ;
        }
    } else {
        assert(((!(0x80u8 >> off) & b) | (0u8 << ((7 - off) as u8))) == with_bit(b, off, v));
        let nb = (!(0x80u8 >> off) & b) | (0u8 << ((7 - off) as u8));
        if (0x80u8 >> off) & b != 0u8 {
            assert(((nb & 1u8) + ((nb >> 1u8) & 1u8) + ((nb >> 2u8) & 1u8) + ((nb >> 3u8) & 1u8) + ((nb >> 4u8)
                & 1u8) + ((nb >> 5u8) & 1u8) + ((nb >> 6u8) & 1u8) + ((nb >> 7u8) & 1u8)) + 1 == ((b & 1u8) + ((b >> 1u8) & 1u8) + ((b >> 2u8) & 1u8) + ((b >> 3u8) & 1u8) + ((b >> 4u8)
                & 1u8) + ((b >> 5u8) & 1u8) + ((b >> 6u8) & 1u8) + ((b >> 7u8) & 1u8))) by (bit_vector)
                requires
                    off < 8,
                    nb == (!(0x80u8 >> off) & b) | (0u8 << ((7 - off) as u8)),
                    (0x80u8 >> off) & b != 0u8,
            ;
        } else {
            assert(nb == b) by (bit_vector)
                requires
                    off < 8,
                    nb == (!(0x80u8 >> off) & b) | (0u8 << ((7 - off) as u8)),
                    (0x80u8 >> off) & b == 0u8,
            ;
        }
    }
}

/// Replacing one byte changes the number of set bits by the difference of the two bytes'.
proof fn lemma_popcount_update(s: Seq<u8>, k: int, nb: u8)
    requires
        0 <= k < s.len(),
    ensures
        popcount_seq(s.update(k, nb)) == popcount_seq(s) - popcount8(s[k]) + popcount8(nb),
    decreases s.len(),
{
    let t = s.update(k, nb);
    if k == s.len() - 1 {
        assert(t.drop_last() == s.drop_last());
    } else {
        lemma_popcount_update(s.drop_last(), k, nb);
        assert(t.drop_last() == s.drop_last().update(k, nb));
    }
}

/// The flags of a bitmap are its bits in order, each readable with `get`: walking the bitmap
/// with its iterator, which hands out the flags `self@` one by one, gives exactly
/// `spec_len()` of them, and the one at position `i` is what `get(i)` returns.
pub proof fn lemma_iteration_agrees_with_get(b: Bitmap, i: int)
    requires
        b.wf(),
        0 <= i < b.spec_len(),
    ensures
        b@.len() == b.spec_len(),
        i / 8 < b.bytes().len(),
        b@[i] == bit_at(b.bytes(), i),
{
}

/// Changing flag `idx` of a bitmap to `val`: `change` turns `before` into a bitmap
/// `after` of the same length whose bytes are those of `before` with that flag's byte
/// updated. Then `after` reads `val` at `idx` and the old flags everywhere else, and its
/// weight (what `weight` counts) moves by what the flag was and what it becomes: up by one
/// when a cleared flag is set, down by one when a set flag is cleared, unchanged otherwise.
pub proof fn lemma_change_weight(before: Bitmap, after: Bitmap, idx: int, val: bool)
    requires
        before.wf(),
        0 <= idx < before.spec_len(),
        after.spec_len() == before.spec_len(),
        after.bytes() == before.bytes().update(
            idx / 8,
            with_bit(before.bytes()[idx / 8], (idx % 8) as u8, val),
        ),
    ensures
        after.wf(),
        after@[idx] == val,
        forall|j: int| 0 <= j < before.spec_len() && j != idx ==> #[trigger] after@[j] == before@[j],
        popcount_seq(after.bytes()) == popcount_seq(before.bytes()) - flag_count(before@[idx])
            + flag_count(val),
{
    let k = idx / 8;
    let off = (idx % 8) as u8;
    let old_byte = before.bytes()[k];
    lemma_popcount8_with_bit(old_byte, off, val);
    lemma_popcount_update(before.bytes(), k, with_bit(old_byte, off, val));
    lemma_with_bit(old_byte, off, val, off);
    assert forall|j: int| 0 <= j < before.spec_len() && j != idx implies #[trigger] after@[j]
        == before@[j] by {
        if j / 8 == k {
            lemma_with_bit(old_byte, off, val, (j % 8) as u8);
        }
    }
}

/// Walks a bitmap's flags from the first to the last.
pub struct Iter<'a> {
    data: &'a Bitmap,
    cur_idx: usize,
    cur_byte: u8,
}

impl<'a> Iter<'a> {
    #[verifier::type_invariant]
    spec fn inv(self) -> bool {
        &&& self.cur_idx <= self.data.len
        &&& self.data.len >= 1
        &&& self.data.data@.len() == bytes_for_bits(self.data.len as int)
        &&& self.cur_idx % 8 != 0 ==> self.cur_byte == self.data.data@[self.cur_idx as int / 8]
            << ((self.cur_idx % 8) as u8)
    }

    /// The bitmap being walked.
    pub closed spec fn source(self) -> Bitmap {
        *self.data
    }

    /// Number of flags already returned.
    pub closed spec fn position(self) -> nat {
        self.cur_idx as nat
    }

    /// The next flag, or `None` once all have been returned.
    pub fn next(&mut self) -> (r: Option<bool>)
        ensures
            final(self).source() == old(self).source(),
            old(self).position() < old(self).source().spec_len() ==> r == Some(
                old(self).source()@[old(self).position() as int],
            ) && final(self).position() == old(self).position() + 1,
            old(self).position() >= old(self).source().spec_len() ==> r is None
                && final(self).position() == old(self).position(),
    {
        proof {
            use_type_invariant(&*self);
        }
        if self.cur_idx == self.data.len {
            return None;
        }
        let cur_byte = if self.cur_idx % 8 == 0 {
            self.data.data[self.cur_idx / 8]
        } else {
            self.cur_byte
        };
        let ghost idx = self.cur_idx as int;
        let ghost byte = self.data.data@[idx / 8];
        let ghost k = (idx % 8) as u8;
        proof {
            assert(cur_byte == byte << k) by {
                if k == 0 {
                    assert(byte << 0u8 == byte) by (bit_vector);
                }
            }
            lemma_shifted_byte(byte, k);
        }
        let rv = 0b1000_0000u8 & cur_byte > 0;
        proof {
            if k < 7 {
                lemma_shift_step(byte, k);
            }
        }
        *self = Iter { data: self.data, cur_idx: self.cur_idx + 1, cur_byte: cur_byte << 1u8 };
        Some(rv)
    }
}

proof fn lemma_shifted_byte(b: u8, k: u8)
    requires
        k < 8,
    ensures
        ((0x80u8 & (b << k)) != 0u8) == ((0x80u8 >> k) & b != 0u8),
{
    assert(((0x80u8 & (b << k)) != 0u8) == ((0x80u8 >> k) & b != 0u8)) by (bit_vector)
        requires
            k < 8,
    ;
}

proof fn lemma_shift_step(b: u8, k: u8)
    requires
        k < 7,
    ensures
        (b << k) << 1u8 == b << ((k + 1) as u8),
{
    assert((b << k) << 1u8 == b << ((k + 1) as u8)) by (bit_vector)
        requires
            k < 7,
    ;
}

} // verus!
