use vstd::prelude::*;

verus! {

/// Whether bit `k` (counted from the least significant) of `w` is set.
pub open spec fn word_bit(w: u64, k: int) -> bool {
    w & (1u64 << (k as u64)) != 0
}

/// The number of `true` entries of `s`.
pub open spec fn count_true(s: Seq<bool>) -> nat
    decreases s.len(),
{
    if s.len() == 0 {
        0
    } else {
        count_true(s.drop_last()) + if s.last() { 1nat } else { 0nat }
    }
}

proof fn lemma_bit_set(w: u64, k: u64, j: u64)
    requires
        k < 64,
        j < 64,
    ensures
        (w | (1u64 << k)) & (1u64 << j) != 0 <==> (j == k || w & (1u64 << j) != 0),
        (w & !(1u64 << k)) & (1u64 << j) != 0 <==> (j != k && w & (1u64 << j) != 0),
{
    assert((w | (1u64 << k)) & (1u64 << j) != 0 <==> (j == k || w & (1u64 << j) != 0))
        by (bit_vector)
        requires
            k < 64,
            j < 64,
    ;
    assert((w & !(1u64 << k)) & (1u64 << j) != 0 <==> (j != k && w & (1u64 << j) != 0))
        by (bit_vector)
        requires
            k < 64,
            j < 64,
    ;
}

proof fn lemma_bit_ops(a: u64, b: u64, j: u64)
    requires
        j < 64,
    ensures
        (a | b) & (1u64 << j) != 0 <==> (a & (1u64 << j) != 0 || b & (1u64 << j) != 0),
        (a & b) & (1u64 << j) != 0 <==> (a & (1u64 << j) != 0 && b & (1u64 << j) != 0),
        (a & !b) & (1u64 << j) != 0 <==> (a & (1u64 << j) != 0 && b & (1u64 << j) == 0),
        u64::MAX & (1u64 << j) != 0,
        0u64 & (1u64 << j) == 0,
{
    assert((a | b) & (1u64 << j) != 0 <==> (a & (1u64 << j) != 0 || b & (1u64 << j) != 0))
        by (bit_vector)
        requires
            j < 64,
    ;
    assert((a & b) & (1u64 << j) != 0 <==> (a & (1u64 << j) != 0 && b & (1u64 << j) != 0))
        by (bit_vector)
        requires
            j < 64,
    ;
    assert((a & !b) & (1u64 << j) != 0 <==> (a & (1u64 << j) != 0 && b & (1u64 << j) == 0))
        by (bit_vector)
        requires
            j < 64,
    ;
    assert(u64::MAX & (1u64 << j) != 0) by (bit_vector)
        requires
            j < 64,
    ;
    assert(0u64 & (1u64 << j) == 0) by (bit_vector);
}

/// A fixed set of 256 bits, held in four 64-bit words: bit `i` is bit
/// `i % 64` of word `i / 64`.
#[derive(Clone, Copy, PartialEq, Eq, Debug, Hash, Default)]
pub struct Bitmap256 {
    pub bits: [u64; 4],
}

impl View for Bitmap256 {
    type V = Seq<bool>;

    open spec fn view(&self) -> Seq<bool> {
        Seq::new(256, |i: int| word_bit(self.bits[i / 64], i % 64))
    }
}

impl Bitmap256 {
    /// A bitmap with every bit clear.
    pub fn new() -> (r: Self)
        ensures
            r@ == Seq::new(256, |i: int| false),
    {
        let r = Bitmap256 { bits: [0u64; 4] };
        assert forall|i: int| 0 <= i < 256 implies !#[trigger] r@[i] by {
            lemma_bit_ops(0, 0, (i % 64) as u64);
        }
        assert(r@ =~= Seq::new(256, |i: int| false));
        r
    }

    /// Sets bit `i` to `val`.
    pub fn set(&mut self, i: u8, val: bool)
        ensures
            final(self)@ == old(self)@.update(i as int, val),
    {
        let w: usize = (i as usize) / 64;
        let k: u64 = (i as u64) % 64;
        let old_word = self.bits[w];
        let new_word = if val {
            old_word | (1u64 << k)
        } else {
            old_word & !(1u64 << k)
        };
        self.bits[w] = new_word;
        assert forall|j: int| 0 <= j < 256 implies final(self)@[j] == old(self)@.update(
            i as int,
            val,
        )[j] by {
            if j / 64 == w as int {
                lemma_bit_set(old_word, k, (j % 64) as u64);
            }
        }
        assert(self@ =~= old(self)@.update(i as int, val));
    }

    /// Whether bit `i` is set.
    pub fn get(&self, i: u8) -> (r: bool)
        ensures
            r == self@[i as int],
    {
        let w: usize = (i as usize) / 64;
        let k: u64 = (i as u64) % 64;
        (self.bits[w] & (1u64 << k)) != 0
    }
    /// Sets every bit.
    pub fn set_all(&mut self)
        ensures
            final(self)@ == Seq::new(256, |i: int| true),
    {
        self.bits = [u64::MAX; 4];
        assert forall|i: int| 0 <= i < 256 implies #[trigger] self@[i] by {
            lemma_bit_ops(0, 0, (i % 64) as u64);
        }
        assert(self@ =~= Seq::new(256, |i: int| true));
    }

    /// Clears every bit.
    pub fn clear_all(&mut self)
        ensures
            final(self)@ == Seq::new(256, |i: int| false),
    {
        self.bits = [0u64; 4];
        assert forall|i: int| 0 <= i < 256 implies !#[trigger] self@[i] by {
            lemma_bit_ops(0, 0, (i % 64) as u64);
        }
        assert(self@ =~= Seq::new(256, |i: int| false));
    }

    /// The number of set bits.
    pub fn count(&self) -> (r: u32)
        ensures
            r == count_true(self@),
    {
        let mut c: u32 = 0;
        let mut i: usize = 0;
        while i < 256
            invariant
                i <= 256,
                c == count_true(self@.subrange(0, i as int)),
                c <= i,
            decreases 256 - i,
        {
            proof {
                assert(self@.subrange(0, i + 1).drop_last() =~= self@.subrange(0, i as int));
            }
            if self.get(i as u8) {
                c = c + 1;
            }
            i = i + 1;
        }
        assert(self@.subrange(0, 256) =~= self@);
        c
    }

    /// The number of set bits at positions `0..=i`; 256 when every bit is set
    /// and `i` is 255.
    pub fn rank(&self, i: u8) -> (r: usize)
        ensures
            r == count_true(self@.subrange(0, i as int + 1)),
    {
        let mut c: usize = 0;
        let mut k: usize = 0;
        while k <= i as usize
            invariant
                k <= i as usize + 1,
                c == count_true(self@.subrange(0, k as int)),
                c <= k,
            decreases i as usize + 1 - k,
        {
            proof {
                assert(self@.subrange(0, k + 1).drop_last() =~= self@.subrange(0, k as int));
            }
            if self.get(k as u8) {
                c = c + 1;
            }
            k = k + 1;
        }
        c
    }

    /// Whether no bit is set.
    pub fn is_empty(&self) -> (r: bool)
        ensures
            r == (forall|i: int| 0 <= i < 256 ==> !#[trigger] self@[i]),
    {
        let mut k: usize = 0;
        while k < 256
            invariant
                k <= 256,
                forall|i: int| 0 <= i < k ==> !#[trigger] self@[i],
            decreases 256 - k,
        {
            if self.get(k as u8) {
                return false;
            }
            k = k + 1;
        }
        true
    }

    /// Whether some bit is set.
    pub fn any(&self) -> (r: bool)
        ensures
            r == (exists|i: int| 0 <= i < 256 && #[trigger] self@[i]),
    {
        !self.is_empty()
    }

    /// Whether every bit is set.
    pub fn is_full(&self) -> (r: bool)
        ensures
            r == (forall|i: int| 0 <= i < 256 ==> #[trigger] self@[i]),
    {
        let mut k: usize = 0;
        while k < 256
            invariant
                k <= 256,
                forall|i: int| 0 <= i < k ==> #[trigger] self@[i],
            decreases 256 - k,
        {
            if !self.get(k as u8) {
                return false;
            }
            k = k + 1;
        }
        true
    }

    /// Sets every bit that is set in `other`.
    pub fn union(&mut self, other: &Self)
        ensures
            final(self)@ == Seq::new(256, |i: int| old(self)@[i] || other@[i]),
    {
        let ghost before = *self;
        self.bits[0] = self.bits[0] | other.bits[0];
        self.bits[1] = self.bits[1] | other.bits[1];
        self.bits[2] = self.bits[2] | other.bits[2];
        self.bits[3] = self.bits[3] | other.bits[3];
        assert forall|i: int| 0 <= i < 256 implies #[trigger] self@[i] == (before@[i]
            || other@[i]) by {
            lemma_bit_ops(before.bits[i / 64], other.bits[i / 64], (i % 64) as u64);
        }
        assert(self@ =~= Seq::new(256, |i: int| before@[i] || other@[i]));
    }

    /// Clears every bit that is clear in `other`.
    pub fn intersect(&mut self, other: &Self)
        ensures
            final(self)@ == Seq::new(256, |i: int| old(self)@[i] && other@[i]),
    {
        let ghost before = *self;
        self.bits[0] = self.bits[0] & other.bits[0];
        self.bits[1] = self.bits[1] & other.bits[1];
        self.bits[2] = self.bits[2] & other.bits[2];
        self.bits[3] = self.bits[3] & other.bits[3];
        assert forall|i: int| 0 <= i < 256 implies #[trigger] self@[i] == (before@[i]
            && other@[i]) by {
            lemma_bit_ops(before.bits[i / 64], other.bits[i / 64], (i % 64) as u64);
        }
        assert(self@ =~= Seq::new(256, |i: int| before@[i] && other@[i]));
    }

    /// Clears every bit that is set in `other`.
    pub fn subtract(&mut self, other: &Self)
        ensures
            final(self)@ == Seq::new(256, |i: int| old(self)@[i] && !other@[i]),
    {
        let ghost before = *self;
        self.bits[0] = self.bits[0] & !other.bits[0];
        self.bits[1] = self.bits[1] & !other.bits[1];
        self.bits[2] = self.bits[2] & !other.bits[2];
        self.bits[3] = self.bits[3] & !other.bits[3];
        assert forall|i: int| 0 <= i < 256 implies #[trigger] self@[i] == (before@[i]
            && !other@[i]) by {
            lemma_bit_ops(before.bits[i / 64], other.bits[i / 64], (i % 64) as u64);
        }
        assert(self@ =~= Seq::new(256, |i: int| before@[i] && !other@[i]));
    }
}

/// 256 two-bit values, held as a plane of low bits and a plane of high bits.
#[derive(Clone, Copy, PartialEq, Eq, Debug, Hash, Default)]
pub struct DoubleBitmap256 {
    pub lo: Bitmap256,
    pub hi: Bitmap256,
}

/// The two-bit value made of a low and a high bit.
pub open spec fn two_bit_value(lo: bool, hi: bool) -> u8 {
    ((if lo { 1int } else { 0int }) + (if hi { 2int } else { 0int })) as u8
}

impl View for DoubleBitmap256 {
    type V = Seq<u8>;

    open spec fn view(&self) -> Seq<u8> {
        Seq::new(256, |i: int| two_bit_value(self.lo@[i], self.hi@[i]))
    }
}

impl DoubleBitmap256 {
    /// Every value zero.
    pub fn new() -> (r: Self)
        ensures
            r@ == Seq::new(256, |i: int| 0u8),
    {
        let r = DoubleBitmap256 { lo: Bitmap256::new(), hi: Bitmap256::new() };
        assert(r@ =~= Seq::new(256, |i: int| 0u8));
        r
    }

    /// Sets value `i` to `val`.
    pub fn set(&mut self, i: u8, val: u8)
        requires
            val < 4,
        ensures
            final(self)@ == old(self)@.update(i as int, val),
    {
        self.lo.set(i, val & 1 != 0);
        self.hi.set(i, val & 2 != 0);
        assert(two_bit_value(val & 1 != 0, val & 2 != 0) == val) by (bit_vector)
            requires
                val < 4,
        ;
        assert(self@ =~= old(self)@.update(i as int, val));
    }

    /// Value `i`, in `0..4`.
    pub fn get(&self, i: u8) -> (r: u8)
        ensures
            r == self@[i as int],
            r < 4,
    {
        let lo: u8 = if self.lo.get(i) { 1 } else { 0 };
        let hi: u8 = if self.hi.get(i) { 2 } else { 0 };
        lo + hi
    }
}

/// The number of set entries of a prefix never exceeds that of a longer prefix.
pub proof fn lemma_count_true_prefix_monotone(s: Seq<bool>, i: int, j: int)
    requires
        0 <= i <= j <= s.len(),
    ensures
        count_true(s.subrange(0, i)) <= count_true(s.subrange(0, j)),
    decreases j - i,
{
    if i < j {
        assert(s.subrange(0, j).drop_last() =~= s.subrange(0, j - 1));
        lemma_count_true_prefix_monotone(s, i, j - 1);
    }
}

/// Setting a bit and reading it back gives the value that was set.
pub proof fn law_bitmap_set_then_get(b: Bitmap256, i: u8, val: bool)
    ensures
        b@.update(i as int, val)[i as int] == val,
{
}

/// Setting a two-bit value and reading it back gives the value that was set.
pub proof fn law_double_bitmap_set_then_get(b: DoubleBitmap256, i: u8, val: u8)
    requires
        val < 4,
    ensures
        b@.update(i as int, val)[i as int] == val,
{
}

/// `rank` is monotone in its position, and the rank of the last position is
/// the count of all set bits.
pub proof fn law_rank_monotone_and_total(b: Bitmap256, i: u8, j: u8)
    requires
        i <= j,
    ensures
        count_true(b@.subrange(0, i as int + 1)) <= count_true(b@.subrange(0, j as int + 1)),
        count_true(b@.subrange(0, 256)) == count_true(b@),
{
    lemma_count_true_prefix_monotone(b@, i as int + 1, j as int + 1);
    assert(b@.subrange(0, 256) =~= b@);
}

} // verus!
