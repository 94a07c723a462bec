use vstd::prelude::*;

use crate::bitmap::DoubleBitmap256;

verus! {

/// The width of a packed integer: 1, 2, 4 or 8 bytes.
#[derive(Clone, Copy, PartialEq, Eq, Structural, Debug, Hash)]
pub enum WordTy {
    Word1,
    Word2,
    Word4,
    Word8,
}

impl WordTy {
    pub open spec fn spec_len(self) -> nat {
        match self {
            WordTy::Word1 => 1,
            WordTy::Word2 => 2,
            WordTy::Word4 => 4,
            WordTy::Word8 => 8,
        }
    }

    /// The largest value that this width holds.
    pub open spec fn max_value(self) -> u64 {
        match self {
            WordTy::Word1 => 0xff,
            WordTy::Word2 => 0xffff,
            WordTy::Word4 => 0xffff_ffff,
            WordTy::Word8 => u64::MAX,
        }
    }

    /// The two-bit code of this width in a `WordTy256`.
    pub open spec fn code(self) -> u8 {
        match self {
            WordTy::Word1 => 0,
            WordTy::Word2 => 1,
            WordTy::Word4 => 2,
            WordTy::Word8 => 3,
        }
    }

    /// The width in bytes.
    pub fn len(&self) -> (r: usize)
        ensures
            r == self.spec_len(),
    {
        match self {
            WordTy::Word1 => 1,
            WordTy::Word2 => 2,
            WordTy::Word4 => 4,
            WordTy::Word8 => 8,
        }
    }

    /// A label for a packed slice of this width.
    pub fn slice_name(&self) -> (r: &'static str)
        ensures
            r@ == wordty_slice_name(*self),
    {
        match self {
            WordTy::Word1 => "word1_slice",
            WordTy::Word2 => "word2_slice",
            WordTy::Word4 => "word4_slice",
            WordTy::Word8 => "word8_slice",
        }
    }

    /// The frame of reference of `vals`: their minimum as unsigned integers
    /// (0 when there are none), and the narrowest width that holds every
    /// value minus that minimum.
    pub fn select_min_and_ty(vals: &[i64]) -> (r: (u64, WordTy))
        ensures
            r.0 == min_as_unsigned(vals@),
            fits_width(vals@, r.0, r.1),
            forall|w: WordTy| w.spec_len() < r.1.spec_len() ==> !fits_width(vals@, r.0, w),
            r.1 == narrowest_width(vals@, r.0),
    {
        let mut min: u64 = 0;
        let mut i: usize = 0;
        while i < vals.len()
            invariant
                i <= vals@.len(),
                i > 0 ==> min == min_as_unsigned(vals@.subrange(0, i as int)),
                i == 0 ==> min == 0,
            decreases vals@.len() - i,
        {
            proof {
                assert(vals@.subrange(0, i + 1).drop_last() =~= vals@.subrange(0, i as int));
            }
            let x = vals[i] as u64;
            if i == 0 || x < min {
                min = x;
            }
            i = i + 1;
        }
        proof {
            assert(vals@.subrange(0, vals@.len() as int) =~= vals@);
            lemma_min_as_unsigned_bound(vals@);
        }
        let mut accum: u64 = 0;
        let mut j: usize = 0;
        while j < vals.len()
            invariant
                j <= vals@.len(),
                min == min_as_unsigned(vals@),
                forall|k: int| 0 <= k < vals@.len() ==> min <= #[trigger] (vals@[k] as u64),
                forall|w: WordTy|
                    #![trigger w.max_value()]
                    accum <= w.max_value() <==> forall|k: int|
                        0 <= k < j ==> #[trigger] (vals@[k] as u64) - min <= w.max_value(),
            decreases vals@.len() - j,
        {
            let d: u64 = vals[j] as u64 - min;
            let ghost prev = accum;
            accum = accum | d;
            proof {
                assert forall|w: WordTy| #![trigger w.max_value()]
                    accum <= w.max_value() <==> forall|k: int|
                        0 <= k < j + 1 ==> #[trigger] (vals@[k] as u64) - min <= w.max_value() by {
                    lemma_or_bound(prev, d, w.max_value());
                    if accum <= w.max_value() {
                        assert forall|k: int| 0 <= k < j + 1 implies #[trigger] (vals@[k] as u64)
                            - min <= w.max_value() by {
                            if k < j {
                            }
                        }
                    }
                }
            }
            j = j + 1;
        }
        let ty = if accum <= 0xff {
            WordTy::Word1
        } else if accum <= 0xffff {
            WordTy::Word2
        } else if accum <= 0xffff_ffff {
            WordTy::Word4
        } else {
            WordTy::Word8
        };
        proof {
            assert(accum <= WordTy::Word8.max_value());
            assert forall|w: WordTy| w.spec_len() < ty.spec_len() implies !fits_width(
                vals@,
                min,
                w,
            ) by {
                assert(!(accum <= w.max_value()));
            }
        }
        proof {
            if !fits_width(vals@, min, WordTy::Word1) {
                assert(WordTy::Word1.spec_len() >= ty.spec_len() ==> ty == WordTy::Word1);
            }
        }
        (min, ty)
    }
}

pub open spec fn wordty_slice_name(w: WordTy) -> Seq<char> {
    match w {
        WordTy::Word1 => "word1_slice"@,
        WordTy::Word2 => "word2_slice"@,
        WordTy::Word4 => "word4_slice"@,
        WordTy::Word8 => "word8_slice"@,
    }
}

/// The narrowest width that holds every value of `s` minus `min`.
pub open spec fn narrowest_width(s: Seq<i64>, min: u64) -> WordTy {
    if fits_width(s, min, WordTy::Word1) {
        WordTy::Word1
    } else if fits_width(s, min, WordTy::Word2) {
        WordTy::Word2
    } else if fits_width(s, min, WordTy::Word4) {
        WordTy::Word4
    } else {
        WordTy::Word8
    }
}

/// The least of `s` read as unsigned integers; 0 for an empty sequence.
pub open spec fn min_as_unsigned(s: Seq<i64>) -> u64
    decreases s.len(),
{
    if s.len() == 0 {
        0
    } else if s.len() == 1 {
        s[0] as u64
    } else {
        let m = min_as_unsigned(s.drop_last());
        if (s.last() as u64) < m {
            s.last() as u64
        } else {
            m
        }
    }
}

/// Every value of `s` minus `min`, as unsigned integers, fits in width `w`.
pub open spec fn fits_width(s: Seq<i64>, min: u64, w: WordTy) -> bool {
    forall|k: int| 0 <= k < s.len() ==> #[trigger] (s[k] as u64) - min <= w.max_value()
}

pub proof fn lemma_min_as_unsigned_bound(s: Seq<i64>)
    ensures
        forall|k: int| 0 <= k < s.len() ==> min_as_unsigned(s) <= #[trigger] (s[k] as u64),
    decreases s.len(),
{
    if s.len() > 1 {
        lemma_min_as_unsigned_bound(s.drop_last());
        assert forall|k: int| 0 <= k < s.len() implies min_as_unsigned(s) <= #[trigger] (
        s[k] as u64) by {
            if k < s.len() - 1 {
                assert(s[k] == s.drop_last()[k]);
            }
        }
    }
}

proof fn lemma_or_bound(a: u64, b: u64, m: u64)
    requires
        m == 0xff || m == 0xffff || m == 0xffff_ffff || m == u64::MAX,
    ensures
        (a | b) <= m <==> (a <= m && b <= m),
{
    assert((a | b) <= m <==> (a <= m && b <= m)) by (bit_vector)
        requires
            m == 0xff || m == 0xffff || m == 0xffff_ffff || m == u64::MAX,
    ;
}

/// A width for each of 256 chunks, two bits apiece.
#[derive(Clone, Copy, PartialEq, Eq, Debug, Hash, Default)]
pub struct WordTy256 {
    pub bitmaps: DoubleBitmap256,
}

/// The width that a two-bit code stands for.
pub open spec fn wordty_of_code(c: u8) -> WordTy {
    if c == 0 {
        WordTy::Word1
    } else if c == 1 {
        WordTy::Word2
    } else if c == 2 {
        WordTy::Word4
    } else {
        WordTy::Word8
    }
}

impl View for WordTy256 {
    type V = Seq<WordTy>;

    open spec fn view(&self) -> Seq<WordTy> {
        Seq::new(256, |i: int| wordty_of_code(self.bitmaps@[i]))
    }
}

impl WordTy256 {
    /// Every chunk one byte wide.
    pub fn new() -> (r: Self)
        ensures
            r@ == Seq::new(256, |i: int| WordTy::Word1),
    {
        let r = WordTy256 { bitmaps: DoubleBitmap256::new() };
        assert(r@ =~= Seq::new(256, |i: int| WordTy::Word1));
        r
    }

    /// The width of chunk `i`.
    pub fn get_word_ty(&self, i: u8) -> (r: WordTy)
        ensures
            r == self@[i as int],
    {
        let c = self.bitmaps.get(i);
        if c == 0 {
            WordTy::Word1
        } else if c == 1 {
            WordTy::Word2
        } else if c == 2 {
            WordTy::Word4
        } else {
            WordTy::Word8
        }
    }

    /// Records `ty` as the width of chunk `i`.
    pub fn set_word_ty(&mut self, i: u8, ty: WordTy)
        ensures
            final(self)@ == old(self)@.update(i as int, ty),
    {
        let c: u8 = match ty {
            WordTy::Word1 => 0,
            WordTy::Word2 => 1,
            WordTy::Word4 => 2,
            WordTy::Word8 => 3,
        };
        self.bitmaps.set(i, c);
        assert(self@ =~= old(self)@.update(i as int, ty));
    }
}

} // verus!
