use vstd::prelude::*;

use crate::bitmap::{word_bit, Bitmap256, DoubleBitmap256};
use crate::error::Error;
use crate::io::{le_u64_of, le_u64s, MemReader, MemWriter};
use crate::wordty::WordTy256;

verus! {

/// A bitmap on disk: its four words, little-endian.
pub open spec fn bitmap_bytes(b: Bitmap256) -> Seq<u8> {
    le_u64s(b.bits@, 8)
}

/// A double bitmap on disk: the low plane, then the high plane.
pub open spec fn double_bitmap_bytes(d: DoubleBitmap256) -> Seq<u8> {
    bitmap_bytes(d.lo) + bitmap_bytes(d.hi)
}

/// The bitmap whose four little-endian words stand at position `p` of
/// `content`.
pub open spec fn bitmap_view_at(content: Seq<u8>, p: int) -> Seq<bool> {
    Seq::new(256, |i: int| word_bit(le_u64_of(content.subrange(p + 8 * (i / 64), p + 8 * (i / 64) + 8)), i % 64))
}

pub open spec fn wordty256_bytes(w: WordTy256) -> Seq<u8> {
    double_bitmap_bytes(w.bitmaps)
}

impl Bitmap256 {
    /// Writes the bitmap as four little-endian words.
    pub fn write_annotated(&self, name: &str, wr: &mut MemWriter)
        ensures
            final(wr)@ == old(wr)@ + bitmap_bytes(*self),
    {
        wr.push_context(name);
        wr.write_annotated_le_u64_slice("bitmap", self.bits.as_slice());
        wr.pop_context();
    }

    /// Reads a bitmap written by `write_annotated`.
    pub fn read(rd: &mut MemReader) -> (r: Result<Bitmap256, Error>)
        ensures
            final(rd).content() == old(rd).content(),
            r is Ok <==> old(rd).position() + 32 <= old(rd).content().len(),
            r matches Ok(b) ==> bitmap_bytes(b) == old(rd).content().subrange(
                old(rd).position(),
                old(rd).position() + 32,
            ) && final(rd).position() == old(rd).position() + 32,
            r matches Ok(b) ==> b@ == bitmap_view_at(old(rd).content(), old(rd).position()),
            r matches Err(e) ==> e == Error::UnexpectedEof,
    {
        let v = rd.read_le_u64_vec(4)?;
        let b = Bitmap256 { bits: [v[0], v[1], v[2], v[3]] };
        assert(b.bits@ =~= v@);
        proof {
            let c = old(rd).content();
            let p = old(rd).position();
            assert forall|i: int| 0 <= i < 256 implies #[trigger] b@[i] == bitmap_view_at(c, p)[i] by {
                let k = i / 64;
                assert(0 <= k < 4);
                assert(b.bits@[k] == v@[k]);
            }
            assert(b@ =~= bitmap_view_at(c, p));
        }
        Ok(b)
    }
}

impl DoubleBitmap256 {
    /// Writes the low plane, then the high plane.
    pub fn write_annotated(&self, name: &str, wr: &mut MemWriter)
        ensures
            final(wr)@ == old(wr)@ + double_bitmap_bytes(*self),
    {
        wr.push_context(name);
        self.lo.write_annotated("lo", wr);
        self.hi.write_annotated("hi", wr);
        wr.pop_context();
        assert(wr@ =~= old(wr)@ + double_bitmap_bytes(*self));
    }

    /// Reads a double bitmap written by `write_annotated`.
    pub fn read(rd: &mut MemReader) -> (r: Result<DoubleBitmap256, Error>)
        ensures
            final(rd).content() == old(rd).content(),
            r is Ok <==> old(rd).position() + 64 <= old(rd).content().len(),
            r matches Ok(d) ==> double_bitmap_bytes(d) == old(rd).content().subrange(
                old(rd).position(),
                old(rd).position() + 64,
            ) && final(rd).position() == old(rd).position() + 64,
            r matches Err(e) ==> e == Error::UnexpectedEof,
    {
        let ghost c = rd.content();
        let ghost p = rd.position();
        let lo = Bitmap256::read(rd)?;
        let hi = Bitmap256::read(rd)?;
        proof {
            old(rd).lemma_position_nonneg();
        }
        assert(c.subrange(p, p + 64) =~= c.subrange(p, p + 32) + c.subrange(p + 32, p + 64));
        Ok(DoubleBitmap256 { lo, hi })
    }
}

impl WordTy256 {
    /// Writes the widths as a double bitmap.
    pub fn write_annotated(&self, name: &str, wr: &mut MemWriter)
        ensures
            final(wr)@ == old(wr)@ + wordty256_bytes(*self),
    {
        self.bitmaps.write_annotated(name, wr);
    }

    /// Reads widths written by `write_annotated`.
    pub fn read(rd: &mut MemReader) -> (r: Result<WordTy256, Error>)
        ensures
            final(rd).content() == old(rd).content(),
            r is Ok <==> old(rd).position() + 64 <= old(rd).content().len(),
            r matches Ok(w) ==> wordty256_bytes(w) == old(rd).content().subrange(
                old(rd).position(),
                old(rd).position() + 64,
            ) && final(rd).position() == old(rd).position() + 64,
            r matches Err(e) ==> e == Error::UnexpectedEof,
    {
        let bitmaps = DoubleBitmap256::read(rd)?;
        Ok(WordTy256 { bitmaps })
    }
}

} // verus!
