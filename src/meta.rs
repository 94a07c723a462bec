use vstd::prelude::*;

use crate::bitmap::{count_true, Bitmap256};
use crate::codec::{bitmap_bytes, bitmap_view_at, wordty256_bytes};
use crate::error::Error;
use crate::io::{
    footer_error, footer_len_at, footer_ok, i64_at, le_bytes, le_i64s, le_u16s, le_u64s, lemma_le_prefix_step,
    lemma_le_u64_of_bytes, MemReader, MemWriter,
};
use crate::wordty::{WordTy, WordTy256};

verus! {

/// The metadata footer of an explicit track.
pub struct TrackMeta {
    /// Which code chunks are present.
    pub code_chunk_populated: Bitmap256,
    /// The number of dictionary entries.
    pub dict_entry_count: u16,
    /// The width of the values (or bin prefixes) of each dict-entry chunk.
    pub dict_val_chunk_tys: WordTy256,
    /// The width of the bin lengths of each dict-entry chunk.
    pub dict_bin_len_chunk_tys: WordTy256,
    /// Which dict-entry chunks hold a bin longer than eight bytes.
    pub dict_bin_large: Bitmap256,
    /// The width of the heap offsets of each dict-entry chunk with a large bin.
    pub dict_bin_off_tys: WordTy256,
    /// Which code chunks hold a code above 0xFF.
    pub code_chunk_two_bytes: Bitmap256,
    /// Which code chunks are run-end coded.
    pub code_chunk_run_coded: Bitmap256,
    /// The least code of each populated code chunk.
    pub code_chunk_mins: Vec<u16>,
    /// The greatest code of each populated code chunk.
    pub code_chunk_maxs: Vec<u16>,
}

/// Some bit of `b` is set.
pub open spec fn any_set(b: Bitmap256) -> bool {
    exists|i: int| 0 <= i < 256 && #[trigger] b@[i]
}

/// The bytes of a track metadata footer, before its length word.
pub open spec fn track_meta_bytes(m: TrackMeta) -> Seq<u8> {
    bitmap_bytes(m.code_chunk_populated) + le_bytes(m.dict_entry_count as u64, 2) + wordty256_bytes(
        m.dict_val_chunk_tys,
    ) + wordty256_bytes(m.dict_bin_len_chunk_tys) + bitmap_bytes(m.dict_bin_large) + (if any_set(
        m.dict_bin_large,
    ) {
        wordty256_bytes(m.dict_bin_off_tys)
    } else {
        Seq::empty()
    }) + bitmap_bytes(m.code_chunk_two_bytes) + bitmap_bytes(m.code_chunk_run_coded) + le_u16s(
        m.code_chunk_mins@,
    ) + le_u16s(m.code_chunk_maxs@)
}

/// The length of the track metadata footer at `start`, as its own bytes
/// give it: the populated bitmap fixes how many code chunks have a least and
/// a greatest code, and the large-bin bitmap whether offset widths follow.
pub open spec fn track_meta_len_at(content: Seq<u8>, start: int) -> int {
    let pop = count_true(bitmap_view_at(content, start));
    let large = exists|i: int| 0 <= i < 256 && #[trigger] bitmap_view_at(content, start + 162)[i];
    258 + (if large { 64int } else { 0int }) + 4 * pop
}

/// A track metadata footer whose length word ends at `end` can be read from
/// its start `start`: its fields fill the footer exactly.
pub open spec fn track_meta_ok(content: Seq<u8>, start: int, end: int) -> bool {
    start + track_meta_len_at(content, start) == end - 8
}

/// The per-chunk arrays of a track's metadata agree with its bitmaps, and
/// each chunk's codes lie within the dictionary.
pub open spec fn track_meta_wf(m: TrackMeta) -> bool {
    &&& m.code_chunk_mins@.len() == m.code_chunk_maxs@.len()
    &&& m.code_chunk_mins@.len() == count_true(m.code_chunk_populated@)
    &&& forall|c: int|
        0 <= c < m.code_chunk_mins@.len() ==> #[trigger] m.code_chunk_mins@[c]
            <= m.code_chunk_maxs@[c] < m.dict_entry_count
}

/// No chunk recorded: every bitmap clear, every width one byte.
pub open spec fn track_meta_is_empty(m: TrackMeta) -> bool {
    &&& m.code_chunk_populated@ == Seq::new(256, |i: int| false)
    &&& m.dict_entry_count == 0
    &&& m.dict_val_chunk_tys@ == Seq::new(256, |i: int| WordTy::Word1)
    &&& m.dict_bin_len_chunk_tys@ == Seq::new(256, |i: int| WordTy::Word1)
    &&& m.dict_bin_large@ == Seq::new(256, |i: int| false)
    &&& m.dict_bin_off_tys@ == Seq::new(256, |i: int| WordTy::Word1)
    &&& m.code_chunk_two_bytes@ == Seq::new(256, |i: int| false)
    &&& m.code_chunk_run_coded@ == Seq::new(256, |i: int| false)
    &&& m.code_chunk_mins@.len() == 0
    &&& m.code_chunk_maxs@.len() == 0
}

/// A footer: `body`, then its length as eight little-endian bytes.
pub open spec fn footer(body: Seq<u8>) -> Seq<u8> {
    body + le_bytes(body.len() as u64, 8)
}

impl TrackMeta {
    /// The metadata of a track with nothing written yet.
    pub fn new() -> (r: Self)
        ensures
            track_meta_is_empty(r),
    {
        TrackMeta {
            code_chunk_populated: Bitmap256::new(),
            dict_entry_count: 0,
            dict_val_chunk_tys: WordTy256::new(),
            dict_bin_len_chunk_tys: WordTy256::new(),
            dict_bin_large: Bitmap256::new(),
            dict_bin_off_tys: WordTy256::new(),
            code_chunk_two_bytes: Bitmap256::new(),
            code_chunk_run_coded: Bitmap256::new(),
            code_chunk_mins: Vec::new(),
            code_chunk_maxs: Vec::new(),
        }
    }

    /// Writes the footer.
    pub fn write(&self, wr: &mut MemWriter) -> (r: Result<(), Error>)
        ensures
            r matches Err(e) ==> e == Error::LengthMismatch || e == Error::CountTooLarge,
            r matches Err(e) ==> (e == Error::LengthMismatch <==> !(self.code_chunk_mins@.len()
                == self.code_chunk_maxs@.len() && self.code_chunk_mins@.len() == count_true(
                self.code_chunk_populated@,
            ))),
            (self.code_chunk_mins@.len() == self.code_chunk_maxs@.len()
                && self.code_chunk_mins@.len() == count_true(self.code_chunk_populated@)
                && old(wr)@.len() + footer(track_meta_bytes(*self)).len() <= i64::MAX) ==> r is Ok,
            r is Ok ==> final(wr)@ == old(wr)@ + footer(track_meta_bytes(*self)),
            r == Err::<(), Error>(Error::LengthMismatch) ==> final(wr)@ == old(wr)@,
            r is Ok ==> self.code_chunk_mins@.len() == self.code_chunk_maxs@.len()
                && self.code_chunk_mins@.len() == count_true(self.code_chunk_populated@),
    {
        if self.code_chunk_mins.len() != self.code_chunk_maxs.len() {
            return Err(Error::LengthMismatch);
        }
        if self.code_chunk_mins.len() != self.code_chunk_populated.count() as usize {
            return Err(Error::LengthMismatch);
        }
        wr.push_context("meta");
        let start = wr.pos()?;
        self.code_chunk_populated.write_annotated("code_chunk_populated", wr);
        wr.write_annotated_le_u16("dict_entry_count", self.dict_entry_count);
        self.dict_val_chunk_tys.write_annotated("dict_val_chunk_tys", wr);
        self.dict_bin_len_chunk_tys.write_annotated("dict_bin_len_chunk_tys", wr);
        self.dict_bin_large.write_annotated("dict_bin_large", wr);
        if self.dict_bin_large.any() {
            self.dict_bin_off_tys.write_annotated("dict_bin_off_tys", wr);
        }
        self.code_chunk_two_bytes.write_annotated("code_chunk_two_bytes", wr);
        self.code_chunk_run_coded.write_annotated("code_chunk_run_coded", wr);
        wr.write_annotated_le_u16_slice("chunk_min_dict_codes", self.code_chunk_mins.as_slice());
        wr.write_annotated_le_u16_slice("chunk_max_dict_codes", self.code_chunk_maxs.as_slice());
        let ghost body = wr@;
        proof {
            assert(body =~= old(wr)@ + track_meta_bytes(*self));
        }
        let res = wr.write_len_of_footer_starting_at(start);
        wr.pop_context();
        match res {
            Ok(()) => {},
            Err(e) => {
                return Err(e);
            },
        }
        proof {
            assert(wr@ =~= old(wr)@ + footer(track_meta_bytes(*self)));
        }
        Ok(())
    }
}

pub proof fn lemma_subrange_concat(c: Seq<u8>, a: int, b: int, d: int)
    requires
        0 <= a <= b <= d <= c.len(),
    ensures
        c.subrange(a, b) + c.subrange(b, d) == c.subrange(a, d),
{
    assert(c.subrange(a, b) + c.subrange(b, d) =~= c.subrange(a, d));
}

/// The start of the footer whose length word ends at `end`.
pub open spec fn footer_start(content: Seq<u8>, end: int) -> int {
    end - 8 - footer_len_at(content, end)
}

impl TrackMeta {
    /// Reads the footer whose length word ends at `end`.
    pub fn read_from_footer_end(rd: &mut MemReader, end: i64) -> (r: Result<TrackMeta, Error>)
        ensures
            final(rd).content() == old(rd).content(),
            r matches Err(e) ==> footer_error(old(rd).content(), end as int) == Some(e) || (footer_ok(
                old(rd).content(),
                end as int,
            ) && (e == Error::UnexpectedEof || e == Error::LengthMismatch)),
            r is Ok <==> footer_ok(old(rd).content(), end as int) && track_meta_ok(
                old(rd).content(),
                footer_start(old(rd).content(), end as int),
                end as int,
            ),
            r matches Ok(m) ==> footer_ok(old(rd).content(), end as int) && {
                let start = footer_start(old(rd).content(), end as int);
                start + track_meta_bytes(m).len() == end - 8
                    && old(rd).content().subrange(start, end - 8) == track_meta_bytes(m)
            },
            r matches Ok(m) ==> m.code_chunk_mins@.len() == m.code_chunk_maxs@.len()
                == count_true(m.code_chunk_populated@),
    {
        let ghost c = rd.content();
        rd.read_footer_len_ending_at_pos_and_rewind_to_start(end)?;
        let ghost start = rd.position();
        proof {
            rd.lemma_position_nonneg();
            assert(c.subrange(start, start) =~= Seq::<u8>::empty());
        }
        let code_chunk_populated = Bitmap256::read(rd)?;
        let ghost b0 = bitmap_bytes(code_chunk_populated);
        proof {
            lemma_subrange_concat(c, start, start, rd.position());
        }
        let dict_entry_count = rd.read_le_u16()?;
        let ghost b1 = b0 + le_bytes(dict_entry_count as u64, 2);
        proof {
            lemma_subrange_concat(c, start, start + 32, rd.position());
        }
        let dict_val_chunk_tys = WordTy256::read(rd)?;
        let ghost b2 = b1 + wordty256_bytes(dict_val_chunk_tys);
        proof {
            lemma_subrange_concat(c, start, start + 34, rd.position());
        }
        let dict_bin_len_chunk_tys = WordTy256::read(rd)?;
        let ghost b3 = b2 + wordty256_bytes(dict_bin_len_chunk_tys);
        proof {
            lemma_subrange_concat(c, start, start + 98, rd.position());
        }
        let dict_bin_large = Bitmap256::read(rd)?;
        let ghost b4 = b3 + bitmap_bytes(dict_bin_large);
        proof {
            lemma_subrange_concat(c, start, start + 162, rd.position());
        }
        let ghost at5 = rd.position();
        let dict_bin_off_tys = if dict_bin_large.any() {
            WordTy256::read(rd)?
        } else {
            WordTy256::new()
        };
        let ghost b5 = b4 + if any_set(dict_bin_large) {
            wordty256_bytes(dict_bin_off_tys)
        } else {
            Seq::empty()
        };
        proof {
            if any_set(dict_bin_large) {
                lemma_subrange_concat(c, start, at5, rd.position());
            } else {
                assert(b5 =~= b4);
            }
            assert(c.subrange(start, rd.position()) == b5);
        }
        let ghost at6 = rd.position();
        let code_chunk_two_bytes = Bitmap256::read(rd)?;
        proof {
            lemma_subrange_concat(c, start, at6, rd.position());
        }
        let ghost at7 = rd.position();
        let code_chunk_run_coded = Bitmap256::read(rd)?;
        proof {
            lemma_subrange_concat(c, start, at7, rd.position());
        }
        let ghost b7 = b5 + bitmap_bytes(code_chunk_two_bytes) + bitmap_bytes(code_chunk_run_coded);
        let n = code_chunk_populated.count() as usize;
        let ghost at8 = rd.position();
        let code_chunk_mins = rd.read_le_u16_vec(n)?;
        proof {
            lemma_subrange_concat(c, start, at8, rd.position());
        }
        let ghost at9 = rd.position();
        let code_chunk_maxs = rd.read_le_u16_vec(n)?;
        proof {
            lemma_subrange_concat(c, start, at9, rd.position());
        }
        let m = TrackMeta {
            code_chunk_populated,
            dict_entry_count,
            dict_val_chunk_tys,
            dict_bin_len_chunk_tys,
            dict_bin_large,
            dict_bin_off_tys,
            code_chunk_two_bytes,
            code_chunk_run_coded,
            code_chunk_mins,
            code_chunk_maxs,
        };
        proof {
            assert(track_meta_bytes(m) =~= c.subrange(start, rd.position()));
        }
        if rd.pos() as i128 != end as i128 - 8 {
            return Err(Error::LengthMismatch);
        }
        Ok(m)
    }
}

/// The metadata footer of a block: for each track its low and high value,
/// whether it is implicit, its row count and where its footer ends.
pub struct BlockMeta {
    pub track_lo_vals: Vec<i64>,
    pub track_hi_vals: Vec<i64>,
    pub track_implicit: Bitmap256,
    pub track_rows: Vec<u16>,
    pub track_end_offsets: Vec<i64>,
}

/// The bytes of a block metadata footer, before its length word.
pub open spec fn block_meta_bytes(m: BlockMeta) -> Seq<u8> {
    le_bytes(m.track_lo_vals@.len() as u64, 8) + le_i64s(m.track_lo_vals@) + le_i64s(
        m.track_hi_vals@,
    ) + bitmap_bytes(m.track_implicit) + le_u16s(m.track_rows@) + le_i64s(m.track_end_offsets@)
}

/// The per-track arrays of a block's metadata have one entry per track, and
/// there are at most 256 tracks.
pub open spec fn block_meta_wf(m: BlockMeta) -> bool {
    &&& m.track_lo_vals@.len() <= 256
    &&& m.track_hi_vals@.len() == m.track_lo_vals@.len()
    &&& m.track_rows@.len() == m.track_lo_vals@.len()
    &&& m.track_end_offsets@.len() == m.track_lo_vals@.len()
}

/// A block metadata footer whose length word ends at `end` can be read from
/// its start `start`: at most 256 tracks, whose arrays fill the footer
/// exactly.
pub open spec fn block_meta_ok(content: Seq<u8>, start: int, end: int) -> bool {
    let n = i64_at(content, start);
    &&& 0 <= n <= 256
    &&& start + 40 + 26 * n == end - 8
}

impl BlockMeta {
    /// The metadata of a block with no track yet.
    pub fn new() -> (r: Self)
        ensures
            r.track_lo_vals@.len() == 0,
            r.track_hi_vals@.len() == 0,
            r.track_rows@.len() == 0,
            r.track_end_offsets@.len() == 0,
            r.track_implicit@ == Seq::new(256, |i: int| false),
    {
        BlockMeta {
            track_lo_vals: Vec::new(),
            track_hi_vals: Vec::new(),
            track_implicit: Bitmap256::new(),
            track_rows: Vec::new(),
            track_end_offsets: Vec::new(),
        }
    }

    /// Writes the footer.
    pub fn write(&self, wr: &mut MemWriter) -> (r: Result<(), Error>)
        ensures
            r matches Err(e) ==> e == Error::LengthMismatch || e == Error::TooManyTracks || e
                == Error::CountTooLarge,
            r matches Err(e) ==> ((e == Error::LengthMismatch || e == Error::TooManyTracks) <==> !block_meta_wf(*self)),
            (block_meta_wf(*self) && old(wr)@.len() + footer(block_meta_bytes(*self)).len() <= i64::MAX) ==> r is Ok,
            r is Ok ==> final(wr)@ == old(wr)@ + footer(block_meta_bytes(*self)),
            r is Ok ==> block_meta_wf(*self),
            !block_meta_wf(*self) ==> final(wr)@ == old(wr)@,
    {
        let ntracks = self.track_lo_vals.len();
        if ntracks != self.track_hi_vals.len() {
            return Err(Error::LengthMismatch);
        }
        if ntracks > 256 {
            return Err(Error::TooManyTracks);
        }
        if ntracks != self.track_rows.len() {
            return Err(Error::LengthMismatch);
        }
        if ntracks != self.track_end_offsets.len() {
            return Err(Error::LengthMismatch);
        }
        wr.push_context("meta");
        let start = wr.pos()?;
        wr.write_annotated_le_i64("track_num", ntracks as i64);
        wr.write_annotated_le_i64_slice("track_lo_vals", self.track_lo_vals.as_slice());
        wr.write_annotated_le_i64_slice("track_hi_vals", self.track_hi_vals.as_slice());
        self.track_implicit.write_annotated("track_implicit", wr);
        wr.write_annotated_le_u16_slice("track_rows", self.track_rows.as_slice());
        wr.write_annotated_le_i64_slice("track_end_offsets", self.track_end_offsets.as_slice());
        proof {
            assert(wr@ =~= old(wr)@ + block_meta_bytes(*self));
        }
        let res = wr.write_len_of_footer_starting_at(start);
        wr.pop_context();
        match res {
            Ok(()) => {},
            Err(e) => {
                return Err(e);
            },
        }
        proof {
            assert(wr@ =~= old(wr)@ + footer(block_meta_bytes(*self)));
        }
        Ok(())
    }

    /// Reads the footer whose length word ends at `end`.
    pub fn read_from_footer_end(rd: &mut MemReader, end: i64) -> (r: Result<BlockMeta, Error>)
        ensures
            final(rd).content() == old(rd).content(),
            r matches Err(e) ==> footer_error(old(rd).content(), end as int) == Some(e) || (footer_ok(
                old(rd).content(),
                end as int,
            ) && (e == Error::UnexpectedEof || e == Error::NegativeCount || e == Error::TooManyTracks
                || e == Error::LengthMismatch)),
            r is Ok <==> footer_ok(old(rd).content(), end as int) && block_meta_ok(
                old(rd).content(),
                footer_start(old(rd).content(), end as int),
                end as int,
            ),
            r matches Ok(m) ==> footer_ok(old(rd).content(), end as int) && block_meta_wf(m) && {
                let start = footer_start(old(rd).content(), end as int);
                start + block_meta_bytes(m).len() == end - 8
                    && old(rd).content().subrange(start, end - 8) == block_meta_bytes(m)
            },
    {
        let ghost c = rd.content();
        rd.read_footer_len_ending_at_pos_and_rewind_to_start(end)?;
        let ghost start = rd.position();
        proof {
            rd.lemma_position_nonneg();
        }
        let ntracks = rd.read_le_i64()?;
        if ntracks < 0 {
            return Err(Error::NegativeCount);
        }
        if ntracks > 256 {
            return Err(Error::TooManyTracks);
        }
        let n = ntracks as usize;
        let ghost at1 = rd.position();
        let track_lo_vals = rd.read_le_i64_vec(n)?;
        proof {
            lemma_subrange_concat(c, start, at1, rd.position());
        }
        let ghost at2 = rd.position();
        let track_hi_vals = rd.read_le_i64_vec(n)?;
        proof {
            lemma_subrange_concat(c, start, at2, rd.position());
        }
        let ghost at3 = rd.position();
        let track_implicit = Bitmap256::read(rd)?;
        proof {
            lemma_subrange_concat(c, start, at3, rd.position());
        }
        let ghost at4 = rd.position();
        let track_rows = rd.read_le_u16_vec(n)?;
        proof {
            lemma_subrange_concat(c, start, at4, rd.position());
        }
        let ghost at5 = rd.position();
        let track_end_offsets = rd.read_le_i64_vec(n)?;
        proof {
            lemma_subrange_concat(c, start, at5, rd.position());
        }
        let m = BlockMeta { track_lo_vals, track_hi_vals, track_implicit, track_rows, track_end_offsets };
        proof {
            assert(block_meta_bytes(m) =~= c.subrange(start, rd.position()));
        }
        if rd.pos() as i128 != end as i128 - 8 {
            return Err(Error::LengthMismatch);
        }
        Ok(m)
    }
}

/// The format version that this library writes.
pub const LAYER_VERSION: i64 = 0;

/// The metadata footer of a layer.
pub struct LayerMeta {
    pub vers: i64,
    pub rows: i64,
    pub cols: i64,
    pub block_end_offsets: Vec<i64>,
}

/// The bytes of a layer metadata footer, before its length word.
pub open spec fn layer_meta_bytes(m: LayerMeta) -> Seq<u8> {
    le_bytes(m.vers as u64, 8) + le_bytes(m.rows as u64, 8) + le_bytes(m.cols as u64, 8) + le_bytes(
        m.block_end_offsets@.len() as u64,
        8,
    ) + le_i64s(m.block_end_offsets@)
}

/// A layer metadata footer can be read at position `p` of `content`: its
/// four fields are there, the version is not later than this library's, the
/// row and column counts are not negative, there are at most 256 blocks,
/// and their end offsets are there.
pub open spec fn layer_meta_ok(content: Seq<u8>, p: int) -> bool {
    &&& 0 <= p
    &&& p + 32 <= content.len()
    &&& i64_at(content, p) <= LAYER_VERSION
    &&& i64_at(content, p + 8) >= 0
    &&& i64_at(content, p + 16) >= 0
    &&& 0 <= i64_at(content, p + 24) <= 256
    &&& p + 32 + 8 * i64_at(content, p + 24) <= content.len()
}

/// The eight bytes at the start of every layer: "submerge".
pub open spec fn magic() -> Seq<u8> {
    seq![115u8, 117u8, 98u8, 109u8, 101u8, 114u8, 103u8, 101u8]
}

fn magic_bytes() -> (r: Vec<u8>)
    ensures
        r@ == magic(),
{
    let r = vec![115u8, 117u8, 98u8, 109u8, 101u8, 114u8, 103u8, 101u8];
    assert(r@ =~= magic());
    r
}

impl LayerMeta {
    /// The metadata of a layer with no block yet.
    pub fn new() -> (r: Self)
        ensures
            r.vers == LAYER_VERSION,
            r.rows == 0,
            r.cols == 0,
            r.block_end_offsets@.len() == 0,
    {
        LayerMeta { vers: LAYER_VERSION, rows: 0, cols: 0, block_end_offsets: Vec::new() }
    }

    /// Writes the magic at the start of an empty writer.
    pub fn write_magic_header(wr: &mut MemWriter)
        requires
            old(wr)@.len() == 0,
        ensures
            final(wr)@ == magic(),
    {
        let m = magic_bytes();
        wr.write_annotated_byte_slice("magic", m.as_slice());
    }

    /// Checks that the content starts with the magic.
    pub fn read_and_check_magic_header(rd: &mut MemReader) -> (r: Result<(), Error>)
        ensures
            final(rd).content() == old(rd).content(),
            r is Ok <==> old(rd).content().len() >= 8 && old(rd).content().subrange(0, 8) == magic(),
            r matches Err(e) ==> ((e == Error::UnexpectedEof) <==> old(rd).content().len() < 8),
            r matches Err(e) ==> e == Error::UnexpectedEof || e == Error::BadMagic,
            r is Ok ==> final(rd).position() == 8,
    {
        rd.rewind();
        let buf = rd.read_exact(8)?;
        let m = magic_bytes();
        let mut i: usize = 0;
        while i < 8
            invariant
                i <= 8,
                buf@.len() == 8,
                m@ == magic(),
                rd.content() == old(rd).content(),
                old(rd).content().len() >= 8,
                buf@ == old(rd).content().subrange(0, 8),
                forall|k: int| 0 <= k < i ==> buf@[k] == m@[k],
            decreases 8 - i,
        {
            if buf[i] != m[i] {
                proof {
                    assert(buf@[i as int] != magic()[i as int]);
                }
                return Err(Error::BadMagic);
            }
            i = i + 1;
        }
        assert(buf@ =~= magic());
        Ok(())
    }

    /// Writes the footer: version, rows, columns, and the end of each block.
    pub fn write(&self, wr: &mut MemWriter) -> (r: Result<(), Error>)
        requires
            self.vers == LAYER_VERSION,
        ensures
            r matches Err(e) ==> e == Error::CountTooLarge,
            old(wr)@.len() + footer(layer_meta_bytes(*self)).len() <= i64::MAX ==> r is Ok,
            r is Ok ==> final(wr)@ == old(wr)@ + footer(layer_meta_bytes(*self)),
    {
        wr.push_context("meta");
        let start = wr.pos()?;
        if self.block_end_offsets.len() as u64 > i64::MAX as u64 {
            proof {
                lemma_le_i64s_len(self.block_end_offsets@);
            }
            return Err(Error::CountTooLarge);
        }
        wr.write_annotated_le_i64("vers", LAYER_VERSION);
        wr.write_annotated_le_i64("rows", self.rows);
        wr.write_annotated_le_i64("cols", self.cols);
        wr.write_annotated_le_i64("blocks", self.block_end_offsets.len() as i64);
        wr.write_annotated_le_i64_slice("block_end_offsets", self.block_end_offsets.as_slice());
        proof {
            assert(wr@ =~= old(wr)@ + layer_meta_bytes(*self));
        }
        let res = wr.write_len_of_footer_starting_at(start);
        wr.pop_context();
        match res {
            Ok(()) => {},
            Err(e) => {
                return Err(e);
            },
        }
        proof {
            assert(wr@ =~= old(wr)@ + footer(layer_meta_bytes(*self)));
        }
        Ok(())
    }

    /// Reads the footer fields from the reader's position.
    pub fn read(rd: &mut MemReader) -> (r: Result<LayerMeta, Error>)
        ensures
            final(rd).content() == old(rd).content(),
            r is Ok <==> layer_meta_ok(old(rd).content(), old(rd).position()),
            r matches Err(e) ==> e == Error::UnexpectedEof || e == Error::FutureVersion || e
                == Error::NegativeCount || e == Error::TooManyBlocks,
            r matches Ok(m) ==> m.vers <= LAYER_VERSION && m.rows >= 0 && m.cols >= 0
                && m.block_end_offsets@.len() == i64_at(old(rd).content(), old(rd).position() + 24) && {
                let start = old(rd).position();
                start + layer_meta_bytes(m).len() <= old(rd).content().len()
                    && old(rd).content().subrange(start, start + layer_meta_bytes(m).len())
                    == layer_meta_bytes(m) && final(rd).position() == start + layer_meta_bytes(m).len()
            },
    {
        let ghost c = rd.content();
        let ghost start = rd.position();
        proof {
            rd.lemma_position_nonneg();
        }
        let vers = rd.read_le_i64()?;
        if vers > LAYER_VERSION {
            return Err(Error::FutureVersion);
        }
        let ghost at1 = rd.position();
        let rows = rd.read_le_i64()?;
        proof {
            lemma_subrange_concat(c, start, at1, rd.position());
        }
        let ghost at2 = rd.position();
        let cols = rd.read_le_i64()?;
        proof {
            lemma_subrange_concat(c, start, at2, rd.position());
        }
        let ghost at3 = rd.position();
        let blocks = rd.read_le_i64()?;
        proof {
            lemma_subrange_concat(c, start, at3, rd.position());
        }
        if rows < 0 || cols < 0 {
            return Err(Error::NegativeCount);
        }
        if blocks < 0 {
            return Err(Error::NegativeCount);
        }
        if blocks > 256 {
            return Err(Error::TooManyBlocks);
        }
        let ghost at4 = rd.position();
        let block_end_offsets = rd.read_le_i64_vec(blocks as usize)?;
        proof {
            lemma_subrange_concat(c, start, at4, rd.position());
        }
        let m = LayerMeta { vers, rows, cols, block_end_offsets };
        proof {
            assert(layer_meta_bytes(m) =~= c.subrange(start, rd.position()));
        }
        Ok(m)
    }
}

pub proof fn lemma_le_i64s_len(s: Seq<i64>)
    ensures
        le_i64s(s).len() == s.len() * 8,
{
    lemma_le_u64s_len(Seq::new(s.len(), |i: int| s[i] as u64), 8, s.len() as int);
    assert(Seq::new(s.len(), |i: int| s[i] as u64).subrange(0, s.len() as int) =~= Seq::new(s.len(), |i: int| s[i] as u64));
}

proof fn lemma_le_u64s_len(s: Seq<u64>, n: nat, k: int)
    requires
        0 <= k <= s.len(),
    ensures
        le_u64s(s.subrange(0, k), n).len() == k * n,
    decreases k,
{
    if k > 0 {
        lemma_le_u64s_len(s, n, k - 1);
        lemma_le_prefix_step(s, n, k - 1);
        assert((k - 1) * n + n == k * n) by (nonlinear_arith);
    } else {
        assert(Seq::new(0, |i: int| le_bytes(s.subrange(0, 0)[i], n)) =~= Seq::<Seq<u8>>::empty());
    }
}

/// A footer written with its length word ending at `end` is found again
/// from that length word: it starts where it was written and holds the
/// same bytes.
pub proof fn law_footer_found_again(content: Seq<u8>, body: Seq<u8>, end: int)
    requires
        0 <= end - 8 - body.len(),
        end <= content.len(),
        body.len() <= i64::MAX,
        content.subrange(end - 8 - body.len(), end) == footer(body),
    ensures
        footer_ok(content, end),
        footer_start(content, end) == end - 8 - body.len(),
        content.subrange(footer_start(content, end), end - 8) == body,
{
    let start = end - 8 - body.len();
    let f = footer(body);
    assert(content.subrange(end - 8, end) =~= f.subrange(body.len() as int, f.len() as int));
    assert(f.subrange(body.len() as int, f.len() as int) =~= le_bytes(body.len() as u64, 8));
    lemma_le_u64_of_bytes(body.len() as u64);
    assert(((body.len() as u64) as i64) as int == body.len());
    assert(content.subrange(start, end - 8) =~= f.subrange(0, body.len() as int));
    assert(f.subrange(0, body.len() as int) =~= body);
}

/// Reading the track metadata footer that `TrackMeta::write` wrote gives
/// metadata that writes the same bytes again.
pub proof fn law_track_meta_round_trip(content: Seq<u8>, written: TrackMeta, read: TrackMeta, end: int)
    requires
        0 <= end - 8 - track_meta_bytes(written).len(),
        end <= content.len(),
        track_meta_bytes(written).len() <= i64::MAX,
        content.subrange(end - 8 - track_meta_bytes(written).len(), end) == footer(track_meta_bytes(written)),
        footer_start(content, end) + track_meta_bytes(read).len() == end - 8,
        content.subrange(footer_start(content, end), end - 8) == track_meta_bytes(read),
    ensures
        track_meta_bytes(read) == track_meta_bytes(written),
{
    law_footer_found_again(content, track_meta_bytes(written), end);
}

/// Reading the block metadata footer that `BlockMeta::write` wrote gives
/// metadata that writes the same bytes again.
pub proof fn law_block_meta_round_trip(content: Seq<u8>, written: BlockMeta, read: BlockMeta, end: int)
    requires
        0 <= end - 8 - block_meta_bytes(written).len(),
        end <= content.len(),
        block_meta_bytes(written).len() <= i64::MAX,
        content.subrange(end - 8 - block_meta_bytes(written).len(), end) == footer(block_meta_bytes(written)),
        footer_start(content, end) + block_meta_bytes(read).len() == end - 8,
        content.subrange(footer_start(content, end), end - 8) == block_meta_bytes(read),
    ensures
        block_meta_bytes(read) == block_meta_bytes(written),
{
    law_footer_found_again(content, block_meta_bytes(written), end);
}

/// Reading the layer metadata footer that `LayerMeta::write` wrote at the
/// end of a layer gives metadata that writes the same bytes again.
pub proof fn law_layer_meta_round_trip(content: Seq<u8>, written: LayerMeta, read: LayerMeta)
    requires
        0 <= content.len() - 8 - layer_meta_bytes(written).len(),
        layer_meta_bytes(written).len() <= i64::MAX,
        content.subrange(content.len() - 8 - layer_meta_bytes(written).len(), content.len() as int)
            == footer(layer_meta_bytes(written)),
        footer_start(content, content.len() as int) + layer_meta_bytes(read).len() == content.len() - 8,
        content.subrange(footer_start(content, content.len() as int), content.len() - 8) == layer_meta_bytes(read),
    ensures
        layer_meta_bytes(read) == layer_meta_bytes(written),
{
    law_footer_found_again(content, layer_meta_bytes(written), content.len() as int);
}

} // verus!
