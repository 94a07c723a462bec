use vstd::prelude::*;

use crate::chunk::DictEntryChunkMeta;
use crate::error::Error;
use crate::io::{footer_error, footer_ok, i64_at, le_bytes, lemma_le_u64_of_bytes, MemReader};
use crate::track::num_chunks;
use crate::trackmap::{as_int_offset, segment_offset, TrackMap};
use crate::meta::{
    block_meta_bytes, block_meta_wf, footer, footer_start, law_footer_found_again, layer_meta_bytes,
    block_meta_ok, layer_meta_ok, track_meta_ok, lemma_le_i64s_len, magic, track_meta_bytes, BlockMeta, LayerMeta, TrackMeta,
    LAYER_VERSION,
};

verus! {

/// The metadata of a layer, read from the end of its content.
pub struct LayerReader {
    pub meta: LayerMeta,
}

/// The metadata of one block of a layer.
pub struct BlockReader {
    pub block_num: usize,
    pub meta: BlockMeta,
}

/// The metadata of one track of a block, and where its chunks start.
pub struct TrackReader {
    pub track_num: usize,
    pub meta: TrackMeta,
    pub map: TrackMap,
}

/// `content` can be opened as a layer: it starts with the magic, and its
/// last eight bytes give the length of a layer footer that can be read and
/// that fills that length exactly.
pub open spec fn layer_ok(c: Seq<u8>) -> bool {
    let start = footer_start(c, c.len() as int);
    &&& c.len() >= 8
    &&& c.subrange(0, 8) == magic()
    &&& c.len() <= i64::MAX
    &&& footer_ok(c, c.len() as int)
    &&& layer_meta_ok(c, start)
    &&& start + 32 + 8 * i64_at(c, start + 24) == c.len() - 8
}

/// Content made of the magic, any bytes, and the footer that
/// `LayerMeta::write` writes for metadata that a reader accepts, opens as a
/// layer.
pub proof fn law_written_layer_opens(c: Seq<u8>, m: LayerMeta)
    requires
        c.len() <= i64::MAX,
        c.len() >= 8 + footer(layer_meta_bytes(m)).len(),
        c.subrange(0, 8) == magic(),
        c.subrange(c.len() - footer(layer_meta_bytes(m)).len(), c.len() as int) == footer(layer_meta_bytes(m)),
        m.vers <= LAYER_VERSION,
        m.rows >= 0,
        m.cols >= 0,
        m.block_end_offsets@.len() <= 256,
    ensures
        layer_ok(c),
{
    let b = layer_meta_bytes(m);
    let n = m.block_end_offsets@.len();
    lemma_le_i64s_len(m.block_end_offsets@);
    law_footer_found_again(c, b, c.len() as int);
    let start = footer_start(c, c.len() as int);
    assert(start == c.len() - 8 - b.len());
    assert(c.subrange(start, c.len() - 8) == b);
    assert(b.subrange(0, 8) =~= le_bytes(m.vers as u64, 8));
    assert(b.subrange(8, 16) =~= le_bytes(m.rows as u64, 8));
    assert(b.subrange(16, 24) =~= le_bytes(m.cols as u64, 8));
    assert(b.subrange(24, 32) =~= le_bytes(n as u64, 8));
    assert(c.subrange(start, start + 8) =~= b.subrange(0, 8));
    assert(c.subrange(start + 8, start + 16) =~= b.subrange(8, 16));
    assert(c.subrange(start + 16, start + 24) =~= b.subrange(16, 24));
    assert(c.subrange(start + 24, start + 32) =~= b.subrange(24, 32));
    lemma_le_u64_of_bytes(m.vers as u64);
    lemma_le_u64_of_bytes(m.rows as u64);
    lemma_le_u64_of_bytes(m.cols as u64);
    lemma_le_u64_of_bytes(n as u64);
    let v = m.vers;
    assert((v as u64) as i64 == v) by (bit_vector);
    assert(((m.rows as u64) as i64) == m.rows);
    assert(((m.cols as u64) as i64) == m.cols);
    assert(i64_at(c, start + 24) == n);
}

impl LayerReader {
    /// Opens a layer: checks the magic, then reads the footer that ends the
    /// content.
    pub fn new(rd: &mut MemReader) -> (r: Result<LayerReader, Error>)
        ensures
            final(rd).content() == old(rd).content(),
            old(rd).content().len() >= 8 && old(rd).content().subrange(0, 8) != magic() ==> r
                == Err::<LayerReader, Error>(Error::BadMagic),
            r is Ok <==> layer_ok(old(rd).content()),
            r matches Ok(l) ==> {
                let c = old(rd).content();
                let start = footer_start(c, c.len() as int);
                &&& c.subrange(0, 8) == magic()
                &&& footer_ok(c, c.len() as int)
                &&& l.meta.vers <= LAYER_VERSION
                &&& l.meta.block_end_offsets@.len() <= 256
                &&& start + layer_meta_bytes(l.meta).len() == c.len() - 8
                &&& c.subrange(start, c.len() - 8) == layer_meta_bytes(l.meta)
            },
    {
        LayerMeta::read_and_check_magic_header(rd)?;
        let len = rd.len();
        if len as u64 > i64::MAX as u64 {
            return Err(Error::CountTooLarge);
        }
        rd.read_footer_len_ending_at_pos_and_rewind_to_start(len as i64)?;
        let meta = LayerMeta::read(rd)?;
        proof {
            lemma_le_i64s_len(meta.block_end_offsets@);
        }
        if rd.pos() as u128 != len as u128 - 8 {
            return Err(Error::LengthMismatch);
        }
        Ok(LayerReader { meta })
    }

    /// Opens block `block_num` of the layer.
    pub fn new_block_reader(&self, block_num: usize, rd: &mut MemReader) -> (r: Result<BlockReader, Error>)
        ensures
            final(rd).content() == old(rd).content(),
            block_num >= self.meta.block_end_offsets@.len() ==> r == Err::<BlockReader, Error>(Error::OutOfRange),
            block_num < self.meta.block_end_offsets@.len() && self.meta.block_end_offsets@[block_num as int] < 0
                ==> r == Err::<BlockReader, Error>(Error::NegativeCount),
            r is Ok <==> block_num < self.meta.block_end_offsets@.len() && {
                let end = self.meta.block_end_offsets@[block_num as int] as int;
                end >= 0 && footer_ok(old(rd).content(), end) && block_meta_ok(
                    old(rd).content(),
                    footer_start(old(rd).content(), end),
                    end,
                )
            },
            r matches Ok(b) ==> b.block_num == block_num && block_meta_wf(b.meta) && {
                let c = old(rd).content();
                let end = self.meta.block_end_offsets@[block_num as int] as int;
                let start = footer_start(c, end);
                &&& block_num < self.meta.block_end_offsets@.len()
                &&& footer_ok(c, end)
                &&& start + block_meta_bytes(b.meta).len() == end - 8
                &&& c.subrange(start, end - 8) == block_meta_bytes(b.meta)
            },
    {
        if block_num >= self.meta.block_end_offsets.len() {
            return Err(Error::OutOfRange);
        }
        let end = self.meta.block_end_offsets[block_num];
        if end < 0 {
            return Err(Error::NegativeCount);
        }
        let meta = BlockMeta::read_from_footer_end(rd, end)?;
        Ok(BlockReader { block_num, meta })
    }
}

impl BlockReader {
    /// Opens track `track_num` of the block; `is_bin` tells whether it holds
    /// bins, which the format does not record.
    pub fn new_track_reader(&self, track_num: usize, is_bin: bool, rd: &mut MemReader) -> (r: Result<TrackReader, Error>)
        requires
            block_meta_wf(self.meta),
        ensures
            final(rd).content() == old(rd).content(),
            track_num >= self.meta.track_end_offsets@.len() ==> r == Err::<TrackReader, Error>(Error::OutOfRange),
            track_num < self.meta.track_end_offsets@.len() && self.meta.track_end_offsets@[track_num as int] < 0
                ==> r == Err::<TrackReader, Error>(Error::NegativeCount),
            r is Ok <==> track_num < self.meta.track_end_offsets@.len() && {
                let end = self.meta.track_end_offsets@[track_num as int] as int;
                end >= 0 && footer_ok(old(rd).content(), end) && track_meta_ok(
                    old(rd).content(),
                    footer_start(old(rd).content(), end),
                    end,
                )
            },
            r matches Ok(t) ==> t.map.dict_chunk_offsets@.len() == num_chunks(t.meta.dict_entry_count as int)
                && forall|k: int| 0 <= k < t.map.dict_chunk_offsets@.len() ==> as_int_offset(#[trigger] t.map.dict_chunk_offsets@[k])
                    == segment_offset(t.meta, is_bin, self.meta.track_rows@[track_num as int] as int, k),
            r matches Ok(t) ==> t.track_num == track_num && {
                let c = old(rd).content();
                let end = self.meta.track_end_offsets@[track_num as int] as int;
                let start = footer_start(c, end);
                &&& track_num < self.meta.track_end_offsets@.len()
                &&& footer_ok(c, end)
                &&& start + track_meta_bytes(t.meta).len() == end - 8
                &&& c.subrange(start, end - 8) == track_meta_bytes(t.meta)
            },
    {
        if track_num >= self.meta.track_end_offsets.len() {
            return Err(Error::OutOfRange);
        }
        let end = self.meta.track_end_offsets[track_num];
        if end < 0 {
            return Err(Error::NegativeCount);
        }
        let meta = TrackMeta::read_from_footer_end(rd, end)?;
        let rows = self.meta.track_rows[track_num];
        let map = TrackMap::new(&meta, is_bin, rows);
        Ok(TrackReader { track_num, meta, map })
    }

    /// Whether track `track_num` is implicit.
    pub fn is_implicit(&self, track_num: u8) -> (r: bool)
        ensures
            r == self.meta.track_implicit@[track_num as int],
    {
        self.meta.track_implicit.get(track_num)
    }
}

/// One dict-entry chunk of a track, with the widths its track records for
/// it.
pub struct DictEntryChunkReader {
    pub dict_chunk_num: usize,
    pub meta: DictEntryChunkMeta,
}

impl DictEntryChunkReader {
    /// The chunk `dict_chunk_num` of the track.
    pub fn new(track_reader: &TrackReader, dict_chunk_num: usize) -> (r: Self)
        requires
            dict_chunk_num < 256,
        ensures
            r.dict_chunk_num == dict_chunk_num,
            r.meta == (DictEntryChunkMeta {
                any_bin_large: track_reader.meta.dict_bin_large@[dict_chunk_num as int],
                val_ty: Some(track_reader.meta.dict_val_chunk_tys@[dict_chunk_num as int]),
                bin_len_ty: Some(track_reader.meta.dict_bin_len_chunk_tys@[dict_chunk_num as int]),
                bin_off_ty: if track_reader.meta.dict_bin_large@[dict_chunk_num as int] {
                    Some(track_reader.meta.dict_bin_off_tys@[dict_chunk_num as int])
                } else {
                    None
                },
            }),
    {
        let c = dict_chunk_num as u8;
        let large = track_reader.meta.dict_bin_large.get(c);
        let bin_off_ty = if large {
            Some(track_reader.meta.dict_bin_off_tys.get_word_ty(c))
        } else {
            None
        };
        let meta = DictEntryChunkMeta {
            any_bin_large: large,
            val_ty: Some(track_reader.meta.dict_val_chunk_tys.get_word_ty(c)),
            bin_len_ty: Some(track_reader.meta.dict_bin_len_chunk_tys.get_word_ty(c)),
            bin_off_ty,
        };
        DictEntryChunkReader { dict_chunk_num, meta }
    }
}

} // verus!
