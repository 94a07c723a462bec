use vstd::prelude::*;

use crate::error::Error;
use crate::io::MemWriter;
use crate::layer::LayerWriter;
use crate::meta::{block_meta_bytes, block_meta_wf, footer, BlockMeta};
use crate::meta::track_meta_is_empty;
use crate::track::{TrackInfoForBlock, TrackWriter};

verus! {

/// What a finished block reports to its layer.
#[derive(Clone, Copy, PartialEq, Eq, Structural, Debug, Hash)]
pub struct BlockInfoForLayer {
    pub block_num: usize,
    pub end_pos: i64,
}

/// Writes one block of a layer, track by track.
pub struct BlockWriter {
    pub layer_writer: LayerWriter,
    pub meta: BlockMeta,
    pub info: BlockInfoForLayer,
}

impl BlockWriter {
    /// Starts block `block_num` of the layer.
    pub fn new(layer_writer: LayerWriter, block_num: usize, wr: &mut MemWriter) -> (r: Result<Self, Error>)
        ensures
            r is Err <==> block_num > 255,
            r matches Err(e) ==> e == Error::TooManyBlocks,
            r matches Ok(b) ==> b.layer_writer == layer_writer && b.info == (BlockInfoForLayer {
                block_num,
                end_pos: 0,
            }) && b.meta.track_lo_vals@.len() == 0 && b.meta.track_hi_vals@.len() == 0
                && b.meta.track_rows@.len() == 0 && b.meta.track_end_offsets@.len() == 0
                && b.meta.track_implicit@ == Seq::new(256, |i: int| false),
            final(wr)@ == old(wr)@,
    {
        if block_num > 255 {
            return Err(Error::TooManyBlocks);
        }
        wr.push_context("block");
        wr.push_context_num(block_num);
        Ok(BlockWriter { layer_writer, meta: BlockMeta::new(), info: BlockInfoForLayer { block_num, end_pos: 0 } })
    }

    /// Starts the next track.
    pub fn begin_track(self, wr: &mut MemWriter) -> (r: Result<TrackWriter, Error>)
        ensures
            r is Err <==> self.meta.track_end_offsets@.len() > 255,
            r matches Err(e) ==> e == Error::TooManyTracks,
            r matches Ok(t) ==> t.block_writer == self && track_meta_is_empty(t.meta) && t.info == (TrackInfoForBlock {
                track_num: self.meta.track_end_offsets@.len() as u8,
                lo_val: 0,
                hi_val: 0,
                implicit: false,
                rows: 0,
                end_pos: 0,
            }),
            final(wr)@ == old(wr)@,
    {
        let track_num = self.meta.track_end_offsets.len();
        TrackWriter::new(self, track_num, wr)
    }

    /// Records a finished track.
    pub fn note_track_finished(&mut self, info: &TrackInfoForBlock)
        ensures
            final(self).layer_writer == old(self).layer_writer,
            final(self).info == old(self).info,
            final(self).meta.track_lo_vals@ == old(self).meta.track_lo_vals@.push(info.lo_val),
            final(self).meta.track_hi_vals@ == old(self).meta.track_hi_vals@.push(info.hi_val),
            final(self).meta.track_rows@ == old(self).meta.track_rows@.push(info.rows),
            final(self).meta.track_end_offsets@ == old(self).meta.track_end_offsets@.push(info.end_pos),
            final(self).meta.track_implicit@ == old(self).meta.track_implicit@.update(info.track_num as int, info.implicit),
    {
        self.meta.track_lo_vals.push(info.lo_val);
        self.meta.track_hi_vals.push(info.hi_val);
        self.meta.track_implicit.set(info.track_num, info.implicit);
        self.meta.track_rows.push(info.rows);
        self.meta.track_end_offsets.push(info.end_pos);
    }
}

impl BlockWriter {
    /// Ends the block: writes its metadata footer and reports the block to
    /// its layer.
    pub fn finish_block(self, wr: &mut MemWriter) -> (r: Result<LayerWriter, Error>)
        ensures
            r matches Err(e) ==> e == Error::LengthMismatch || e == Error::TooManyTracks || e
                == Error::CountTooLarge,
            (block_meta_wf(self.meta) && old(wr)@.len() + footer(block_meta_bytes(self.meta)).len() <= i64::MAX
                && self.layer_writer.meta.rows <= i64::MAX - 0xffff) ==> r is Ok,
            r matches Ok(l) ==> {
                &&& final(wr)@ == old(wr)@ + footer(block_meta_bytes(self.meta))
                &&& l.meta.vers == self.layer_writer.meta.vers
                &&& l.meta.block_end_offsets@ == self.layer_writer.meta.block_end_offsets@.push(final(wr)@.len() as i64)
                &&& l.meta.cols == if self.layer_writer.meta.cols < self.meta.track_lo_vals@.len() {
                    self.meta.track_lo_vals@.len() as i64
                } else {
                    self.layer_writer.meta.cols
                }
            },
    {
        let mut b = self;
        b.meta.write(wr)?;
        let end = wr.pos()?;
        b.info.end_pos = end;
        wr.pop_context();
        wr.pop_context();
        let mut rows: u16 = 0;
        let mut i: usize = 0;
        while i < b.meta.track_rows.len()
            invariant
                i <= b.meta.track_rows@.len(),
            decreases b.meta.track_rows@.len() - i,
        {
            if b.meta.track_rows[i] > rows {
                rows = b.meta.track_rows[i];
            }
            i = i + 1;
        }
        let ntracks = b.meta.track_lo_vals.len();
        proof {
            assert(ntracks <= 256);
        }
        b.layer_writer.note_block_finished(&b.info, rows, ntracks as i64)?;
        Ok(b.layer_writer)
    }
}

} // verus!
