use vstd::prelude::*;

use crate::block::{BlockInfoForLayer, BlockWriter};
use crate::error::Error;
use crate::io::MemWriter;
use crate::meta::{footer, layer_meta_bytes, magic, LayerMeta, LAYER_VERSION};

verus! {

/// Writes a layer, block by block.
pub struct LayerWriter {
    pub meta: LayerMeta,
}

impl LayerWriter {
    /// Starts a layer in an empty writer by writing the magic.
    pub fn new(wr: &mut MemWriter) -> (r: Result<Self, Error>)
        requires
            old(wr)@.len() == 0,
        ensures
            r matches Ok(l) && l.meta.vers == LAYER_VERSION && l.meta.rows == 0 && l.meta.cols == 0
                && l.meta.block_end_offsets@.len() == 0,
            final(wr)@ == magic(),
    {
        wr.push_context("layer");
        LayerMeta::write_magic_header(wr);
        Ok(LayerWriter { meta: LayerMeta::new() })
    }

    /// Starts the next block.
    pub fn begin_block(self, wr: &mut MemWriter) -> (r: Result<BlockWriter, Error>)
        ensures
            r is Err <==> self.meta.block_end_offsets@.len() > 255,
            r matches Err(e) ==> e == Error::TooManyBlocks,
            r matches Ok(b) ==> b.layer_writer == self && b.info.block_num == self.meta.block_end_offsets@.len(),
            final(wr)@ == old(wr)@,
    {
        let block_num = self.meta.block_end_offsets.len();
        BlockWriter::new(self, block_num, wr)
    }
}

impl LayerWriter {
    /// Records a finished block of `rows` rows and `cols` columns.
    pub fn note_block_finished(&mut self, info: &BlockInfoForLayer, rows: u16, cols: i64) -> (r: Result<(), Error>)
        ensures
            r is Err <==> old(self).meta.rows > i64::MAX - rows,
            r matches Err(e) ==> e == Error::CountTooLarge && final(self).meta == old(self).meta,
            final(self).meta.vers == old(self).meta.vers,
            r is Ok ==> {
                &&& final(self).meta.block_end_offsets@ == old(self).meta.block_end_offsets@.push(info.end_pos)
                &&& final(self).meta.rows == old(self).meta.rows + rows
                &&& final(self).meta.cols == if old(self).meta.cols < cols { cols } else { old(self).meta.cols }
            },
    {
        if self.meta.rows > i64::MAX - rows as i64 {
            return Err(Error::CountTooLarge);
        }
        self.meta.rows = self.meta.rows + rows as i64;
        if self.meta.cols < cols {
            self.meta.cols = cols;
        }
        self.meta.block_end_offsets.push(info.end_pos);
        Ok(())
    }

    /// Ends the layer: writes its metadata footer.
    pub fn finish_layer(self, wr: &mut MemWriter) -> (r: Result<(), Error>)
        requires
            self.meta.vers == LAYER_VERSION,
        ensures
            r matches Err(e) ==> e == Error::CountTooLarge,
            old(wr)@.len() + footer(layer_meta_bytes(self.meta)).len() <= i64::MAX ==> r is Ok,
            r is Ok ==> final(wr)@ == old(wr)@ + footer(layer_meta_bytes(self.meta)),
    {
        self.meta.write(wr)?;
        wr.pop_context();
        Ok(())
    }
}

} // verus!
