//! Columnar storage layers: self-describing, seekable files of typed column
//! data, built from nested layer, block, track and chunk containers.

mod bin;
mod bitmap;
mod block;
mod bytes;
mod chunk;
mod codec;
mod dict;
mod error;
mod heap;
mod io;
mod lang;
mod kind;
mod layer;
mod meta;
mod net;
mod reader;
mod runs;
mod track;
mod trackmap;
mod virt;
mod wordty;

pub use bin::{bin_component, bin_hash, bin_prefix, BIN_SMALL_MAX};
pub use bitmap::{Bitmap256, DoubleBitmap256};
pub use block::{BlockInfoForLayer, BlockWriter};
pub use bytes::{compare_bytes, copy_bytes};
pub use chunk::{
    write_bin_dict_entry_chunk, write_dict_codes, write_int_dict_entry_chunk,
    write_one_or_two_byte_dict_code_chunk, write_packed_component, DictCodeChunkMeta,
    DictEntryChunkMeta,
};
pub use dict::{dict_encode, dict_encode_bins};
pub use error::Error;
pub use heap::Heap;
pub use io::{Annotation, Annotations, MemReader, MemWriter};
pub use kind::LogicalType;
pub use lang::{Bin, Expr, Path, Word};
pub use layer::LayerWriter;
pub use meta::{BlockMeta, LayerMeta, TrackMeta, LAYER_VERSION};
pub use net::{Duration, IOQueues, Msg, Node, NodeID, NodeTime, RealmTime, RecvMsg, Request, SpecificMsg};
pub use reader::{BlockReader, DictEntryChunkReader, LayerReader, TrackReader};
pub use runs::{run_end_decode, run_end_encode};
pub use track::{TrackInfoForBlock, TrackWriter};
pub use trackmap::TrackMap;
pub use virt::{neg_virt_base_and_factor, pos_virt_base_and_factor};
pub use wordty::{WordTy, WordTy256};
