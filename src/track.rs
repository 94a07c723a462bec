use vstd::prelude::*;
use vstd::slice::slice_subrange;

use crate::bitmap::count_true;
use crate::block::BlockWriter;
use crate::bin::bin_prefix_of;
use crate::chunk::{
    lemma_total_len_bound, total_len, any_bin_large, any_two_bytes, bin_chunk_bytes, code_chunk_bytes, packed_bytes, use_run_coding,
    write_bin_dict_entry_chunk, write_dict_codes, write_int_dict_entry_chunk, DictCodeChunkMeta,
    DictEntryChunkMeta,
};
use crate::dict::{bins_view, dict_encode, dict_encode_bins, is_bin_dict_encoding, is_dict_encoding};
use crate::heap::{occurs_at, Heap};
use crate::error::Error;
use crate::io::{le_bytes, MemWriter};
use crate::meta::{footer, track_meta_bytes, track_meta_is_empty, track_meta_wf, TrackMeta};
use crate::virt::{
    is_neg_virt, is_pos_virt, law_pos_virt_step_unique, neg_virt_base_and_factor, pos_virt_base_and_factor,
};
use crate::wordty::{min_as_unsigned, narrowest_width, WordTy};

verus! {

/// What a finished track reports to its block.
#[derive(Clone, Copy, PartialEq, Eq, Structural, Debug, Hash)]
pub struct TrackInfoForBlock {
    pub track_num: u8,
    /// For an explicit track its least value; for an implicit one its base.
    pub lo_val: i64,
    /// For an explicit track its greatest value; for an implicit one its
    /// factor.
    pub hi_val: i64,
    pub implicit: bool,
    pub rows: u16,
    pub end_pos: i64,
}

/// Chunk `c` of `s`: entries `256 * c` up to `256 * c + 256`.
pub open spec fn chunk_of<T>(s: Seq<T>, c: int) -> Seq<T> {
    s.subrange(
        256 * c,
        if 256 * c + 256 <= s.len() {
            256 * c + 256
        } else {
            s.len() as int
        },
    )
}

/// The number of chunks of 256 that hold `len` entries.
pub open spec fn num_chunks(len: int) -> int {
    (len + 255) / 256
}

/// The first `n` integer dict-entry chunks of `dict`.
pub open spec fn int_dict_chunks_bytes(dict: Seq<i64>, n: int) -> Seq<u8>
    decreases n,
{
    if n <= 0 {
        Seq::empty()
    } else {
        int_dict_chunks_bytes(dict, n - 1) + packed_bytes(chunk_of(dict, n - 1))
    }
}

/// The first `n` dict-code chunks of `codes`.
pub open spec fn code_chunks_bytes(codes: Seq<u16>, n: int) -> Seq<u8>
    decreases n,
{
    if n <= 0 {
        Seq::empty()
    } else {
        code_chunks_bytes(codes, n - 1) + code_chunk_bytes(chunk_of(codes, n - 1))
    }
}

/// The body of an explicit integer track: the dictionary's length, its
/// chunks, then the code chunks.
pub open spec fn int_track_body(dict: Seq<i64>, codes: Seq<u16>) -> Seq<u8> {
    le_bytes(dict.len() as u64, 2) + int_dict_chunks_bytes(dict, num_chunks(dict.len() as int))
        + code_chunks_bytes(codes, num_chunks(codes.len() as int))
}

/// `m` records the code chunks of `codes`: the first chunks populated, and
/// for each its least and greatest code and how it is coded.
pub open spec fn records_code_chunks(m: TrackMeta, codes: Seq<u16>, k: int) -> bool {
    &&& m.code_chunk_populated@ == Seq::new(256, |i: int| i < k)
    &&& m.code_chunk_two_bytes@ == Seq::new(256, |i: int| i < k && any_two_bytes(chunk_of(codes, i)))
    &&& m.code_chunk_run_coded@ == Seq::new(256, |i: int| i < k && use_run_coding(chunk_of(codes, i)))
    &&& m.code_chunk_mins@.len() == k
    &&& m.code_chunk_maxs@.len() == k
    &&& forall|c: int| 0 <= c < k ==> chunk_of(codes, c).contains(#[trigger] m.code_chunk_mins@[c])
    &&& forall|c: int| 0 <= c < k ==> chunk_of(codes, c).contains(#[trigger] m.code_chunk_maxs@[c])
    &&& forall|c: int, j: int| 0 <= c < k && 0 <= j < chunk_of(codes, c).len() ==> #[trigger] m.code_chunk_mins@[c] <= #[trigger] chunk_of(codes, c)[j] <= m.code_chunk_maxs@[c]
}

/// `m` records the widths of the first `k` integer dict-entry chunks of
/// `dict`.
pub open spec fn records_int_dict_chunks(m: TrackMeta, dict: Seq<i64>, k: int) -> bool {
    &&& m.dict_val_chunk_tys@ == Seq::new(256, |i: int| if i < k {
        narrowest_width(chunk_of(dict, i), min_as_unsigned(chunk_of(dict, i)))
    } else {
        WordTy::Word1
    })
    &&& m.dict_bin_len_chunk_tys@ == Seq::new(256, |i: int| WordTy::Word1)
    &&& m.dict_bin_large@ == Seq::new(256, |i: int| false)
    &&& m.dict_bin_off_tys@ == Seq::new(256, |i: int| WordTy::Word1)
}

/// The least value of `xs`.
pub open spec fn is_least(xs: Seq<i64>, v: i64) -> bool {
    xs.contains(v) && forall|i: int| 0 <= i < xs.len() ==> v <= #[trigger] xs[i]
}

/// The greatest value of `xs`.
pub open spec fn is_greatest(xs: Seq<i64>, v: i64) -> bool {
    xs.contains(v) && forall|i: int| 0 <= i < xs.len() ==> #[trigger] xs[i] <= v
}

proof fn lemma_count_prefix(m: int, k: int)
    requires
        0 <= m,
        0 <= k,
    ensures
        count_true(Seq::new(m as nat, |i: int| i < k)) == if m < k { m } else { k },
    decreases m,
{
    if m > 0 {
        assert(Seq::new(m as nat, |i: int| i < k).drop_last() =~= Seq::new((m - 1) as nat, |i: int| i < k));
        lemma_count_prefix(m - 1, k);
    }
}

proof fn lemma_chunk_min_max(m: TrackMeta, codes: Seq<u16>, k: int, c: int, j: int)
    requires
        records_code_chunks(m, codes, k),
        0 <= c < k,
        0 <= j < chunk_of(codes, c).len(),
    ensures
        m.code_chunk_mins@[c] <= chunk_of(codes, c)[j] <= m.code_chunk_maxs@[c],
{
}

#[verifier::spinoff_prover]
proof fn lemma_code_chunks_wf(m: TrackMeta, codes: Seq<u16>, k: int, n: int)
    requires
        records_code_chunks(m, codes, k),
        0 < codes.len(),
        256 * (k - 1) < codes.len() <= 256 * k,
        forall|j: int| 0 <= j < codes.len() ==> (#[trigger] codes[j] as int) < n,
    ensures
        forall|c: int| 0 <= c < k ==> #[trigger] m.code_chunk_mins@[c] <= m.code_chunk_maxs@[c] < n,
{
    assert forall|c: int| 0 <= c < k implies #[trigger] m.code_chunk_mins@[c] <= m.code_chunk_maxs@[c] < n by {
        let ch = chunk_of(codes, c);
        assert(256 * c < codes.len()) by (nonlinear_arith)
            requires
                0 <= c < k,
                256 * (k - 1) < codes.len(),
        ;
        assert(ch.len() > 0);
        lemma_chunk_min_max(m, codes, k, c, 0);
        assert(ch.contains(m.code_chunk_maxs@[c]));
        let j = choose|j: int| 0 <= j < ch.len() && ch[j] == m.code_chunk_maxs@[c];
        assert(ch[j] == codes[256 * c + j]);
    }
}

/// The longest bin for which a bin track is sure to be written: with at
/// most 0xFFFF rows, every heap offset then fits in an `i64`.
pub open spec fn bin_heap_max() -> int {
    0x100_0000_0000
}

/// Writes one track of a block.
pub struct TrackWriter {
    pub block_writer: BlockWriter,
    pub meta: TrackMeta,
    pub info: TrackInfoForBlock,
}

impl TrackWriter {
    /// Starts track `track_num` of the block.
    pub fn new(block_writer: BlockWriter, track_num: usize, wr: &mut MemWriter) -> (r: Result<Self, Error>)
        ensures
            r is Err <==> track_num > 255,
            r matches Err(e) ==> e == Error::TooManyTracks,
            r matches Ok(t) ==> t.block_writer == block_writer && track_meta_is_empty(t.meta) && t.info
                == (TrackInfoForBlock {
                track_num: track_num as u8,
                lo_val: 0,
                hi_val: 0,
                implicit: false,
                rows: 0,
                end_pos: 0,
            }),
            final(wr)@ == old(wr)@,
    {
        if track_num > 255 {
            return Err(Error::TooManyTracks);
        }
        wr.push_context("track");
        wr.push_context_num(track_num);
        let info = TrackInfoForBlock {
            track_num: track_num as u8,
            lo_val: 0,
            hi_val: 0,
            implicit: false,
            rows: 0,
            end_pos: 0,
        };
        Ok(TrackWriter { block_writer, meta: TrackMeta::new(), info })
    }

    /// Records the widths of dict-entry chunk `chunk_num`.
    pub fn note_dict_entry_chunk_finished(&mut self, chunk_num: u8, meta: &DictEntryChunkMeta)
        ensures
            final(self).block_writer == old(self).block_writer,
            final(self).info == old(self).info,
            final(self).meta.dict_val_chunk_tys@ == match meta.val_ty {
                Some(t) => old(self).meta.dict_val_chunk_tys@.update(chunk_num as int, t),
                None => old(self).meta.dict_val_chunk_tys@,
            },
            final(self).meta.dict_bin_len_chunk_tys@ == match meta.bin_len_ty {
                Some(t) => old(self).meta.dict_bin_len_chunk_tys@.update(chunk_num as int, t),
                None => old(self).meta.dict_bin_len_chunk_tys@,
            },
            final(self).meta.dict_bin_off_tys@ == match meta.bin_off_ty {
                Some(t) => old(self).meta.dict_bin_off_tys@.update(chunk_num as int, t),
                None => old(self).meta.dict_bin_off_tys@,
            },
            final(self).meta.dict_bin_large@ == if meta.any_bin_large {
                old(self).meta.dict_bin_large@.update(chunk_num as int, true)
            } else {
                old(self).meta.dict_bin_large@
            },
            final(self).meta.code_chunk_populated == old(self).meta.code_chunk_populated,
            final(self).meta.code_chunk_two_bytes == old(self).meta.code_chunk_two_bytes,
            final(self).meta.code_chunk_run_coded == old(self).meta.code_chunk_run_coded,
            final(self).meta.code_chunk_mins == old(self).meta.code_chunk_mins,
            final(self).meta.code_chunk_maxs == old(self).meta.code_chunk_maxs,
            final(self).meta.dict_entry_count == old(self).meta.dict_entry_count,
    {
        match meta.val_ty {
            Some(t) => self.meta.dict_val_chunk_tys.set_word_ty(chunk_num, t),
            None => {},
        }
        match meta.bin_len_ty {
            Some(t) => self.meta.dict_bin_len_chunk_tys.set_word_ty(chunk_num, t),
            None => {},
        }
        match meta.bin_off_ty {
            Some(t) => self.meta.dict_bin_off_tys.set_word_ty(chunk_num, t),
            None => {},
        }
        if meta.any_bin_large {
            self.meta.dict_bin_large.set(chunk_num, true);
        }
    }

    /// Records the next code chunk.
    pub fn note_dict_code_chunk_finished(&mut self, meta: &DictCodeChunkMeta) -> (r: Result<(), Error>)
        ensures
            r is Err <==> old(self).meta.code_chunk_maxs@.len() > 255,
            r matches Err(e) ==> e == Error::TooManyChunks && *final(self) == *old(self),
            final(self).block_writer == old(self).block_writer,
            final(self).info == old(self).info,
            r is Ok ==> {
                let c = old(self).meta.code_chunk_maxs@.len() as int;
                &&& final(self).meta.code_chunk_populated@ == old(self).meta.code_chunk_populated@.update(c, true)
                &&& final(self).meta.code_chunk_two_bytes@ == old(self).meta.code_chunk_two_bytes@.update(c, meta.two_bytes)
                &&& final(self).meta.code_chunk_run_coded@ == old(self).meta.code_chunk_run_coded@.update(c, meta.run_coded)
                &&& final(self).meta.code_chunk_mins@ == old(self).meta.code_chunk_mins@.push(meta.min_dict_code)
                &&& final(self).meta.code_chunk_maxs@ == old(self).meta.code_chunk_maxs@.push(meta.max_dict_code)
            },
            final(self).meta.dict_entry_count == old(self).meta.dict_entry_count,
            final(self).meta.dict_val_chunk_tys == old(self).meta.dict_val_chunk_tys,
            final(self).meta.dict_bin_len_chunk_tys == old(self).meta.dict_bin_len_chunk_tys,
            final(self).meta.dict_bin_off_tys == old(self).meta.dict_bin_off_tys,
            final(self).meta.dict_bin_large == old(self).meta.dict_bin_large,
    {
        let chunk_num = self.meta.code_chunk_maxs.len();
        if chunk_num > 255 {
            return Err(Error::TooManyChunks);
        }
        self.meta.code_chunk_populated.set(chunk_num as u8, true);
        self.meta.code_chunk_two_bytes.set(chunk_num as u8, meta.two_bytes);
        self.meta.code_chunk_run_coded.set(chunk_num as u8, meta.run_coded);
        self.meta.code_chunk_mins.push(meta.min_dict_code);
        self.meta.code_chunk_maxs.push(meta.max_dict_code);
        Ok(())
    }
}

proof fn lemma_num_chunks(n: int, c: int)
    requires
        0 < n,
        256 * (c - 1) < n <= 256 * c,
    ensures
        num_chunks(n) == c,
{
    assert((n + 255) / 256 == c) by (nonlinear_arith)
        requires
            0 < n,
            256 * (c - 1) < n <= 256 * c,
    ;
}

impl TrackWriter {
    /// Writes `vals` as an explicit integer track: its dictionary in chunks
    /// of 256 entries, then its codes in chunks of 256 rows.
    #[verifier::spinoff_prover]
    pub fn write_dict_encoded(self, vals: &[i64], wr: &mut MemWriter) -> (r: Result<Self, Error>)
        requires
            track_meta_is_empty(self.meta),
        ensures
            r is Err <==> vals@.len() > 0xffff,
            r matches Err(e) ==> e == Error::TooManyRows,
            r matches Ok(t) ==> t.block_writer == self.block_writer && t.info.track_num
                == self.info.track_num && t.info.end_pos == self.info.end_pos && !t.info.implicit
                && t.info.rows == vals@.len(),
            r matches Ok(t) ==> (vals@.len() == 0 ==> t.meta == self.meta && t.info.lo_val
                == self.info.lo_val && t.info.hi_val == self.info.hi_val && final(wr)@ == old(wr)@),
            r matches Ok(t) ==> (vals@.len() > 0 ==> {
                &&& is_least(vals@, t.info.lo_val)
                &&& is_greatest(vals@, t.info.hi_val)
                &&& track_meta_wf(t.meta)
                &&& exists|dict: Seq<i64>, codes: Seq<u16>|
                    {
                        &&& is_dict_encoding(vals@, dict, codes)
                        &&& t.meta.dict_entry_count == dict.len()
                        &&& final(wr)@ == old(wr)@ + int_track_body(dict, codes)
                        &&& records_int_dict_chunks(t.meta, dict, num_chunks(dict.len() as int))
                        &&& records_code_chunks(t.meta, codes, num_chunks(codes.len() as int))
                    }
            }),
    {
        if vals.len() > 0xffff {
            return Err(Error::TooManyRows);
        }
        let mut t = self;
        t.info.rows = vals.len() as u16;
        t.info.implicit = false;
        if vals.len() == 0 {
            return Ok(t);
        }
        let (dict, codes) = match dict_encode(vals) {
            Ok(p) => p,
            Err(e) => {
                return Err(e);
            },
        };
        let n = dict.len();
        proof {
            assert(codes@[0] < n);
        }
        t.info.lo_val = dict[0];
        t.info.hi_val = dict[n - 1];
        proof {
            assert(vals@.contains(dict@[0]));
            assert(vals@.contains(dict@[n - 1]));
            assert forall|i: int| 0 <= i < vals@.len() implies dict@[0] <= #[trigger] vals@[i] <= dict@[n - 1] by {
                let k = codes@[i] as int;
                assert(dict@[k] == vals@[i]);
                if k > 0 {
                    assert(dict@[0] < dict@[k]);
                }
                if k < n - 1 {
                    assert(dict@[k] < dict@[n - 1]);
                }
            }
        }
        t.meta.dict_entry_count = n as u16;
        wr.push_context("dict_entry_chunks");
        wr.write_annotated_le_u16("len", n as u16);
        let ghost header = wr@;
        proof {
            assert(header == old(wr)@ + le_bytes(n as u64, 2));
            assert(t.meta.dict_val_chunk_tys@ =~= Seq::new(256, |i: int| if i < 0 {
                narrowest_width(chunk_of(dict@, i), min_as_unsigned(chunk_of(dict@, i)))
            } else {
                WordTy::Word1
            }));
            assert(header + int_dict_chunks_bytes(dict@, 0) =~= header);
        }
        let mut c: usize = 0;
        while c * 256 < n
            invariant
                0 < n <= 0xffff,
                n == dict@.len(),
                c * 256 <= n + 255,
                wr@ == header + int_dict_chunks_bytes(dict@, c as int),
                records_int_dict_chunks(t.meta, dict@, c as int),
                t.meta.code_chunk_populated@ == Seq::new(256, |i: int| false),
                t.meta.code_chunk_two_bytes@ == Seq::new(256, |i: int| false),
                t.meta.code_chunk_run_coded@ == Seq::new(256, |i: int| false),
                t.meta.code_chunk_mins@.len() == 0,
                t.meta.code_chunk_maxs@.len() == 0,
                t.meta.dict_entry_count == n,
                t.block_writer == self.block_writer,
                t.info.track_num == self.info.track_num,
                t.info.end_pos == self.info.end_pos,
                !t.info.implicit,
                t.info.rows == vals@.len(),
                t.info.lo_val == dict@[0],
                t.info.hi_val == dict@[n - 1],
            decreases n + 256 - c * 256,
        {
            let start = c * 256;
            let end = if n - start > 256 {
                start + 256
            } else {
                n
            };
            let chunk = slice_subrange(dict.as_slice(), start, end);
            proof {
                assert(chunk@ == chunk_of(dict@, c as int));
            }
            let m = write_int_dict_entry_chunk(chunk, wr);
            let ghost before = t.meta.dict_val_chunk_tys@;
            t.note_dict_entry_chunk_finished(c as u8, &m);
            proof {
                assert(t.meta.dict_val_chunk_tys@ =~= Seq::new(256, |i: int| if i < c + 1 {
                    narrowest_width(chunk_of(dict@, i), min_as_unsigned(chunk_of(dict@, i)))
                } else {
                    WordTy::Word1
                }));
                assert(wr@ =~= header + int_dict_chunks_bytes(dict@, c + 1));
            }
            c = c + 1;
        }
        proof {
            lemma_num_chunks(n as int, c as int);
        }
        wr.pop_context();
        let ghost mid = wr@;
        let m_codes = codes.len();
        wr.push_context("dict_code_chunks");
        proof {
            assert(t.meta.code_chunk_populated@ =~= Seq::new(256, |i: int| i < 0));
            assert(t.meta.code_chunk_two_bytes@ =~= Seq::new(256, |i: int| i < 0 && any_two_bytes(chunk_of(codes@, i))));
            assert(t.meta.code_chunk_run_coded@ =~= Seq::new(256, |i: int| i < 0 && use_run_coding(chunk_of(codes@, i))));
            assert(mid + code_chunks_bytes(codes@, 0) =~= mid);
        }
        let mut k: usize = 0;
        while k * 256 < m_codes
            invariant
                0 < n <= 0xffff,
                n == dict@.len(),
                m_codes == codes@.len(),
                m_codes == vals@.len(),
                0 < m_codes <= 0xffff,
                forall|j: int| 0 <= j < m_codes ==> (#[trigger] codes@[j] as int) < n,
                k * 256 <= m_codes + 255,
                wr@ == mid + code_chunks_bytes(codes@, k as int),
                records_code_chunks(t.meta, codes@, k as int),
                records_int_dict_chunks(t.meta, dict@, num_chunks(n as int)),
                t.meta.dict_entry_count == n,
                t.block_writer == self.block_writer,
                t.info.track_num == self.info.track_num,
                t.info.end_pos == self.info.end_pos,
                !t.info.implicit,
                t.info.rows == vals@.len(),
                t.info.lo_val == dict@[0],
                t.info.hi_val == dict@[n - 1],
            decreases m_codes + 256 - k * 256,
        {
            let start = k * 256;
            let end = if m_codes - start > 256 {
                start + 256
            } else {
                m_codes
            };
            let chunk = slice_subrange(codes.as_slice(), start, end);
            proof {
                assert(chunk@ == chunk_of(codes@, k as int));
            }
            let m = write_dict_codes(chunk, wr);
            let ghost before = t.meta;
            let noted = t.note_dict_code_chunk_finished(&m);
            match noted {
                Ok(()) => {},
                Err(e) => {
                    return Err(e);
                },
            }
            proof {
                let kk = k as int;
                assert(t.meta.code_chunk_populated@ =~= Seq::new(256, |i: int| i < kk + 1));
                assert(t.meta.code_chunk_two_bytes@ =~= Seq::new(256, |i: int| i < kk + 1 && any_two_bytes(chunk_of(codes@, i))));
                assert(t.meta.code_chunk_run_coded@ =~= Seq::new(256, |i: int| i < kk + 1 && use_run_coding(chunk_of(codes@, i))));
                assert forall|c2: int| 0 <= c2 < kk + 1 implies chunk_of(codes@, c2).contains(#[trigger] t.meta.code_chunk_mins@[c2]) by {
                    if c2 < kk {
                        assert(t.meta.code_chunk_mins@[c2] == before.code_chunk_mins@[c2]);
                    }
                }
                assert forall|c2: int| 0 <= c2 < kk + 1 implies chunk_of(codes@, c2).contains(#[trigger] t.meta.code_chunk_maxs@[c2]) by {
                    if c2 < kk {
                        assert(t.meta.code_chunk_maxs@[c2] == before.code_chunk_maxs@[c2]);
                    }
                }
                assert forall|c2: int, j: int| 0 <= c2 < kk + 1 && 0 <= j < chunk_of(codes@, c2).len() implies #[trigger] t.meta.code_chunk_mins@[c2] <= #[trigger] chunk_of(codes@, c2)[j] <= t.meta.code_chunk_maxs@[c2] by {
                    if c2 < kk {
                        assert(t.meta.code_chunk_mins@[c2] == before.code_chunk_mins@[c2]);
                        assert(t.meta.code_chunk_maxs@[c2] == before.code_chunk_maxs@[c2]);
                    } else {
                        assert(chunk@[j] == chunk_of(codes@, c2)[j]);
                    }
                }
                assert(wr@ =~= mid + code_chunks_bytes(codes@, kk + 1));
            }
            k = k + 1;
        }
        wr.pop_context();
        proof {
            lemma_num_chunks(m_codes as int, k as int);
            lemma_count_prefix(256, k as int);
            lemma_code_chunks_wf(t.meta, codes@, k as int, n as int);
            assert(wr@ =~= old(wr)@ + int_track_body(dict@, codes@));
            assert(is_dict_encoding(vals@, dict@, codes@));
        }
        Ok(t)
    }
}

impl TrackWriter {
    /// Ends the track: writes its metadata footer and reports the track to
    /// its block.
    pub fn finish_track(self, wr: &mut MemWriter) -> (r: Result<BlockWriter, Error>)
        ensures
            r matches Err(e) ==> e == Error::LengthMismatch || e == Error::CountTooLarge,
            (self.meta.code_chunk_mins@.len() == self.meta.code_chunk_maxs@.len()
                && self.meta.code_chunk_mins@.len() == count_true(self.meta.code_chunk_populated@)
                && old(wr)@.len() + footer(track_meta_bytes(self.meta)).len() <= i64::MAX) ==> r is Ok,
            r matches Ok(b) ==> {
                &&& final(wr)@ == old(wr)@ + footer(track_meta_bytes(self.meta))
                &&& b.layer_writer == self.block_writer.layer_writer
                &&& b.info == self.block_writer.info
                &&& b.meta.track_lo_vals@ == self.block_writer.meta.track_lo_vals@.push(self.info.lo_val)
                &&& b.meta.track_hi_vals@ == self.block_writer.meta.track_hi_vals@.push(self.info.hi_val)
                &&& b.meta.track_rows@ == self.block_writer.meta.track_rows@.push(self.info.rows)
                &&& b.meta.track_end_offsets@ == self.block_writer.meta.track_end_offsets@.push(final(wr)@.len() as i64)
                &&& b.meta.track_implicit@ == self.block_writer.meta.track_implicit@.update(self.info.track_num as int, self.info.implicit)
            },
    {
        let mut t = self;
        t.meta.write(wr)?;
        let end = wr.pos()?;
        t.info.end_pos = end;
        wr.pop_context();
        wr.pop_context();
        t.block_writer.note_track_finished(&t.info);
        Ok(t.block_writer)
    }
}

/// The first `n` bin dict-entry chunks of `dict`, whose heap offsets are
/// `offs`.
pub open spec fn bin_dict_chunks_bytes(dict: Seq<Seq<u8>>, offs: Seq<i64>, n: int) -> Seq<u8>
    decreases n,
{
    if n <= 0 {
        Seq::empty()
    } else {
        bin_dict_chunks_bytes(dict, offs, n - 1) + bin_chunk_bytes(chunk_of(dict, n - 1), chunk_of(offs, n - 1))
    }
}

/// The heap at the end of a track body: its length and bytes, or nothing
/// where it is empty.
pub open spec fn heap_bytes(heap: Seq<u8>) -> Seq<u8> {
    if heap.len() == 0 {
        Seq::empty()
    } else {
        le_bytes(heap.len() as u64, 8) + heap
    }
}

/// The body of an explicit bin track whose heap ends up as `heap`.
pub open spec fn bin_track_body(dict: Seq<Seq<u8>>, offs: Seq<i64>, codes: Seq<u16>, heap: Seq<u8>) -> Seq<u8> {
    le_bytes(dict.len() as u64, 2) + bin_dict_chunks_bytes(dict, offs, num_chunks(dict.len() as int))
        + code_chunks_bytes(codes, num_chunks(codes.len() as int)) + heap_bytes(heap)
}

/// Each entry of a chunk with a large bin occurs in `heap` at its offset.
pub open spec fn offsets_locate(dict: Seq<Seq<u8>>, offs: Seq<i64>, heap: Seq<u8>, n: int) -> bool {
    forall|c: int, j: int|
        0 <= c < n && any_bin_large(chunk_of(dict, c)) && 0 <= j < chunk_of(dict, c).len()
            ==> occurs_at(heap, #[trigger] chunk_of(dict, c)[j], #[trigger] chunk_of(offs, c)[j] as int)
}

proof fn lemma_occurs_extends(before: Seq<u8>, after: Seq<u8>, n: Seq<u8>, p: int)
    requires
        before.len() <= after.len(),
        after.subrange(0, before.len() as int) == before,
        occurs_at(before, n, p),
    ensures
        occurs_at(after, n, p),
{
    assert(after.subrange(p, p + n.len()) =~= before.subrange(p, p + n.len()));
}

impl TrackWriter {
    /// Writes the byte strings `vals` as an explicit bin track: its
    /// dictionary in chunks of 256 entries (long bins kept in the track's
    /// heap), its codes in chunks of 256 rows, then the heap.
    #[verifier::rlimit(100)]
    #[verifier::spinoff_prover]
    pub fn write_dict_encoded_bins(self, vals: &[Vec<u8>], wr: &mut MemWriter) -> (r: Result<Self, Error>)
        requires
            track_meta_is_empty(self.meta),
        ensures
            vals@.len() > 0xffff ==> r == Err::<Self, Error>(Error::TooManyRows),
            r matches Err(e) ==> e == Error::TooManyRows || e == Error::CountTooLarge,
            (vals@.len() <= 0xffff && forall|i: int| 0 <= i < vals@.len() ==> (#[trigger] vals@[i])@.len()
                <= bin_heap_max()) ==> r is Ok,
            r matches Ok(t) ==> t.block_writer == self.block_writer && t.info.track_num
                == self.info.track_num && t.info.end_pos == self.info.end_pos && !t.info.implicit
                && t.info.rows == vals@.len(),
            r matches Ok(t) ==> (vals@.len() == 0 ==> t.meta == self.meta && t.info.lo_val
                == self.info.lo_val && t.info.hi_val == self.info.hi_val && final(wr)@ == old(wr)@),
            r matches Ok(t) ==> (vals@.len() > 0 ==> {
                &&& track_meta_wf(t.meta)
                &&& exists|dict: Seq<Seq<u8>>, codes: Seq<u16>, offs: Seq<i64>, heap: Seq<u8>|
                    {
                        &&& is_bin_dict_encoding(bins_view(vals@), dict, codes)
                        &&& t.info.lo_val as u64 == bin_prefix_of(dict[0])
                        &&& t.info.hi_val as u64 == bin_prefix_of(dict.last())
                        &&& t.meta.dict_entry_count == dict.len()
                        &&& offs.len() == dict.len()
                        &&& offsets_locate(dict, offs, heap, num_chunks(dict.len() as int))
                        &&& final(wr)@ == old(wr)@ + bin_track_body(dict, offs, codes, heap)
                        &&& t.meta.dict_bin_large@ == Seq::new(256, |c: int| c < num_chunks(dict.len() as int) && any_bin_large(chunk_of(dict, c)))
                        &&& records_code_chunks(t.meta, codes, num_chunks(codes.len() as int))
                    }
            }),
    {
        if vals.len() > 0xffff {
            return Err(Error::TooManyRows);
        }
        let mut t = self;
        t.info.rows = vals.len() as u16;
        t.info.implicit = false;
        if vals.len() == 0 {
            return Ok(t);
        }
        let (dict, codes) = match dict_encode_bins(vals) {
            Ok(p) => p,
            Err(e) => {
                return Err(e);
            },
        };
        let ghost dv = bins_view(dict@);
        let n = dict.len();
        proof {
            assert(codes@[0] < n);
        }
        t.info.lo_val = crate::bin::bin_prefix(dict[0].as_slice());
        t.info.hi_val = crate::bin::bin_prefix(dict[n - 1].as_slice());
        proof {
            assert(dv[0] == dict@[0]@);
            assert(dv.last() == dict@[n - 1]@);
        }
        t.meta.dict_entry_count = n as u16;
        let mut heap = Heap::new();
        wr.push_context("dict_entry_chunks");
        wr.write_annotated_le_u16("len", n as u16);
        let ghost header = wr@;
        proof {
            assert(header == old(wr)@ + le_bytes(n as u64, 2));
        }
        let ghost mut offs: Seq<i64> = Seq::empty();
        proof {
            assert(header + bin_dict_chunks_bytes(dv, offs, 0) =~= header);
            assert(t.meta.dict_bin_large@ =~= Seq::new(256, |c: int| c < 0 && any_bin_large(chunk_of(dv, c))));
        }
        let ghost bounded = forall|i: int| 0 <= i < vals@.len() ==> (#[trigger] vals@[i])@.len() <= bin_heap_max();
        proof {
            if bounded {
                assert forall|k: int| 0 <= k < n implies (#[trigger] dv[k]).len() <= bin_heap_max() by {
                    assert(bins_view(vals@).contains(dv[k]));
                    let j = choose|j: int| 0 <= j < bins_view(vals@).len() && bins_view(vals@)[j] == dv[k];
                    assert(bins_view(vals@)[j] == vals@[j]@);
                }
            }
        }
        let mut c: usize = 0;
        while c * 256 < n
            invariant
                0 < n <= 0xffff,
                n == dict@.len(),
                dv == bins_view(dict@),
                c * 256 <= n + 255,
                offs.len() == if c * 256 <= n { c * 256 } else { n as int },
                wr@ == header + bin_dict_chunks_bytes(dv, offs, c as int),
                offsets_locate(dv, offs, heap.data@, c as int),
                bounded == forall|i: int| 0 <= i < vals@.len() ==> (#[trigger] vals@[i])@.len() <= bin_heap_max(),
                bounded ==> forall|k: int| 0 <= k < n ==> (#[trigger] dv[k]).len() <= bin_heap_max(),
                bounded ==> heap.data@.len() <= c * 0x1_0000_0000_0000,
                t.meta.dict_bin_large@ == Seq::new(256, |k: int| k < c && any_bin_large(chunk_of(dv, k))),
                t.meta.code_chunk_populated@ == Seq::new(256, |i: int| false),
                t.meta.code_chunk_two_bytes@ == Seq::new(256, |i: int| false),
                t.meta.code_chunk_run_coded@ == Seq::new(256, |i: int| false),
                t.meta.code_chunk_mins@.len() == 0,
                t.meta.code_chunk_maxs@.len() == 0,
                t.meta.dict_entry_count == n,
                t.block_writer == self.block_writer,
                t.info.track_num == self.info.track_num,
                t.info.end_pos == self.info.end_pos,
                !t.info.implicit,
                t.info.rows == vals@.len(),
                t.info.lo_val as u64 == bin_prefix_of(dv[0]),
                t.info.hi_val as u64 == bin_prefix_of(dv.last()),
            decreases n + 256 - c * 256,
        {
            let start = c * 256;
            let end = if n - start > 256 {
                start + 256
            } else {
                n
            };
            let chunk = slice_subrange(dict.as_slice(), start, end);
            let ghost heap_before = heap.data@;
            proof {
                assert(bins_view(chunk@) =~= chunk_of(dv, c as int));
                if bounded {
                    let ch = chunk_of(dv, c as int);
                    lemma_total_len_bound(ch, bin_heap_max());
                    assert(ch.len() <= 256);
                    assert(ch.len() * bin_heap_max() <= 256 * 0x100_0000_0000) by (nonlinear_arith)
                        requires
                            ch.len() <= 256,
                            bin_heap_max() == 0x100_0000_0000,
                    ;
                    assert(c <= 255);
                    assert(heap_before.len() + total_len(bins_view(chunk@)) <= i64::MAX);
                }
            }
            let m = write_bin_dict_entry_chunk(chunk, wr, &mut heap)?;
            let ghost chunk_offs = choose|o: Seq<i64>|
                o.len() == chunk@.len() && (any_bin_large(bins_view(chunk@)) ==> forall|i: int|
                    0 <= i < chunk@.len() ==> occurs_at(heap.data@, chunk@[i]@, #[trigger] o[i] as int))
                    && wr@ == header + bin_dict_chunks_bytes(dv, offs, c as int) + bin_chunk_bytes(bins_view(chunk@), o);
            let ghost new_offs = offs + chunk_offs;
            proof {
                assert(bins_view(chunk@) =~= chunk_of(dv, c as int));
                assert(chunk_of(new_offs, c as int) =~= chunk_offs);
                assert forall|k: int| 0 <= k < c implies chunk_of(new_offs, k) == chunk_of(offs, k) by {
                    assert(chunk_of(new_offs, k) =~= chunk_of(offs, k));
                }
                assert(bin_dict_chunks_bytes(dv, new_offs, c as int) == bin_dict_chunks_bytes(dv, offs, c as int)) by {
                    lemma_bin_chunks_prefix(dv, offs, new_offs, c as int);
                }
                assert forall|k: int, j: int|
                    0 <= k < c + 1 && any_bin_large(chunk_of(dv, k)) && 0 <= j < chunk_of(dv, k).len()
                        implies occurs_at(heap.data@, #[trigger] chunk_of(dv, k)[j], #[trigger] chunk_of(new_offs, k)[j] as int) by {
                    if k < c {
                        assert(chunk_of(new_offs, k) == chunk_of(offs, k));
                        assert(occurs_at(heap_before, chunk_of(dv, k)[j], chunk_of(offs, k)[j] as int));
                        lemma_occurs_extends(heap_before, heap.data@, chunk_of(dv, k)[j], chunk_of(offs, k)[j] as int);
                    } else {
                        assert(chunk_of(dv, k)[j] == chunk@[j]@);
                    }
                }
            }
            t.note_dict_entry_chunk_finished(c as u8, &m);
            proof {
                offs = new_offs;
                assert(t.meta.dict_bin_large@ =~= Seq::new(256, |k: int| k < c + 1 && any_bin_large(chunk_of(dv, k))));
                assert(wr@ =~= header + bin_dict_chunks_bytes(dv, offs, c + 1));
            }
            c = c + 1;
        }
        proof {
            lemma_num_chunks(n as int, c as int);
        }
        wr.pop_context();
        let ghost mid = wr@;
        let m_codes = codes.len();
        wr.push_context("dict_code_chunks");
        proof {
            assert(t.meta.code_chunk_populated@ =~= Seq::new(256, |i: int| i < 0));
            assert(t.meta.code_chunk_two_bytes@ =~= Seq::new(256, |i: int| i < 0 && any_two_bytes(chunk_of(codes@, i))));
            assert(t.meta.code_chunk_run_coded@ =~= Seq::new(256, |i: int| i < 0 && use_run_coding(chunk_of(codes@, i))));
            assert(mid + code_chunks_bytes(codes@, 0) =~= mid);
        }
        let mut k: usize = 0;
        while k * 256 < m_codes
            invariant
                0 < n <= 0xffff,
                n == dict@.len(),
                m_codes == codes@.len(),
                m_codes == vals@.len(),
                0 < m_codes <= 0xffff,
                forall|j: int| 0 <= j < m_codes ==> (#[trigger] codes@[j] as int) < n,
                k * 256 <= m_codes + 255,
                wr@ == mid + code_chunks_bytes(codes@, k as int),
                records_code_chunks(t.meta, codes@, k as int),
                t.meta.dict_bin_large@ == Seq::new(256, |c: int| c < num_chunks(n as int) && any_bin_large(chunk_of(dv, c))),
                t.meta.dict_entry_count == n,
                t.info.lo_val as u64 == bin_prefix_of(dv[0]),
                t.info.hi_val as u64 == bin_prefix_of(dv.last()),
                dv == bins_view(dict@),
                is_bin_dict_encoding(bins_view(vals@), dv, codes@),
                offs.len() == n,
                offsets_locate(dv, offs, heap.data@, num_chunks(n as int)),
                mid == header + bin_dict_chunks_bytes(dv, offs, num_chunks(n as int)),
                header == old(wr)@ + le_bytes(n as u64, 2),
                t.block_writer == self.block_writer,
                t.info.track_num == self.info.track_num,
                t.info.end_pos == self.info.end_pos,
                !t.info.implicit,
                t.info.rows == vals@.len(),
            decreases m_codes + 256 - k * 256,
        {
            let start = k * 256;
            let end = if m_codes - start > 256 {
                start + 256
            } else {
                m_codes
            };
            let chunk = slice_subrange(codes.as_slice(), start, end);
            proof {
                assert(chunk@ == chunk_of(codes@, k as int));
            }
            let m = write_dict_codes(chunk, wr);
            let ghost before = t.meta;
            let noted = t.note_dict_code_chunk_finished(&m);
            match noted {
                Ok(()) => {},
                Err(e) => {
                    return Err(e);
                },
            }
            proof {
                let kk = k as int;
                assert(t.meta.code_chunk_populated@ =~= Seq::new(256, |i: int| i < kk + 1));
                assert(t.meta.code_chunk_two_bytes@ =~= Seq::new(256, |i: int| i < kk + 1 && any_two_bytes(chunk_of(codes@, i))));
                assert(t.meta.code_chunk_run_coded@ =~= Seq::new(256, |i: int| i < kk + 1 && use_run_coding(chunk_of(codes@, i))));
                assert forall|c2: int| 0 <= c2 < kk + 1 implies chunk_of(codes@, c2).contains(#[trigger] t.meta.code_chunk_mins@[c2]) by {
                    if c2 < kk {
                        assert(t.meta.code_chunk_mins@[c2] == before.code_chunk_mins@[c2]);
                    }
                }
                assert forall|c2: int| 0 <= c2 < kk + 1 implies chunk_of(codes@, c2).contains(#[trigger] t.meta.code_chunk_maxs@[c2]) by {
                    if c2 < kk {
                        assert(t.meta.code_chunk_maxs@[c2] == before.code_chunk_maxs@[c2]);
                    }
                }
                assert forall|c2: int, j: int| 0 <= c2 < kk + 1 && 0 <= j < chunk_of(codes@, c2).len() implies #[trigger] t.meta.code_chunk_mins@[c2] <= #[trigger] chunk_of(codes@, c2)[j] <= t.meta.code_chunk_maxs@[c2] by {
                    if c2 < kk {
                        assert(t.meta.code_chunk_mins@[c2] == before.code_chunk_mins@[c2]);
                        assert(t.meta.code_chunk_maxs@[c2] == before.code_chunk_maxs@[c2]);
                    } else {
                        assert(chunk@[j] == chunk_of(codes@, c2)[j]);
                    }
                }
                assert(wr@ =~= mid + code_chunks_bytes(codes@, kk + 1));
            }
            k = k + 1;
        }
        wr.pop_context();
        let ghost before_heap = wr@;
        if heap.data.len() > 0 {
            wr.push_context("heap");
            wr.write_annotated_le_u64("len", heap.data.len() as u64);
            wr.write_annotated_byte_slice("data", heap.data.as_slice());
            wr.pop_context();
        }
        proof {
            lemma_num_chunks(m_codes as int, k as int);
            lemma_count_prefix(256, k as int);
            lemma_code_chunks_wf(t.meta, codes@, k as int, n as int);
            assert(wr@ =~= old(wr)@ + bin_track_body(dv, offs, codes@, heap.data@));
            assert(is_bin_dict_encoding(bins_view(vals@), dv, codes@));
            assert({
                &&& is_bin_dict_encoding(bins_view(vals@), dv, codes@)
                &&& t.info.lo_val as u64 == bin_prefix_of(dv[0])
                &&& t.info.hi_val as u64 == bin_prefix_of(dv.last())
                &&& t.meta.dict_entry_count == dv.len()
                &&& offs.len() == dv.len()
                &&& offsets_locate(dv, offs, heap.data@, num_chunks(dv.len() as int))
                &&& wr@ == old(wr)@ + bin_track_body(dv, offs, codes@, heap.data@)
                &&& t.meta.dict_bin_large@ == Seq::new(256, |c: int| c < num_chunks(dv.len() as int) && any_bin_large(chunk_of(dv, c)))
                &&& records_code_chunks(t.meta, codes@, num_chunks(codes@.len() as int))
            });
        }
        Ok(t)
    }
}

proof fn lemma_bin_chunks_prefix(dict: Seq<Seq<u8>>, a: Seq<i64>, b: Seq<i64>, n: int)
    requires
        forall|k: int| 0 <= k < n ==> chunk_of(b, k) == chunk_of(a, k),
    ensures
        bin_dict_chunks_bytes(dict, b, n) == bin_dict_chunks_bytes(dict, a, n),
    decreases n,
{
    if n > 0 {
        lemma_bin_chunks_prefix(dict, a, b, n - 1);
    }
}

impl TrackWriter {
    /// Makes the track implicit: `rows` rows described by `base` and
    /// `factor` alone, with no body.
    pub fn write_implicit(self, rows: usize, base: i64, factor: i64) -> (r: Result<Self, Error>)
        ensures
            r is Err <==> rows > 0xffff,
            r matches Err(e) ==> e == Error::TooManyRows,
            r matches Ok(t) ==> t.block_writer == self.block_writer && t.meta == self.meta && t.info == (
            TrackInfoForBlock {
                track_num: self.info.track_num,
                lo_val: base,
                hi_val: factor,
                implicit: true,
                rows: rows as u16,
                end_pos: self.info.end_pos,
            }),
    {
        if rows > 0xffff {
            return Err(Error::TooManyRows);
        }
        let mut t = self;
        t.info.rows = rows as u16;
        t.info.implicit = true;
        t.info.lo_val = base;
        t.info.hi_val = factor;
        Ok(t)
    }

    /// Writes `vals` as an implicit track where a rising step describes them
    /// (`base + row * step`, stored as the factor `step > 0`) or runs of one
    /// length `k` do (`base + row / k`, stored as the factor `-k < 0`), and
    /// as an explicit integer track otherwise.
    pub fn write_ints_detecting_implicit(self, vals: &[i64], wr: &mut MemWriter) -> (r: Result<Self, Error>)
        requires
            track_meta_is_empty(self.meta),
        ensures
            r is Err <==> vals@.len() > 0xffff,
            r matches Err(e) ==> e == Error::TooManyRows,
            r matches Ok(t) ==> t.block_writer == self.block_writer && t.info.track_num
                == self.info.track_num && t.info.end_pos == self.info.end_pos && t.info.rows == vals@.len(),
            r matches Ok(t) ==> (t.info.implicit <==> (vals@.len() >= 2 && ((exists|s: int|
                0 < s <= i64::MAX && #[trigger] is_pos_virt(vals@, s)) || (exists|k: int|
                #[trigger] is_neg_virt(vals@, k))))),
            r matches Ok(t) ==> (t.info.implicit ==> {
                &&& t.info.lo_val == vals@[0]
                &&& (t.info.hi_val > 0 && is_pos_virt(vals@, t.info.hi_val as int)) || (t.info.hi_val < 0
                    && is_neg_virt(vals@, -t.info.hi_val))
                &&& final(wr)@ == old(wr)@
                &&& t.meta == self.meta
            }),
            r matches Ok(t) ==> (!t.info.implicit && vals@.len() == 0 ==> t.meta == self.meta
                && t.info.lo_val == self.info.lo_val && t.info.hi_val == self.info.hi_val && final(wr)@ == old(wr)@),
            r matches Ok(t) ==> (!t.info.implicit && vals@.len() > 0 ==> {
                &&& is_least(vals@, t.info.lo_val)
                &&& is_greatest(vals@, t.info.hi_val)
                &&& track_meta_wf(t.meta)
                &&& exists|dict: Seq<i64>, codes: Seq<u16>|
                    {
                        &&& is_dict_encoding(vals@, dict, codes)
                        &&& t.meta.dict_entry_count == dict.len()
                        &&& final(wr)@ == old(wr)@ + int_track_body(dict, codes)
                        &&& records_int_dict_chunks(t.meta, dict, num_chunks(dict.len() as int))
                        &&& records_code_chunks(t.meta, codes, num_chunks(codes.len() as int))
                    }
            }),
    {
        if vals.len() > 0xffff {
            return Err(Error::TooManyRows);
        }
        match pos_virt_base_and_factor(vals) {
            Some((base, step)) => {
                if step > 0 {
                    return self.write_implicit(vals.len(), base, step);
                }
                proof {
                    assert forall|s: int| 0 < s <= i64::MAX implies !#[trigger] is_pos_virt(vals@, s) by {
                        if is_pos_virt(vals@, s) {
                            law_pos_virt_step_unique(vals@, s, step as int);
                        }
                    }
                }
            },
            None => {},
        }
        match neg_virt_base_and_factor(vals) {
            Some((base, factor)) => {
                proof {
                    assert(is_neg_virt(vals@, -factor));
                }
                return self.write_implicit(vals.len(), base, factor);
            },
            None => {},
        }
        proof {
            assert forall|k: int| !#[trigger] is_neg_virt(vals@, k) by {
                if vals@.len() < 2 && is_neg_virt(vals@, k) {
                    assert(false);
                }
            }
        }
        self.write_dict_encoded(vals, wr)
    }
}

/// The low value that an explicit integer track records is at most its high
/// value.
pub proof fn law_track_lo_le_hi(xs: Seq<i64>, lo: i64, hi: i64)
    requires
        is_least(xs, lo),
        is_greatest(xs, hi),
    ensures
        lo <= hi,
{
    let i = choose|i: int| 0 <= i < xs.len() && xs[i] == lo;
    assert(xs[i] <= hi);
}

} // verus!
