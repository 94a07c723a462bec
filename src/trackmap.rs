use vstd::prelude::*;

use crate::meta::TrackMeta;
use crate::track::num_chunks;

verus! {

/// The number of entries of chunk `c` when `total` entries fill chunks of
/// 256.
pub open spec fn entries_in_chunk(total: int, c: int) -> int {
    if total - 256 * c >= 256 {
        256
    } else {
        total - 256 * c
    }
}

/// The length of dict-entry chunk `c`, where the metadata determines it: a
/// chunk with a large bin also holds hashes, whose width is not recorded.
pub open spec fn dict_chunk_len(m: TrackMeta, is_bin: bool, c: int) -> Option<int> {
    let n = entries_in_chunk(m.dict_entry_count as int, c);
    if is_bin && m.dict_bin_large@[c] {
        None
    } else {
        Some(n * (m.dict_val_chunk_tys@[c].spec_len() + if is_bin {
            m.dict_bin_len_chunk_tys@[c].spec_len() as int
        } else {
            0
        }))
    }
}

/// The length of code chunk `c`, where the metadata determines it: a
/// run-end coded chunk's length depends on its number of runs, which is not
/// recorded.
pub open spec fn code_chunk_len(m: TrackMeta, rows: int, c: int) -> Option<int> {
    let n = entries_in_chunk(rows, c);
    if m.code_chunk_run_coded@[c] {
        None
    } else {
        Some(n * if m.code_chunk_two_bytes@[c] { 2int } else { 1int })
    }
}

/// The length of segment `i` of a track body: its dict-entry chunks, then
/// its code chunks.
pub open spec fn segment_len(m: TrackMeta, is_bin: bool, rows: int, i: int) -> Option<int> {
    let nd = num_chunks(m.dict_entry_count as int);
    if i < nd {
        dict_chunk_len(m, is_bin, i)
    } else {
        code_chunk_len(m, rows, i - nd)
    }
}

/// The offset of segment `i` from the start of the first dict-entry chunk
/// (just after the two-byte dictionary length), where the lengths of all
/// segments before it are known.
pub open spec fn segment_offset(m: TrackMeta, is_bin: bool, rows: int, i: int) -> Option<int>
    decreases i,
{
    if i <= 0 {
        Some(0)
    } else {
        match (segment_offset(m, is_bin, rows, i - 1), segment_len(m, is_bin, rows, i - 1)) {
            (Some(o), Some(l)) => Some(o + l),
            _ => None,
        }
    }
}

/// Where each chunk of a track starts, from the start of its first
/// dict-entry chunk.
pub struct TrackMap {
    pub dict_chunk_offsets: Vec<Option<i64>>,
    pub code_chunk_offsets: Vec<Option<i64>>,
    pub heap_offset: Option<i64>,
}

pub open spec fn as_int_offset(o: Option<i64>) -> Option<int> {
    match o {
        Some(v) => Some(v as int),
        None => None,
    }
}

proof fn lemma_entries_bound(total: int, c: int)
    requires
        0 <= total,
        0 <= c < num_chunks(total),
    ensures
        0 < entries_in_chunk(total, c) <= 256,
{
    assert(256 * c < total) by (nonlinear_arith)
        requires
            c < (total + 255) / 256,
            c >= 0,
            total >= 0,
    ;
}

proof fn lemma_segment_len_bound(m: TrackMeta, is_bin: bool, rows: int, i: int)
    requires
        0 <= i < num_chunks(m.dict_entry_count as int) + num_chunks(rows),
        0 <= rows,
    ensures
        segment_len(m, is_bin, rows, i) matches Some(l) ==> 0 <= l <= 256 * 16,
{
    let nd = num_chunks(m.dict_entry_count as int);
    if i < nd {
        lemma_entries_bound(m.dict_entry_count as int, i);
        let n = entries_in_chunk(m.dict_entry_count as int, i);
        let w = m.dict_val_chunk_tys@[i].spec_len() + if is_bin {
            m.dict_bin_len_chunk_tys@[i].spec_len() as int
        } else {
            0
        };
        assert(0 <= n * w <= 256 * 16) by (nonlinear_arith)
            requires
                0 <= n <= 256,
                0 <= w <= 16,
        ;
    } else {
        lemma_entries_bound(rows, i - nd);
    }
}

proof fn lemma_segment_bound(m: TrackMeta, is_bin: bool, rows: int, i: int)
    requires
        0 <= i <= num_chunks(m.dict_entry_count as int) + num_chunks(rows),
        0 <= rows,
    ensures
        segment_offset(m, is_bin, rows, i) matches Some(o) ==> 0 <= o <= 256 * 16 * i,
    decreases i,
{
    if i > 0 {
        lemma_segment_bound(m, is_bin, rows, i - 1);
        lemma_segment_len_bound(m, is_bin, rows, i - 1);
        match (segment_offset(m, is_bin, rows, i - 1), segment_len(m, is_bin, rows, i - 1)) {
            (Some(o), Some(l)) => {
                assert(segment_offset(m, is_bin, rows, i) == Some(o + l));
                assert(o + l <= 4096 * (i - 1) + 4096);
                assert(4096 * (i - 1) + 4096 == 256 * 16 * i);
            },
            _ => {
                assert(segment_offset(m, is_bin, rows, i) is None);
            },
        }
    }
}

impl TrackMap {
    /// Computes where each chunk of a track of `rows` rows starts.
    pub fn new(meta: &TrackMeta, is_bin: bool, rows: u16) -> (r: Self)
        ensures
            r.dict_chunk_offsets@.len() == num_chunks(meta.dict_entry_count as int),
            r.code_chunk_offsets@.len() == num_chunks(rows as int),
            forall|c: int| 0 <= c < r.dict_chunk_offsets@.len() ==> as_int_offset(#[trigger] r.dict_chunk_offsets@[c])
                == segment_offset(*meta, is_bin, rows as int, c),
            forall|c: int| 0 <= c < r.code_chunk_offsets@.len() ==> as_int_offset(#[trigger] r.code_chunk_offsets@[c])
                == segment_offset(*meta, is_bin, rows as int, num_chunks(meta.dict_entry_count as int) + c),
            as_int_offset(r.heap_offset) == segment_offset(
                *meta,
                is_bin,
                rows as int,
                num_chunks(meta.dict_entry_count as int) + num_chunks(rows as int),
            ),
    {
        let nd: usize = (meta.dict_entry_count as usize + 255) / 256;
        let nc: usize = (rows as usize + 255) / 256;
        let mut dict_chunk_offsets: Vec<Option<i64>> = Vec::new();
        let mut code_chunk_offsets: Vec<Option<i64>> = Vec::new();
        let mut off: Option<i64> = Some(0);
        let mut i: usize = 0;
        while i < nd + nc
            invariant
                nd == num_chunks(meta.dict_entry_count as int),
                nc == num_chunks(rows as int),
                nd <= 256,
                nc <= 256,
                i <= nd + nc,
                as_int_offset(off) == segment_offset(*meta, is_bin, rows as int, i as int),
                dict_chunk_offsets@.len() == if i < nd { i } else { nd },
                code_chunk_offsets@.len() == if i < nd { 0 } else { i - nd },
                forall|c: int| 0 <= c < dict_chunk_offsets@.len() ==> as_int_offset(#[trigger] dict_chunk_offsets@[c])
                    == segment_offset(*meta, is_bin, rows as int, c),
                forall|c: int| 0 <= c < code_chunk_offsets@.len() ==> as_int_offset(#[trigger] code_chunk_offsets@[c])
                    == segment_offset(*meta, is_bin, rows as int, nd + c),
            decreases nd + nc - i,
        {
            proof {
                lemma_segment_bound(*meta, is_bin, rows as int, i as int);
                lemma_segment_len_bound(*meta, is_bin, rows as int, i as int);
                if i < nd {
                    lemma_entries_bound(meta.dict_entry_count as int, i as int);
                } else {
                    lemma_entries_bound(rows as int, i - nd);
                }
            }
            let len: Option<i64> = if i < nd {
                let c = i as u8;
                let n: i64 = if meta.dict_entry_count as usize - 256 * i >= 256 {
                    256
                } else {
                    (meta.dict_entry_count as usize - 256 * i) as i64
                };
                if is_bin && meta.dict_bin_large.get(c) {
                    None
                } else {
                    let w: i64 = meta.dict_val_chunk_tys.get_word_ty(c).len() as i64 + if is_bin {
                        meta.dict_bin_len_chunk_tys.get_word_ty(c).len() as i64
                    } else {
                        0
                    };
                    proof {
                        assert(0 <= n * w <= 256 * 16) by (nonlinear_arith)
                            requires
                                0 <= n <= 256,
                                0 <= w <= 16,
                        ;
                    }
                    Some(n * w)
                }
            } else {
                let c = (i - nd) as u8;
                let n: i64 = if rows as usize - 256 * (i - nd) >= 256 {
                    256
                } else {
                    (rows as usize - 256 * (i - nd)) as i64
                };
                if meta.code_chunk_run_coded.get(c) {
                    None
                } else if meta.code_chunk_two_bytes.get(c) {
                    Some(n * 2)
                } else {
                    Some(n)
                }
            };
            if i < nd {
                dict_chunk_offsets.push(off);
            } else {
                code_chunk_offsets.push(off);
            }
            off = match (off, len) {
                (Some(o), Some(l)) => Some(o + l),
                _ => None,
            };
            i = i + 1;
        }
        TrackMap { dict_chunk_offsets, code_chunk_offsets, heap_offset: off }
    }
}

} // verus!
