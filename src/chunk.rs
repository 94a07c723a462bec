use vstd::prelude::*;

use crate::bin::{bin_component, bin_prefix_of, rapidhash_v1_of, BIN_SMALL_MAX};
use crate::error::Error;
use crate::heap::{lemma_heap_add_extends, occurs_at, Heap};
use crate::io::{be_lane, le_u16s, le_u64s, MemWriter};
use crate::dict::bins_view;
use crate::runs::{run_end_encode, run_end_positions, run_values};
use crate::wordty::{lemma_min_as_unsigned_bound, min_as_unsigned, narrowest_width, WordTy};

verus! {

/// What a dict-code chunk records in its track's metadata.
#[derive(Clone, Copy, PartialEq, Eq, Structural, Debug, Hash)]
pub struct DictCodeChunkMeta {
    pub two_bytes: bool,
    pub run_coded: bool,
    pub min_dict_code: u16,
    pub max_dict_code: u16,
}

/// What a dict-entry chunk records in its track's metadata.
#[derive(Clone, Copy, PartialEq, Eq, Structural, Debug, Hash)]
pub struct DictEntryChunkMeta {
    pub any_bin_large: bool,
    pub val_ty: Option<WordTy>,
    pub bin_len_ty: Option<WordTy>,
    pub bin_off_ty: Option<WordTy>,
}

/// Some code needs two bytes.
pub open spec fn any_two_bytes(codes: Seq<u16>) -> bool {
    exists|i: int| 0 <= i < codes.len() && #[trigger] codes[i] > 0xff
}

/// The byte lanes of `codes`: the high lane where two bytes are needed, then
/// the low lane.
pub open spec fn code_lanes(codes: Seq<u16>, two_bytes: bool) -> Seq<u8> {
    (if two_bytes { be_lane(codes, 0) } else { Seq::empty() }) + be_lane(codes, 1)
}

/// The width in bytes of each code of a chunk.
pub open spec fn code_width(codes: Seq<u16>) -> int {
    if any_two_bytes(codes) { 2 } else { 1 }
}

/// Run-end coding is used where it is strictly smaller than one code per
/// row.
pub open spec fn use_run_coding(codes: Seq<u16>) -> bool {
    run_end_positions(codes, codes.len() as int).len() * (code_width(codes) + 2) < codes.len()
        * code_width(codes)
}

/// The bytes of a dict-code chunk.
pub open spec fn code_chunk_bytes(codes: Seq<u16>) -> Seq<u8> {
    let ends = run_end_positions(codes, codes.len() as int);
    if use_run_coding(codes) {
        code_lanes(run_values(codes, ends), any_two_bytes(codes)) + le_u16s(ends)
    } else {
        code_lanes(codes, any_two_bytes(codes))
    }
}

/// The values of `vals` less their unsigned minimum, each in the narrowest
/// width that holds them all.
pub open spec fn packed_bytes(vals: Seq<i64>) -> Seq<u8> {
    let min = min_as_unsigned(vals);
    le_u64s(
        Seq::new(vals.len(), |i: int| ((vals[i] as u64) - min) as u64),
        narrowest_width(vals, min).spec_len(),
    )
}

/// Writes the byte lanes of `codes`.
pub fn write_one_or_two_byte_dict_code_chunk(codes: &[u16], two_bytes: bool, wr: &mut MemWriter)
    ensures
        final(wr)@ == old(wr)@ + code_lanes(codes@, two_bytes),
{
    wr.push_context("code_lanes");
    if two_bytes {
        wr.write_be_lane_of_annotated_num_slice("hi_lane", 0, codes);
    }
    wr.write_be_lane_of_annotated_num_slice("lo_lane", 1, codes);
    wr.pop_context();
    assert(wr@ =~= old(wr)@ + code_lanes(codes@, two_bytes));
}

/// Writes a chunk of at most 256 dict codes: run-end coded where that is
/// smaller, else one entry per row.
pub fn write_dict_codes(codes: &[u16], wr: &mut MemWriter) -> (r: DictCodeChunkMeta)
    requires
        0 < codes@.len() <= 256,
    ensures
        final(wr)@ == old(wr)@ + code_chunk_bytes(codes@),
        r.two_bytes == any_two_bytes(codes@),
        r.run_coded == use_run_coding(codes@),
        codes@.contains(r.min_dict_code),
        codes@.contains(r.max_dict_code),
        forall|i: int| 0 <= i < codes@.len() ==> r.min_dict_code <= #[trigger] codes@[i] <= r.max_dict_code,
{
    let mut two_bytes = false;
    let mut min: u16 = codes[0];
    let mut max: u16 = codes[0];
    let mut i: usize = 0;
    while i < codes.len()
        invariant
            0 < codes@.len() <= 256,
            i <= codes@.len(),
            two_bytes == exists|j: int| 0 <= j < i && #[trigger] codes@[j] > 0xff,
            codes@.contains(min),
            codes@.contains(max),
            forall|j: int| 0 <= j < i ==> min <= #[trigger] codes@[j] <= max,
            i == 0 ==> min == codes@[0] && max == codes@[0],
        decreases codes@.len() - i,
    {
        let c = codes[i];
        if c > 0xff {
            two_bytes = true;
        }
        if c < min {
            min = c;
        }
        if c > max {
            max = c;
        }
        i = i + 1;
    }
    let encoded = run_end_encode(codes);
    let (run_vals, run_ends) = match encoded {
        Ok(p) => p,
        Err(_) => {
            proof {
                assert(false);
            }
            (Vec::new(), Vec::new())
        },
    };
    let width: usize = if two_bytes {
        2
    } else {
        1
    };
    proof {
        assert(run_ends@ == run_end_positions(codes@, codes@.len() as int));
        lemma_run_end_positions_len(codes@, codes@.len() as int);
        assert(run_ends@.len() <= 256);
        let n = run_ends@.len();
        let m = codes@.len();
        assert(n * (width + 2) <= 1024 && m * width <= 512) by (nonlinear_arith)
            requires
                n <= 256,
                m <= 256,
                width <= 2,
        ;
    }
    let run_coded = run_ends.len() * (width + 2) < codes.len() * width;
    if run_coded {
        write_one_or_two_byte_dict_code_chunk(run_vals.as_slice(), two_bytes, wr);
        wr.write_annotated_le_u16_slice("run_ends", run_ends.as_slice());
    } else {
        write_one_or_two_byte_dict_code_chunk(codes, two_bytes, wr);
    }
    DictCodeChunkMeta { two_bytes, run_coded, min_dict_code: min, max_dict_code: max }
}

proof fn lemma_run_end_positions_len(xs: Seq<u16>, n: int)
    requires
        0 <= n,
    ensures
        run_end_positions(xs, n).len() <= n,
    decreases n,
{
    if n > 0 {
        lemma_run_end_positions_len(xs, n - 1);
    }
}

/// Writes `vals` less their unsigned minimum, in the narrowest width that
/// holds them all, and returns that width.
pub fn write_packed_component(name: &str, vals: &[i64], wr: &mut MemWriter) -> (r: WordTy)
    ensures
        final(wr)@ == old(wr)@ + packed_bytes(vals@),
        r == narrowest_width(vals@, min_as_unsigned(vals@)),
{
    let (min, ty) = WordTy::select_min_and_ty(vals);
    proof {
        lemma_min_as_unsigned_bound(vals@);
    }
    let mut offsets: Vec<u64> = Vec::new();
    let mut i: usize = 0;
    while i < vals.len()
        invariant
            i <= vals@.len(),
            min == min_as_unsigned(vals@),
            forall|k: int| 0 <= k < vals@.len() ==> min <= #[trigger] (vals@[k] as u64),
            offsets@ == Seq::new(i as nat, |k: int| ((vals@[k] as u64) - min) as u64),
        decreases vals@.len() - i,
    {
        offsets.push(vals[i] as u64 - min);
        i = i + 1;
        proof {
            assert(offsets@ =~= Seq::new(i as nat, |k: int| ((vals@[k] as u64) - min) as u64));
        }
    }
    proof {
        lemma_select_bound(vals@, min);
    }
    wr.write_annotated_le_wordty_slice(name, offsets.as_slice(), ty.len());
    ty
}

proof fn lemma_select_bound(vals: Seq<i64>, min: u64)
    ensures
        narrowest_width(vals, min).spec_len() <= 8,
{
}

/// Writes a chunk of at most 256 integer dictionary entries.
pub fn write_int_dict_entry_chunk(vals: &[i64], wr: &mut MemWriter) -> (r: DictEntryChunkMeta)
    ensures
        final(wr)@ == old(wr)@ + packed_bytes(vals@),
        r == (DictEntryChunkMeta {
            any_bin_large: false,
            val_ty: Some(narrowest_width(vals@, min_as_unsigned(vals@))),
            bin_len_ty: None,
            bin_off_ty: None,
        }),
{
    let ty = write_packed_component("val", vals, wr);
    DictEntryChunkMeta { any_bin_large: false, val_ty: Some(ty), bin_len_ty: None, bin_off_ty: None }
}

/// Some bin of `bins` is large.
pub open spec fn any_bin_large(bins: Seq<Seq<u8>>) -> bool {
    exists|i: int| 0 <= i < bins.len() && (#[trigger] bins[i]).len() > 8
}

/// The bytes of a dict-entry chunk of bins whose heap offsets are `offs`:
/// prefixes and lengths, and hashes and offsets where some bin is large.
pub open spec fn bin_chunk_bytes(bins: Seq<Seq<u8>>, offs: Seq<i64>) -> Seq<u8> {
    let prefixes = Seq::new(bins.len(), |i: int| bin_prefix_of(bins[i]) as i64);
    let lens = Seq::new(bins.len(), |i: int| bins[i].len() as i64);
    let hashes = Seq::new(bins.len(), |i: int| (rapidhash_v1_of(bins[i]) & 0xffff) as i64);
    packed_bytes(prefixes) + packed_bytes(lens) + if any_bin_large(bins) {
        packed_bytes(hashes) + packed_bytes(offs)
    } else {
        Seq::empty()
    }
}

/// The total length of the byte strings `bins`.
pub open spec fn total_len(bins: Seq<Seq<u8>>) -> int
    decreases bins.len(),
{
    if bins.len() == 0 {
        0
    } else {
        total_len(bins.drop_last()) + bins.last().len()
    }
}

pub proof fn lemma_total_len_prefix(bins: Seq<Seq<u8>>, i: int)
    requires
        0 <= i < bins.len(),
    ensures
        total_len(bins.subrange(0, i + 1)) == total_len(bins.subrange(0, i)) + bins[i].len(),
        0 <= total_len(bins.subrange(0, i)),
        total_len(bins.subrange(0, i + 1)) <= total_len(bins),
    decreases bins.len() - i,
{
    assert(bins.subrange(0, i + 1).drop_last() =~= bins.subrange(0, i));
    lemma_total_len_nonneg(bins.subrange(0, i));
    if i + 1 < bins.len() {
        lemma_total_len_prefix(bins, i + 1);
        lemma_total_len_nonneg(bins.subrange(0, i + 2));
    } else {
        assert(bins.subrange(0, i + 1) =~= bins);
    }
}

pub proof fn lemma_total_len_nonneg(bins: Seq<Seq<u8>>)
    ensures
        0 <= total_len(bins),
    decreases bins.len(),
{
    if bins.len() > 0 {
        lemma_total_len_nonneg(bins.drop_last());
    }
}

/// Strings of at most `l` bytes each total at most `l` bytes per string.
pub proof fn lemma_total_len_bound(bins: Seq<Seq<u8>>, l: int)
    requires
        0 <= l,
        forall|i: int| 0 <= i < bins.len() ==> (#[trigger] bins[i]).len() <= l,
    ensures
        total_len(bins) <= bins.len() * l,
    decreases bins.len(),
{
    if bins.len() > 0 {
        lemma_total_len_bound(bins.drop_last(), l);
        assert((bins.len() - 1) * l + l == bins.len() * l) by (nonlinear_arith);
    }
}

/// Projects each bin to one component: 0 prefix, 1 length, 2 hash, 3 heap
/// offset.
fn bin_components(bins: &[Vec<u8>], component: usize, heap: &mut Heap) -> (r: Result<Vec<i64>, Error>)
    requires
        component < 4,
    ensures
        r is Err ==> r == Err::<Vec<i64>, Error>(Error::CountTooLarge),
        component < 3 ==> final(heap).data@ == old(heap).data@,
        component == 3 ==> old(heap).data@.len() <= final(heap).data@.len(),
        component == 3 ==> final(heap).data@.subrange(0, old(heap).data@.len() as int) == old(heap).data@,
        final(heap).data@.len() <= old(heap).data@.len() + total_len(bins_view(bins@)),
        old(heap).data@.len() + total_len(bins_view(bins@)) <= i64::MAX ==> r is Ok,
        r matches Ok(v) ==> v@.len() == bins@.len(),
        r matches Ok(v) ==> component == 0 ==> v@ == Seq::new(bins@.len(), |i: int| bin_prefix_of(bins@[i]@) as i64),
        r matches Ok(v) ==> component == 1 ==> v@ == Seq::new(bins@.len(), |i: int| bins@[i]@.len() as i64),
        r matches Ok(v) ==> component == 2 ==> v@ == Seq::new(bins@.len(), |i: int| (rapidhash_v1_of(bins@[i]@) & 0xffff) as i64),
        r matches Ok(v) ==> component == 3 ==> forall|i: int| 0 <= i < bins@.len() ==> occurs_at(final(heap).data@, bins@[i]@, #[trigger] v@[i] as int),
{
    let mut out: Vec<i64> = Vec::new();
    let mut i: usize = 0;
    proof {
        assert(bins_view(bins@).subrange(0, 0) =~= Seq::<Seq<u8>>::empty());
    }
    while i < bins.len()
        invariant
            component < 4,
            i <= bins@.len(),
            out@.len() == i,
            component < 3 ==> heap.data@ == old(heap).data@,
            old(heap).data@.len() <= heap.data@.len(),
            heap.data@.subrange(0, old(heap).data@.len() as int) == old(heap).data@,
            component == 0 ==> out@ == Seq::new(i as nat, |k: int| bin_prefix_of(bins@[k]@) as i64),
            component == 1 ==> out@ == Seq::new(i as nat, |k: int| bins@[k]@.len() as i64),
            component == 2 ==> out@ == Seq::new(i as nat, |k: int| (rapidhash_v1_of(bins@[k]@) & 0xffff) as i64),
            component == 3 ==> forall|k: int| 0 <= k < i ==> occurs_at(heap.data@, bins@[k]@, #[trigger] out@[k] as int),
            heap.data@.len() <= old(heap).data@.len() + total_len(bins_view(bins@).subrange(0, i as int)),
        decreases bins@.len() - i,
    {
        let ghost before = heap.data@;
        proof {
            lemma_total_len_prefix(bins_view(bins@), i as int);
            assert(bins_view(bins@)[i as int] == bins@[i as int]@);
        }
        let res = bin_component(bins[i].as_slice(), component, heap);
        proof {
            assert(heap.data@.subrange(0, old(heap).data@.len() as int) =~= before.subrange(0, old(heap).data@.len() as int));
        }
        let v = match res {
            Ok(v) => v,
            Err(e) => {
                return Err(e);
            },
        };
        proof {
            if component == 3 {
                lemma_heap_add_extends(before, bins@[i as int]@, heap.data@, v as int);
            }
            assert((v as u64) as i64 == v) by (bit_vector);
        }
        out.push(v);
        i = i + 1;
        proof {
            if component == 0 {
                assert(out@ =~= Seq::new(i as nat, |k: int| bin_prefix_of(bins@[k]@) as i64));
            } else if component == 1 {
                assert(out@ =~= Seq::new(i as nat, |k: int| bins@[k]@.len() as i64));
            } else if component == 2 {
                assert(out@ =~= Seq::new(i as nat, |k: int| (rapidhash_v1_of(bins@[k]@) & 0xffff) as i64));
            }
        }
    }
    proof {
        assert(bins_view(bins@).subrange(0, bins@.len() as int) =~= bins_view(bins@));
    }
    Ok(out)
}

/// Writes a chunk of at most 256 bin dictionary entries, storing large bins
/// in `heap`.
pub fn write_bin_dict_entry_chunk(bins: &[Vec<u8>], wr: &mut MemWriter, heap: &mut Heap) -> (r: Result<DictEntryChunkMeta, Error>)
    ensures
        r is Err ==> r == Err::<DictEntryChunkMeta, Error>(Error::CountTooLarge),
        old(heap).data@.len() + total_len(bins_view(bins@)) <= i64::MAX ==> r is Ok,
        final(heap).data@.len() <= old(heap).data@.len() + total_len(bins_view(bins@)),
        old(heap).data@.len() <= final(heap).data@.len(),
        final(heap).data@.subrange(0, old(heap).data@.len() as int) == old(heap).data@,
        r matches Ok(m) ==> m.any_bin_large == any_bin_large(bins_view(bins@)),
        r matches Ok(m) ==> m.val_ty is Some && m.bin_len_ty is Some,
        r matches Ok(m) ==> (m.bin_off_ty is Some <==> any_bin_large(bins_view(bins@))),
        r is Ok ==> exists|offs: Seq<i64>|
            offs.len() == bins@.len() && (any_bin_large(bins_view(bins@)) ==> forall|i: int|
                0 <= i < bins@.len() ==> occurs_at(final(heap).data@, bins@[i]@, #[trigger] offs[i] as int))
                && final(wr)@ == old(wr)@ + bin_chunk_bytes(bins_view(bins@), offs),
{
    let ghost bv = bins_view(bins@);
    let mut large = false;
    let mut i: usize = 0;
    while i < bins.len()
        invariant
            i <= bins@.len(),
            bv == bins_view(bins@),
            large == exists|k: int| 0 <= k < i && (#[trigger] bv[k]).len() > 8,
        decreases bins@.len() - i,
    {
        if bins[i].len() > BIN_SMALL_MAX {
            large = true;
            proof {
                assert(bv[i as int].len() > 8);
            }
        }
        i = i + 1;
    }
    wr.push_context("prefix");
    let prefixes = bin_components(bins, 0, heap)?;
    let val_ty = write_packed_component("prefix", prefixes.as_slice(), wr);
    wr.pop_context();
    wr.push_context("len");
    let lens = bin_components(bins, 1, heap)?;
    let len_ty = write_packed_component("len", lens.as_slice(), wr);
    wr.pop_context();
    proof {
        assert(prefixes@ =~= Seq::new(bv.len(), |i: int| bin_prefix_of(bv[i]) as i64));
        assert(lens@ =~= Seq::new(bv.len(), |i: int| bv[i].len() as i64));
    }
    if large {
        let ghost mid = wr@;
        wr.push_context("hash");
        let hashes = bin_components(bins, 2, heap)?;
        let hash_ty = write_packed_component("hash", hashes.as_slice(), wr);
        wr.pop_context();
        wr.push_context("offset");
        let ghost heap_before = heap.data@;
        let offs = bin_components(bins, 3, heap)?;
        let off_ty = write_packed_component("offset", offs.as_slice(), wr);
        wr.pop_context();
        proof {
            assert(hashes@ =~= Seq::new(bv.len(), |i: int| (rapidhash_v1_of(bv[i]) & 0xffff) as i64));
            assert(wr@ =~= old(wr)@ + bin_chunk_bytes(bv, offs@));
            assert(offs@.len() == bins@.len() && (any_bin_large(bins_view(bins@)) ==> forall|i: int|
                0 <= i < bins@.len() ==> occurs_at(heap.data@, bins@[i]@, #[trigger] offs@[i] as int))
                && wr@ == old(wr)@ + bin_chunk_bytes(bins_view(bins@), offs@));
        }
        Ok(DictEntryChunkMeta { any_bin_large: true, val_ty: Some(val_ty), bin_len_ty: Some(len_ty), bin_off_ty: Some(off_ty) })
    } else {
        proof {
            let offs = Seq::new(bins@.len(), |i: int| 0i64);
            assert(!any_bin_large(bv));
            assert(wr@ =~= old(wr)@ + bin_chunk_bytes(bv, offs));
            assert(offs.len() == bins@.len() && (any_bin_large(bins_view(bins@)) ==> forall|i: int|
                0 <= i < bins@.len() ==> occurs_at(heap.data@, bins@[i]@, #[trigger] offs[i] as int))
                && wr@ == old(wr)@ + bin_chunk_bytes(bins_view(bins@), offs));
        }
        Ok(DictEntryChunkMeta { any_bin_large: false, val_ty: Some(val_ty), bin_len_ty: Some(len_ty), bin_off_ty: None })
    }
}

} // verus!
