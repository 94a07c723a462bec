use vstd::prelude::*;

use crate::bytes::{compare_bytes, copy_bytes, lemma_lex_irreflexive, lemma_lex_total, lemma_lex_transitive, lex_lt};
use crate::error::Error;

verus! {

/// `dict` rises strictly.
pub open spec fn strictly_sorted(dict: Seq<i64>) -> bool {
    forall|a: int, b: int| 0 <= a < b < dict.len() ==> #[trigger] dict[a] < #[trigger] dict[b]
}

/// `(dict, codes)` is the dictionary encoding of `xs`: `dict` is the distinct
/// values of `xs` in ascending order and `codes[i]` is the position of `xs[i]`
/// in `dict`.
pub open spec fn is_dict_encoding(xs: Seq<i64>, dict: Seq<i64>, codes: Seq<u16>) -> bool {
    &&& strictly_sorted(dict)
    &&& codes.len() == xs.len()
    &&& forall|i: int| 0 <= i < xs.len() ==> (#[trigger] codes[i] as int) < dict.len()
    &&& forall|i: int| 0 <= i < xs.len() ==> dict[#[trigger] codes[i] as int] == xs[i]
    &&& forall|k: int| 0 <= k < dict.len() ==> xs.contains(#[trigger] dict[k])
}

/// The first position of the sorted `dict` whose entry is not below `x`.
fn lower_bound(dict: &Vec<i64>, x: i64) -> (r: usize)
    requires
        strictly_sorted(dict@),
    ensures
        r <= dict@.len(),
        forall|j: int| 0 <= j < r ==> #[trigger] dict@[j] < x,
        forall|j: int| r <= j < dict@.len() ==> #[trigger] dict@[j] >= x,
{
    let mut lo: usize = 0;
    let mut hi: usize = dict.len();
    while lo < hi
        invariant
            strictly_sorted(dict@),
            lo <= hi <= dict@.len(),
            forall|j: int| 0 <= j < lo ==> #[trigger] dict@[j] < x,
            forall|j: int| hi <= j < dict@.len() ==> #[trigger] dict@[j] >= x,
        decreases hi - lo,
    {
        let mid = lo + (hi - lo) / 2;
        if dict[mid] < x {
            proof {
                assert forall|j: int| 0 <= j < mid + 1 implies #[trigger] dict@[j] < x by {
                    if j < mid {
                        assert(dict@[j] < dict@[mid as int]);
                    }
                }
            }
            lo = mid + 1;
        } else {
            proof {
                assert forall|j: int| mid <= j < dict@.len() implies #[trigger] dict@[j] >= x by {
                    if j > mid {
                        assert(dict@[mid as int] < dict@[j]);
                    }
                }
            }
            hi = mid;
        }
    }
    lo
}

/// Inserts `x` into the sorted `dict` unless it is there already.
fn insert_sorted(dict: &mut Vec<i64>, x: i64)
    requires
        strictly_sorted(old(dict)@),
    ensures
        strictly_sorted(final(dict)@),
        final(dict)@.len() <= old(dict)@.len() + 1,
        forall|v: i64| #[trigger] final(dict)@.contains(v) <==> (old(dict)@.contains(v) || v == x),
{
    let pos = lower_bound(dict, x);
    if pos == dict.len() || dict[pos] != x {
        let ghost old_dict = dict@;
        dict.insert(pos, x);
        proof {
            assert(dict@ == old_dict.insert(pos as int, x));
            assert forall|a: int, b: int| 0 <= a < b < dict@.len() implies #[trigger] dict@[a] < #[trigger] dict@[b] by {
                if b < pos {
                } else if a < pos && b == pos {
                } else if a < pos {
                    assert(old_dict[a] < old_dict[b - 1]);
                } else if a == pos {
                    assert(old_dict[b - 1] >= x);
                    if b - 1 > pos {
                        assert(old_dict[pos as int] < old_dict[b - 1]);
                    }
                } else {
                    assert(old_dict[a - 1] < old_dict[b - 1]);
                }
            }
            assert forall|v: i64| #[trigger] dict@.contains(v) <==> (old_dict.contains(v) || v == x) by {
                if dict@.contains(v) {
                    let k = choose|k: int| 0 <= k < dict@.len() && dict@[k] == v;
                    if k < pos {
                        assert(old_dict[k] == v);
                    } else if k > pos {
                        assert(old_dict[k - 1] == v);
                    }
                }
                if old_dict.contains(v) {
                    let k = choose|k: int| 0 <= k < old_dict.len() && old_dict[k] == v;
                    if k < pos {
                        assert(dict@[k] == v);
                    } else {
                        assert(dict@[k + 1] == v);
                    }
                }
                if v == x {
                    assert(dict@[pos as int] == v);
                }
            }
        }
    } else {
        proof {
            assert(dict@[pos as int] == x);
        }
    }
}

/// Encodes `xs` as a dictionary of its distinct values in ascending order
/// and, for each value, its position in the dictionary.
pub fn dict_encode(xs: &[i64]) -> (r: Result<(Vec<i64>, Vec<u16>), Error>)
    ensures
        r is Err <==> xs@.len() > 0xffff,
        r matches Err(e) ==> e == Error::TooManyRows,
        r matches Ok((dict, codes)) ==> is_dict_encoding(xs@, dict@, codes@),
        r matches Ok((dict, codes)) ==> dict@.len() <= xs@.len(),
{
    if xs.len() > 0xffff {
        return Err(Error::TooManyRows);
    }
    let mut dict: Vec<i64> = Vec::new();
    let mut i: usize = 0;
    while i < xs.len()
        invariant
            xs@.len() <= 0xffff,
            i <= xs@.len(),
            dict@.len() <= i,
            strictly_sorted(dict@),
            forall|j: int| 0 <= j < i ==> dict@.contains(#[trigger] xs@[j]),
            forall|v: i64| #[trigger] dict@.contains(v) ==> xs@.subrange(0, i as int).contains(v),
        decreases xs@.len() - i,
    {
        let ghost old_dict = dict@;
        insert_sorted(&mut dict, xs[i]);
        proof {
            assert forall|v: i64| #[trigger] dict@.contains(v) implies xs@.subrange(0, i + 1).contains(v) by {
                if old_dict.contains(v) {
                    let j = choose|j: int| 0 <= j < i && xs@.subrange(0, i as int)[j] == v;
                    assert(xs@.subrange(0, i + 1)[j] == v);
                } else {
                    assert(xs@.subrange(0, i + 1)[i as int] == v);
                }
            }
        }
        i = i + 1;
    }
    proof {
        assert(xs@.subrange(0, xs@.len() as int) =~= xs@);
        assert forall|k: int| 0 <= k < dict@.len() implies xs@.contains(#[trigger] dict@[k]) by {
            assert(dict@.contains(dict@[k]));
        }
    }
    let mut codes: Vec<u16> = Vec::new();
    let mut i: usize = 0;
    while i < xs.len()
        invariant
            xs@.len() <= 0xffff,
            i <= xs@.len(),
            dict@.len() <= xs@.len(),
            strictly_sorted(dict@),
            forall|j: int| 0 <= j < xs@.len() ==> dict@.contains(#[trigger] xs@[j]),
            forall|k: int| 0 <= k < dict@.len() ==> xs@.contains(#[trigger] dict@[k]),
            codes@.len() == i,
            forall|j: int| 0 <= j < i ==> (#[trigger] codes@[j] as int) < dict@.len(),
            forall|j: int| 0 <= j < i ==> dict@[#[trigger] codes@[j] as int] == xs@[j],
        decreases xs@.len() - i,
    {
        let x = xs[i];
        let pos = lower_bound(&dict, x);
        proof {
            assert(dict@.contains(xs@[i as int]));
            let k = choose|k: int| 0 <= k < dict@.len() && dict@[k] == xs@[i as int];
            if k > pos {
                assert(dict@[pos as int] < dict@[k]);
            }
            assert(dict@[pos as int] == x);
        }
        codes.push(pos as u16);
        i = i + 1;
    }
    Ok((dict, codes))
}

/// Looking each code up in the dictionary gives back the encoded values.
pub proof fn law_dict_round_trip(xs: Seq<i64>, dict: Seq<i64>, codes: Seq<u16>)
    requires
        is_dict_encoding(xs, dict, codes),
    ensures
        Seq::new(codes.len(), |i: int| dict[codes[i] as int]) == xs,
{
    assert(Seq::new(codes.len(), |i: int| dict[codes[i] as int]) =~= xs);
}

/// The byte strings held by `xs`.
pub open spec fn bins_view(xs: Seq<Vec<u8>>) -> Seq<Seq<u8>> {
    Seq::new(xs.len(), |i: int| xs[i]@)
}

/// `dict` rises strictly in byte order.
pub open spec fn bins_strictly_sorted(dict: Seq<Seq<u8>>) -> bool {
    forall|a: int, b: int| 0 <= a < b < dict.len() ==> lex_lt(#[trigger] dict[a], #[trigger] dict[b])
}

/// `(dict, codes)` is the dictionary encoding of the byte strings `xs`:
/// `dict` is their distinct values in byte order and `codes[i]` is the
/// position of `xs[i]` in `dict`.
pub open spec fn is_bin_dict_encoding(xs: Seq<Seq<u8>>, dict: Seq<Seq<u8>>, codes: Seq<u16>) -> bool {
    &&& bins_strictly_sorted(dict)
    &&& codes.len() == xs.len()
    &&& forall|i: int| 0 <= i < xs.len() ==> (#[trigger] codes[i] as int) < dict.len()
    &&& forall|i: int| 0 <= i < xs.len() ==> dict[#[trigger] codes[i] as int] == xs[i]
    &&& forall|k: int| 0 <= k < dict.len() ==> xs.contains(#[trigger] dict[k])
}

fn lower_bound_bins(dict: &Vec<Vec<u8>>, x: &[u8]) -> (r: usize)
    requires
        bins_strictly_sorted(bins_view(dict@)),
    ensures
        r <= dict@.len(),
        forall|j: int| 0 <= j < r ==> lex_lt(#[trigger] bins_view(dict@)[j], x@),
        forall|j: int| r <= j < dict@.len() ==> !lex_lt(#[trigger] bins_view(dict@)[j], x@),
{
    let ghost d = bins_view(dict@);
    let mut lo: usize = 0;
    let mut hi: usize = dict.len();
    while lo < hi
        invariant
            d == bins_view(dict@),
            bins_strictly_sorted(d),
            lo <= hi <= dict@.len(),
            forall|j: int| 0 <= j < lo ==> lex_lt(#[trigger] d[j], x@),
            forall|j: int| hi <= j < dict@.len() ==> !lex_lt(#[trigger] d[j], x@),
        decreases hi - lo,
    {
        let mid = lo + (hi - lo) / 2;
        let c = compare_bytes(dict[mid].as_slice(), x);
        proof {
            assert(d[mid as int] == dict@[mid as int]@);
        }
        if c < 0 {
            proof {
                assert forall|j: int| 0 <= j < mid + 1 implies lex_lt(#[trigger] d[j], x@) by {
                    if j < mid {
                        assert(lex_lt(d[j], d[mid as int]));
                        lemma_lex_transitive(d[j], d[mid as int], x@);
                    }
                }
            }
            lo = mid + 1;
        } else {
            proof {
                assert forall|j: int| mid <= j < dict@.len() implies !lex_lt(#[trigger] d[j], x@) by {
                    if j > mid {
                        assert(lex_lt(d[mid as int], d[j]));
                        if lex_lt(d[j], x@) {
                            lemma_lex_transitive(d[mid as int], d[j], x@);
                        }
                    }
                }
            }
            hi = mid;
        }
    }
    lo
}

fn insert_sorted_bins(dict: &mut Vec<Vec<u8>>, x: &[u8])
    requires
        bins_strictly_sorted(bins_view(old(dict)@)),
    ensures
        bins_strictly_sorted(bins_view(final(dict)@)),
        final(dict)@.len() <= old(dict)@.len() + 1,
        forall|v: Seq<u8>| #[trigger] bins_view(final(dict)@).contains(v) <==> (bins_view(old(dict)@).contains(v) || v == x@),
{
    let ghost od = bins_view(dict@);
    let pos = lower_bound_bins(dict, x);
    let found = if pos < dict.len() {
        compare_bytes(dict[pos].as_slice(), x) == 0
    } else {
        false
    };
    if !found {
        let ghost old_dict = dict@;
        let v = copy_bytes(x);
        dict.insert(pos, v);
        proof {
            let nd = bins_view(dict@);
            assert(nd =~= od.insert(pos as int, x@));
            assert forall|a: int, b: int| 0 <= a < b < nd.len() implies lex_lt(#[trigger] nd[a], #[trigger] nd[b]) by {
                if b < pos {
                } else if a < pos && b == pos {
                } else if a < pos {
                    assert(lex_lt(od[a], od[b - 1]));
                } else if a == pos {
                    lemma_lex_total(od[b - 1], x@);
                    if b - 1 > pos {
                        assert(lex_lt(od[pos as int], od[b - 1]));
                    } else {
                        assert(od[pos as int] != x@);
                    }
                    assert(!lex_lt(od[b - 1], x@));
                    if od[b - 1] == x@ {
                        assert(lex_lt(od[pos as int], od[b - 1]));
                        assert(!lex_lt(od[pos as int], x@));
                    }
                } else {
                    assert(lex_lt(od[a - 1], od[b - 1]));
                }
            }
            assert forall|w: Seq<u8>| #[trigger] nd.contains(w) <==> (od.contains(w) || w == x@) by {
                if nd.contains(w) {
                    let k = choose|k: int| 0 <= k < nd.len() && nd[k] == w;
                    if k < pos {
                        assert(od[k] == w);
                    } else if k > pos {
                        assert(od[k - 1] == w);
                    }
                }
                if od.contains(w) {
                    let k = choose|k: int| 0 <= k < od.len() && od[k] == w;
                    if k < pos {
                        assert(nd[k] == w);
                    } else {
                        assert(nd[k + 1] == w);
                    }
                }
                if w == x@ {
                    assert(nd[pos as int] == w);
                }
            }
        }
    } else {
        proof {
            assert(od[pos as int] == x@);
        }
    }
}

/// Encodes the byte strings `xs` as a dictionary of their distinct values in
/// byte order and, for each value, its position in the dictionary.
pub fn dict_encode_bins(xs: &[Vec<u8>]) -> (r: Result<(Vec<Vec<u8>>, Vec<u16>), Error>)
    ensures
        r is Err <==> xs@.len() > 0xffff,
        r matches Err(e) ==> e == Error::TooManyRows,
        r matches Ok((dict, codes)) ==> is_bin_dict_encoding(bins_view(xs@), bins_view(dict@), codes@),
        r matches Ok((dict, codes)) ==> dict@.len() <= xs@.len(),
{
    if xs.len() > 0xffff {
        return Err(Error::TooManyRows);
    }
    let ghost xv = bins_view(xs@);
    let mut dict: Vec<Vec<u8>> = Vec::new();
    let mut i: usize = 0;
    proof {
        assert(bins_view(dict@) =~= Seq::<Seq<u8>>::empty());
    }
    while i < xs.len()
        invariant
            xv == bins_view(xs@),
            xs@.len() <= 0xffff,
            i <= xs@.len(),
            dict@.len() <= i,
            bins_strictly_sorted(bins_view(dict@)),
            forall|j: int| 0 <= j < i ==> bins_view(dict@).contains(#[trigger] xv[j]),
            forall|v: Seq<u8>| #[trigger] bins_view(dict@).contains(v) ==> xv.subrange(0, i as int).contains(v),
        decreases xs@.len() - i,
    {
        let ghost old_dict = bins_view(dict@);
        insert_sorted_bins(&mut dict, xs[i].as_slice());
        proof {
            assert(xv[i as int] == xs@[i as int]@);
            assert forall|v: Seq<u8>| #[trigger] bins_view(dict@).contains(v) implies xv.subrange(0, i + 1).contains(v) by {
                if old_dict.contains(v) {
                    let j = choose|j: int| 0 <= j < i && xv.subrange(0, i as int)[j] == v;
                    assert(xv.subrange(0, i + 1)[j] == v);
                } else {
                    assert(xv.subrange(0, i + 1)[i as int] == v);
                }
            }
        }
        i = i + 1;
    }
    let ghost dv = bins_view(dict@);
    proof {
        assert(xv.subrange(0, xv.len() as int) =~= xv);
        assert forall|k: int| 0 <= k < dv.len() implies xv.contains(#[trigger] dv[k]) by {
            assert(dv.contains(dv[k]));
        }
    }
    let mut codes: Vec<u16> = Vec::new();
    let mut i: usize = 0;
    while i < xs.len()
        invariant
            xv == bins_view(xs@),
            dv == bins_view(dict@),
            xs@.len() <= 0xffff,
            i <= xs@.len(),
            dict@.len() <= xs@.len(),
            bins_strictly_sorted(dv),
            forall|j: int| 0 <= j < xs@.len() ==> dv.contains(#[trigger] xv[j]),
            codes@.len() == i,
            forall|j: int| 0 <= j < i ==> (#[trigger] codes@[j] as int) < dict@.len(),
            forall|j: int| 0 <= j < i ==> dv[#[trigger] codes@[j] as int] == xv[j],
        decreases xs@.len() - i,
    {
        let pos = lower_bound_bins(&dict, xs[i].as_slice());
        proof {
            let x = xv[i as int];
            assert(x == xs@[i as int]@);
            assert(dv.contains(x));
            let k = choose|k: int| 0 <= k < dv.len() && dv[k] == x;
            lemma_lex_irreflexive(x);
            if k > pos {
                assert(lex_lt(dv[pos as int], dv[k]));
            }
            assert(k >= pos);
            lemma_lex_total(dv[pos as int], x);
            assert(dv[pos as int] == x);
        }
        codes.push(pos as u16);
        i = i + 1;
    }
    Ok((dict, codes))
}

/// Looking each code up in the dictionary gives back the encoded byte
/// strings.
pub proof fn law_bin_dict_round_trip(xs: Seq<Seq<u8>>, dict: Seq<Seq<u8>>, codes: Seq<u16>)
    requires
        is_bin_dict_encoding(xs, dict, codes),
    ensures
        Seq::new(codes.len(), |i: int| dict[codes[i] as int]) == xs,
{
    assert(Seq::new(codes.len(), |i: int| dict[codes[i] as int]) =~= xs);
}

} // verus!
