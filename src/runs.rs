use vstd::prelude::*;

use crate::error::Error;

verus! {

/// Position `i` of `xs` is the last of its run: the last position, or one
/// whose successor differs.
pub open spec fn is_run_end(xs: Seq<u16>, i: int) -> bool {
    0 <= i < xs.len() && (i == xs.len() - 1 || xs[i] != xs[i + 1])
}

/// Run ends that rise strictly, with a value for each.
pub open spec fn runs_well_formed(run_vals: Seq<u16>, run_ends: Seq<u16>) -> bool {
    &&& run_vals.len() == run_ends.len()
    &&& forall|r: int, q: int|
        0 <= r < q < run_ends.len() ==> #[trigger] run_ends[r] < #[trigger] run_ends[q]
}

/// Position `i` lies in run `r`: after the end of run `r - 1`, up to the end
/// of run `r`.
pub open spec fn in_run(run_ends: Seq<u16>, r: int, i: int) -> bool {
    &&& 0 <= r < run_ends.len()
    &&& (if r == 0 { 0 } else { run_ends[r - 1] + 1 }) <= i <= run_ends[r]
}

/// The number of positions that the runs cover.
pub open spec fn runs_len(run_ends: Seq<u16>) -> nat {
    if run_ends.len() == 0 {
        0
    } else {
        (run_ends.last() + 1) as nat
    }
}

/// `(run_vals, run_ends)` is the run-end encoding of `xs`: one entry per
/// run, in order, each with the value of its run and the index of its last
/// position.
pub open spec fn is_run_end_encoding(xs: Seq<u16>, run_vals: Seq<u16>, run_ends: Seq<u16>) -> bool {
    &&& runs_well_formed(run_vals, run_ends)
    &&& forall|r: int| 0 <= r < run_ends.len() ==> is_run_end(xs, #[trigger] run_ends[r] as int)
    &&& forall|r: int| 0 <= r < run_ends.len() ==> #[trigger] run_vals[r] == xs[run_ends[r] as int]
    &&& forall|i: int| is_run_end(xs, i) ==> exists|r: int| 0 <= r < run_ends.len() && #[trigger] run_ends[r] == i
}

/// The positions below `n` that end a run of `xs`, in order.
pub open spec fn run_end_positions(xs: Seq<u16>, n: int) -> Seq<u16>
    decreases n,
{
    if n <= 0 {
        Seq::empty()
    } else if is_run_end(xs, n - 1) {
        run_end_positions(xs, n - 1).push((n - 1) as u16)
    } else {
        run_end_positions(xs, n - 1)
    }
}

/// The value of each run, read at its end.
pub open spec fn run_values(xs: Seq<u16>, run_ends: Seq<u16>) -> Seq<u16> {
    Seq::new(run_ends.len(), |r: int| xs[run_ends[r] as int])
}

/// Splits `xs` into runs of equal values: the value of each run and the
/// index of its last position.
pub fn run_end_encode(xs: &[u16]) -> (r: Result<(Vec<u16>, Vec<u16>), Error>)
    ensures
        r is Err <==> xs@.len() > 0xffff,
        r matches Err(e) ==> e == Error::TooManyRows,
        r matches Ok((vals, ends)) ==> is_run_end_encoding(xs@, vals@, ends@),
        r matches Ok((vals, ends)) ==> ends@ == run_end_positions(xs@, xs@.len() as int) && vals@
            == run_values(xs@, ends@),
{
    let len = xs.len();
    if len > 0xffff {
        return Err(Error::TooManyRows);
    }
    let mut run_vals: Vec<u16> = Vec::new();
    let mut run_ends: Vec<u16> = Vec::new();
    let mut i: usize = 0;
    while i < len
        invariant
            len == xs@.len(),
            len <= 0xffff,
            i <= len,
            runs_well_formed(run_vals@, run_ends@),
            run_ends@ == run_end_positions(xs@, i as int),
            run_vals@ == run_values(xs@, run_ends@),
            run_ends@.len() > 0 ==> run_ends@.last() < i,
            forall|r: int| 0 <= r < run_ends@.len() ==> is_run_end(xs@, #[trigger] run_ends@[r] as int),
            forall|r: int| 0 <= r < run_ends@.len() ==> #[trigger] run_vals@[r] == xs@[run_ends@[r] as int],
            forall|j: int| 0 <= j < i && is_run_end(xs@, j) ==> exists|r: int| 0 <= r < run_ends@.len() && #[trigger] run_ends@[r] == j,
        decreases len - i,
    {
        if i == len - 1 || xs[i] != xs[i + 1] {
            let ghost old_ends = run_ends@;
            run_vals.push(xs[i]);
            run_ends.push(i as u16);
            proof {
                assert(run_ends@ == old_ends.push(i as u16));
                assert(is_run_end(xs@, i as int));
                assert(run_vals@ =~= run_values(xs@, run_ends@));
                assert forall|j: int| 0 <= j < i + 1 && is_run_end(xs@, j) implies exists|r: int|
                    0 <= r < run_ends@.len() && #[trigger] run_ends@[r] == j by {
                    if j < i {
                        let r = choose|r: int| 0 <= r < old_ends.len() && #[trigger] old_ends[r] == j;
                        assert(run_ends@[r] == j);
                    } else {
                        assert(run_ends@[old_ends.len() as int] == j);
                    }
                }
            }
        } else {
            proof {
                assert(!is_run_end(xs@, i as int));
                assert forall|j: int| 0 <= j < i + 1 && is_run_end(xs@, j) implies exists|r: int|
                    0 <= r < run_ends@.len() && #[trigger] run_ends@[r] == j by {
                    assert(j != i);
                }
            }
        }
        i = i + 1;
    }
    Ok((run_vals, run_ends))
}

/// Expands runs back into one value per position.
pub fn run_end_decode(run_vals: &[u16], run_ends: &[u16]) -> (r: Vec<u16>)
    requires
        runs_well_formed(run_vals@, run_ends@),
    ensures
        r@.len() == runs_len(run_ends@),
        forall|k: int, i: int| in_run(run_ends@, k, i) ==> #[trigger] r@[i] == #[trigger] run_vals@[k],
{
    let mut out: Vec<u16> = Vec::new();
    let mut k: usize = 0;
    while k < run_ends.len()
        invariant
            runs_well_formed(run_vals@, run_ends@),
            k <= run_ends@.len(),
            out@.len() == (if k == 0 { 0 } else { run_ends@[k - 1] + 1 }),
            forall|k2: int, i: int| 0 <= k2 < k && in_run(run_ends@, k2, i) ==> #[trigger] out@[i] == #[trigger] run_vals@[k2],
        decreases run_ends@.len() - k,
    {
        let end = run_ends[k] as usize;
        let v = run_vals[k];
        proof {
            if k > 0 {
                assert(run_ends@[k - 1] < run_ends@[k as int]);
            }
        }
        let ghost start = out@.len();
        let ghost prefix = out@;
        while out.len() <= end
            invariant
                start <= out@.len() <= end + 1,
                out@.subrange(0, start as int) == prefix,
                forall|i: int| start <= i < out@.len() ==> #[trigger] out@[i] == v,
            decreases end + 1 - out@.len(),
        {
            let ghost before = out@;
            out.push(v);
            proof {
                assert(out@.subrange(0, start as int) =~= before.subrange(0, start as int));
            }
        }
        proof {
            assert forall|k2: int, i: int| 0 <= k2 < k + 1 && in_run(run_ends@, k2, i) implies #[trigger] out@[i] == #[trigger] run_vals@[k2] by {
                if k2 < k {
                    if k2 < k - 1 {
                        assert(run_ends@[k2] < run_ends@[k - 1]);
                    }
                    assert(i < start);
                    assert(out@[i] == out@.subrange(0, start as int)[i]);
                }
            }
        }
        k = k + 1;
    }
    out
}

proof fn lemma_run_of(run_ends: Seq<u16>, i: int, k: int) -> (r: int)
    requires
        forall|a: int, b: int|
            0 <= a < b < run_ends.len() ==> #[trigger] run_ends[a] < #[trigger] run_ends[b],
        0 <= k < run_ends.len(),
        i <= run_ends.last(),
        if k == 0 { 0 <= i } else { run_ends[k - 1] < i },
    ensures
        in_run(run_ends, r, i),
    decreases run_ends.len() - k,
{
    if i <= run_ends[k] {
        k
    } else {
        lemma_run_of(run_ends, i, k + 1)
    }
}

proof fn lemma_run_constant(xs: Seq<u16>, run_vals: Seq<u16>, run_ends: Seq<u16>, k: int, i: int)
    requires
        is_run_end_encoding(xs, run_vals, run_ends),
        in_run(run_ends, k, i),
    ensures
        xs[i] == xs[run_ends[k] as int],
    decreases run_ends[k] - i,
{
    if i < run_ends[k] {
        assert(is_run_end(xs, run_ends[k] as int));
        if is_run_end(xs, i) {
            let r = choose|r: int| 0 <= r < run_ends.len() && #[trigger] run_ends[r] == i;
            if r > k {
                assert(run_ends[k] < run_ends[r]);
            }
            if r < k - 1 {
                assert(run_ends[r] < run_ends[k - 1]);
            }
        }
        lemma_run_constant(xs, run_vals, run_ends, k, i + 1);
    }
}

/// Expanding the run-end encoding of `xs` gives back `xs`.
pub proof fn law_run_end_round_trip(
    xs: Seq<u16>,
    run_vals: Seq<u16>,
    run_ends: Seq<u16>,
    expanded: Seq<u16>,
)
    requires
        is_run_end_encoding(xs, run_vals, run_ends),
        expanded.len() == runs_len(run_ends),
        forall|k: int, i: int| in_run(run_ends, k, i) ==> #[trigger] expanded[i] == #[trigger] run_vals[k],
    ensures
        expanded == xs,
{
    if xs.len() == 0 {
        if run_ends.len() > 0 {
            assert(is_run_end(xs, run_ends[0] as int));
        }
    } else {
        assert(is_run_end(xs, xs.len() - 1));
        let r = choose|r: int| 0 <= r < run_ends.len() && #[trigger] run_ends[r] == xs.len() - 1;
        let n = run_ends.len() - 1;
        if r < n {
            assert(run_ends[r] < run_ends[n]);
            assert(is_run_end(xs, run_ends[n] as int));
        }
        assert forall|i: int| 0 <= i < xs.len() implies #[trigger] expanded[i] == xs[i] by {
            let k = lemma_run_of(run_ends, i, 0);
            lemma_run_constant(xs, run_vals, run_ends, k, i);
            assert(expanded[i] == run_vals[k]);
            assert(run_vals[k] == xs[run_ends[k] as int]);
        }
        assert(expanded =~= xs);
    }
}

} // verus!
