use vstd::prelude::*;

verus! {

/// `xs` rises by the same step from each value to the next:
/// `xs[i] == xs[0] + i * step`.
pub open spec fn is_pos_virt(xs: Seq<i64>, step: int) -> bool {
    forall|i: int| 0 <= i < xs.len() ==> #[trigger] xs[i] == xs[0] + i * step
}

/// `xs` is runs of `k` equal values rising by one from run to run, with at
/// least two runs and a last run of at most `k` values:
/// `xs[i] == xs[0] + i / k`.
pub open spec fn is_neg_virt(xs: Seq<i64>, k: int) -> bool {
    &&& 1 <= k < xs.len()
    &&& forall|i: int| 0 <= i < xs.len() ==> #[trigger] xs[i] == xs[0] + i / k
}

/// Finds `(base, step)` with `xs[i] == base + i * step`, for two or more
/// values; a track of such values needs no stored content.
pub fn pos_virt_base_and_factor(xs: &[i64]) -> (r: Option<(i64, i64)>)
    ensures
        r matches Some((base, step)) ==> xs@.len() >= 2 && base == xs@[0] && is_pos_virt(
            xs@,
            step as int,
        ),
        r is None ==> xs@.len() < 2 || forall|step: int|
            i64::MIN <= step <= i64::MAX ==> !is_pos_virt(xs@, step),
{
    if xs.len() < 2 {
        return None;
    }
    let base = xs[0];
    let diff: i128 = xs[1] as i128 - xs[0] as i128;
    if diff < i64::MIN as i128 || diff > i64::MAX as i128 {
        proof {
            assert forall|step: int| i64::MIN <= step <= i64::MAX implies !is_pos_virt(
                xs@,
                step,
            ) by {
                if is_pos_virt(xs@, step) {
                    assert(xs@[1] == xs@[0] + 1 * step);
                }
            }
        }
        return None;
    }
    let step = diff as i64;
    let mut i: usize = 2;
    proof {
        assert(xs@[0] == xs@[0] + 0 * step);
        assert(xs@[1] == xs@[0] + 1 * step);
    }
    while i < xs.len()
        invariant
            2 <= i <= xs@.len(),
            base == xs@[0],
            step == xs@[1] - xs@[0],
            forall|j: int| 0 <= j < i ==> #[trigger] xs@[j] == xs@[0] + j * step,
        decreases xs@.len() - i,
    {
        let d: i128 = xs[i] as i128 - xs[i - 1] as i128;
        if d != step as i128 {
            proof {
                assert forall|s: int| i64::MIN <= s <= i64::MAX implies !is_pos_virt(xs@, s) by {
                    if is_pos_virt(xs@, s) {
                        assert(xs@[1] == xs@[0] + 1 * s);
                        assert(xs@[i as int] == xs@[0] + i * s);
                        assert(xs@[i - 1] == xs@[0] + (i - 1) * s);
                        assert(xs@[i as int] - xs@[i - 1] == s) by (nonlinear_arith)
                            requires
                                xs@[i as int] == xs@[0] + i * s,
                                xs@[i - 1] == xs@[0] + (i - 1) * s,
                        ;
                    }
                }
            }
            return None;
        }
        proof {
            assert(xs@[i - 1] == xs@[0] + (i - 1) * step);
            assert(xs@[i as int] == xs@[0] + i * step) by (nonlinear_arith)
                requires
                    xs@[i - 1] == xs@[0] + (i - 1) * step,
                    xs@[i as int] - xs@[i - 1] == step,
            ;
        }
        i = i + 1;
    }
    Some((base, step))
}

proof fn lemma_div_facts(j: int, k: int)
    requires
        1 <= k,
        0 <= j,
    ensures
        j < k ==> j / k == 0,
        j == k ==> j / k == 1,
        j / k <= j,
        j / k >= 0,
{
    assert(j < k ==> j / k == 0) by (nonlinear_arith)
        requires
            1 <= k,
            0 <= j,
    ;
    assert(j == k ==> j / k == 1) by (nonlinear_arith)
        requires
            1 <= k,
            0 <= j,
    ;
    assert(j / k <= j && j / k >= 0) by (nonlinear_arith)
        requires
            1 <= k,
            0 <= j,
    ;
}

/// In a sequence that is runs of `k`, `k` is the first position whose value
/// differs from the first value.
proof fn lemma_neg_virt_first_change(xs: Seq<i64>, k: int)
    requires
        is_neg_virt(xs, k),
    ensures
        forall|j: int| 0 <= j < k ==> #[trigger] xs[j] == xs[0],
        xs[k] == xs[0] + 1,
{
    assert forall|j: int| 0 <= j < k implies #[trigger] xs[j] == xs[0] by {
        lemma_div_facts(j, k);
    }
    lemma_div_facts(k, k);
}

/// Finds `(base, -k)` where `xs` is runs of `k` copies of `base`, `base + 1`,
/// and so on, the last run possibly shorter; such a track needs no stored
/// content.
pub fn neg_virt_base_and_factor(xs: &[i64]) -> (r: Option<(i64, i64)>)
    requires
        xs@.len() <= i64::MAX,
    ensures
        r matches Some((base, f)) ==> base == xs@[0] && is_neg_virt(xs@, -f),
        r is None ==> forall|k: int| !is_neg_virt(xs@, k),
{
    if xs.len() < 2 {
        return None;
    }
    let base = xs[0];
    let mut k: usize = 1;
    while k < xs.len() && xs[k] == base
        invariant
            1 <= k <= xs@.len(),
            base == xs@[0],
            forall|j: int| 0 <= j < k ==> #[trigger] xs@[j] == base,
        decreases xs@.len() - k,
    {
        k = k + 1;
    }
    if k == xs.len() {
        proof {
            assert forall|k2: int| !is_neg_virt(xs@, k2) by {
                if is_neg_virt(xs@, k2) {
                    lemma_neg_virt_first_change(xs@, k2);
                }
            }
        }
        return None;
    }
    if base == i64::MAX || xs[k] != base + 1 {
        proof {
            assert forall|k2: int| !is_neg_virt(xs@, k2) by {
                if is_neg_virt(xs@, k2) {
                    lemma_neg_virt_first_change(xs@, k2);
                    if k2 < k {
                        assert(xs@[k2] == base);
                    }
                }
            }
        }
        return None;
    }
    let mut i: usize = k + 1;
    proof {
        assert forall|j: int| 0 <= j < i implies #[trigger] xs@[j] == xs@[0] + j / (k as int) by {
            lemma_div_facts(j, k as int);
        }
    }
    while i < xs.len()
        invariant
            1 <= k < i <= xs@.len(),
            base == xs@[0],
            k < xs@.len(),
            forall|j: int| 0 <= j < k ==> #[trigger] xs@[j] == base,
            xs@[k as int] == base + 1,
            forall|j: int| 0 <= j < i ==> #[trigger] xs@[j] == xs@[0] + j / (k as int),
        decreases xs@.len() - i,
    {
        let q: usize = i / k;
        proof {
            lemma_div_facts(i as int, k as int);
        }
        if xs[i] as i128 != base as i128 + q as i128 {
            proof {
                assert forall|k2: int| !is_neg_virt(xs@, k2) by {
                    if is_neg_virt(xs@, k2) {
                        lemma_neg_virt_first_change(xs@, k2);
                        if k2 < k {
                            assert(xs@[k2] == base);
                        }
                        if k2 > k {
                            assert(xs@[k as int] == base);
                        }
                    }
                }
            }
            return None;
        }
        i = i + 1;
    }
    proof {
        lemma_div_facts(xs@.len() as int, 1);
    }
    Some((base, -(k as i64)))
}

/// Two or more values rise by at most one step: the step that
/// `pos_virt_base_and_factor` reports is the only one.
pub proof fn law_pos_virt_step_unique(xs: Seq<i64>, s1: int, s2: int)
    requires
        xs.len() >= 2,
        is_pos_virt(xs, s1),
        is_pos_virt(xs, s2),
    ensures
        s1 == s2,
{
    assert(xs[1] == xs[0] + 1 * s1);
    assert(xs[1] == xs[0] + 1 * s2);
}

/// A sequence is runs of at most one length: the factor that
/// `neg_virt_base_and_factor` reports is the only one.
pub proof fn law_neg_virt_run_unique(xs: Seq<i64>, k1: int, k2: int)
    requires
        is_neg_virt(xs, k1),
        is_neg_virt(xs, k2),
    ensures
        k1 == k2,
{
    lemma_neg_virt_first_change(xs, k1);
    lemma_neg_virt_first_change(xs, k2);
    if k1 < k2 {
        assert(xs[k1] == xs[0]);
    }
    if k2 < k1 {
        assert(xs[k2] == xs[0]);
    }
}

} // verus!
