//! Folding, combining, packing and adding multilinear polynomials given by
//! their evaluations over the boolean hypercube.
//!
//! Folding a list of `k * n` evaluations with `k` scalars gives the list of
//! `n` values `sum_j m[i + j * n] * s[j]`.
use vstd::prelude::*;
use crate::field::{Fp, P, fadd, fmul, fp_views, lemma_fp_view_lt};
use crate::extension::{
    Ext, ext_add, ext_mul, ext_scale, ext_zero, ext_views, is_ext, lemma_ext_view_wf, lemma_ext_add_zero,
    lemma_ext_scale_zero_one, ext_from_base, lemma_ext_mul_base,
};
use crate::evals::{EvaluationsList, is_power_of_two, lemma_pow2_div, lemma_pow2_half};
use crate::univariate::{base_grid, base_unit, lagrange_basis_base, lemma_lagrange_basis_base_at_grid};

verus! {

broadcast use {lemma_fp_view_lt, lemma_ext_view_wf};

/// `sum_{j < k} m[i + j * n] * s[j]` for extension evaluations and base scalars.
pub open spec fn fold_small_at(m: Seq<Seq<nat>>, s: Seq<nat>, n: int, i: int, k: int) -> Seq<nat>
    decreases k,
{
    if k <= 0 {
        ext_zero()
    } else {
        ext_add(fold_small_at(m, s, n, i, k - 1), ext_scale(m[i + (k - 1) * n], s[k - 1]))
    }
}

/// `sum_{j < k} s[j] * m[i + j * n]` for base evaluations and extension scalars.
pub open spec fn fold_large_at(m: Seq<nat>, s: Seq<Seq<nat>>, n: int, i: int, k: int) -> Seq<nat>
    decreases k,
{
    if k <= 0 {
        ext_zero()
    } else {
        ext_add(fold_large_at(m, s, n, i, k - 1), ext_scale(s[k - 1], m[i + (k - 1) * n]))
    }
}

/// `sum_{j < k} m[i + j * n] * s[j]` in the base field.
pub open spec fn fold_base_at(m: Seq<nat>, s: Seq<nat>, n: int, i: int, k: int) -> nat
    decreases k,
{
    if k <= 0 {
        0
    } else {
        fadd(fold_base_at(m, s, n, i, k - 1) as int, fmul(m[i + (k - 1) * n] as int, s[k - 1] as int) as int)
    }
}

/// `sum_{j < k} s[j] * m[i + j * n]` with extension evaluations and scalars.
pub open spec fn fold_ext_at(m: Seq<Seq<nat>>, s: Seq<Seq<nat>>, n: int, i: int, k: int) -> Seq<nat>
    decreases k,
{
    if k <= 0 {
        ext_zero()
    } else {
        ext_add(fold_ext_at(m, s, n, i, k - 1), ext_mul(s[k - 1], m[i + (k - 1) * n]))
    }
}

/// The fold of extension evaluations by extension scalars.
pub open spec fn fold_ext(m: Seq<Seq<nat>>, s: Seq<Seq<nat>>) -> Seq<Seq<nat>> {
    let n = m.len() / s.len();
    Seq::new(n, |i: int| fold_ext_at(m, s, n as int, i, s.len() as int))
}

/// The fold of extension evaluations by base scalars.
pub open spec fn fold_small(m: Seq<Seq<nat>>, s: Seq<nat>) -> Seq<Seq<nat>> {
    let n = m.len() / s.len();
    Seq::new(n, |i: int| fold_small_at(m, s, n as int, i, s.len() as int))
}

/// The fold of base evaluations by extension scalars.
pub open spec fn fold_large(m: Seq<nat>, s: Seq<Seq<nat>>) -> Seq<Seq<nat>> {
    let n = m.len() / s.len();
    Seq::new(n, |i: int| fold_large_at(m, s, n as int, i, s.len() as int))
}

/// The fold of base evaluations by base scalars.
pub open spec fn fold_base(m: Seq<nat>, s: Seq<nat>) -> Seq<nat> {
    let n = m.len() / s.len();
    Seq::new(n, |i: int| fold_base_at(m, s, n as int, i, s.len() as int))
}

/// The fold of the two halves of extension evaluations by two base scalars.
pub open spec fn fold_small_halves(m: Seq<Seq<nat>>, s: Seq<nat>) -> Seq<Seq<nat>> {
    let n = m.len() / 2;
    Seq::new(n, |i: int| ext_add(ext_scale(m[i], s[0]), ext_scale(m[i + n], s[1])))
}

/// The fold of the two halves of base evaluations by two extension scalars.
pub open spec fn fold_large_halves(m: Seq<nat>, s: Seq<Seq<nat>>) -> Seq<Seq<nat>> {
    let n = m.len() / 2;
    Seq::new(n, |i: int| ext_add(ext_scale(s[0], m[i]), ext_scale(s[1], m[i + n])))
}

/// The residues of each list.
pub open spec fn fp_lists(pols: Seq<EvaluationsList<Fp>>) -> Seq<Seq<nat>> {
    pols.map_values(|p: EvaluationsList<Fp>| fp_views(p@))
}

/// `sum_{j < k} s[j] * pols[j][i]`.
pub open spec fn combination_at(pols: Seq<Seq<nat>>, s: Seq<Seq<nat>>, i: int, k: int) -> Seq<nat>
    decreases k,
{
    if k <= 0 {
        ext_zero()
    } else {
        ext_add(combination_at(pols, s, i, k - 1), ext_scale(s[k - 1], pols[k - 1][i]))
    }
}

/// Pointwise sum of two lists of extension elements.
pub open spec fn pointwise_sum(a: Seq<Seq<nat>>, b: Seq<Seq<nat>>) -> Seq<Seq<nat>> {
    Seq::new(a.len(), |i: int| ext_add(a[i], b[i]))
}

/// The concatenation of the lists, each of length `len`, padded with zeros to
/// length `total`.
pub open spec fn packed(pols: Seq<Seq<nat>>, len: nat, total: nat) -> Seq<nat> {
    Seq::new(
        total,
        |t: int|
            if t < pols.len() * len {
                pols[t / (len as int)][t % (len as int)]
            } else {
                0nat
            },
    )
}

proof fn lemma_block_index(i: int, j: int, n: int, k: int)
    requires
        0 <= i < n,
        0 <= j < k,
    ensures
        0 <= j * n,
        i + j * n < k * n,
        i + j * n < n * k,
{
    assert(0 <= j * n) by (nonlinear_arith)
        requires
            0 <= j,
            0 < n,
    ;
    assert(i + j * n < k * n) by (nonlinear_arith)
        requires
            0 <= i < n,
            0 <= j < k,
    ;
    assert(k * n == n * k) by (nonlinear_arith);
}

/// Folds extension evaluations with base scalars: with `k` scalars and `k * n`
/// evaluations, the result holds the `n` values `sum_j m[i + j * n] * s[j]`.
pub fn fold_multilinear_in_small_field(m: &EvaluationsList<Ext>, scalars: &[Fp]) -> (r:
    EvaluationsList<Ext>)
    requires
        is_power_of_two(scalars@.len()),
        scalars@.len() <= m@.len(),
    ensures
        r@.len() * scalars@.len() == m@.len(),
        ext_views(r@) == fold_small(ext_views(m@), fp_views(scalars@)),
{
    let len = m.num_evals();
    let k = scalars.len();
    proof {
        lemma_pow2_div(len as nat, k as nat);
    }
    let new_size = len / k;
    let evals = m.evals();
    let mut out: Vec<Ext> = Vec::new();
    for i in 0..new_size
        invariant
            new_size == len / k,
            new_size * k == len,
            len == m@.len(),
            k == scalars@.len(),
            evals@ == m@,
            out@.len() == i,
            forall|t: int|
                0 <= t < i ==> #[trigger] out@[t]@ == fold_small_at(ext_views(m@), fp_views(scalars@),
                    new_size as int,
                    t,
                    k as int,
                ),
    {
        let mut acc = Ext::zero();
        for j in 0..k
            invariant
                new_size == len / k,
                new_size * k == len,
                len == m@.len(),
                k == scalars@.len(),
                evals@ == m@,
                i < new_size,
                acc@ == fold_small_at(ext_views(m@), fp_views(scalars@), new_size as int, i as int, j as int),
        {
            proof {
                lemma_block_index(i as int, j as int, new_size as int, k as int);
            }
            let term = evals[i + j * new_size].mul_base(scalars[j]);
            acc = acc.add(term);
        }
        out.push(acc);
    }
    proof {
        assert(ext_views(out@) =~= fold_small(ext_views(m@), fp_views(scalars@)));
    }
    EvaluationsList::new(out)
}

/// Folds the two halves of extension evaluations with two base scalars:
/// `m[i] * s[0] + m[i + n] * s[1]` for `2 * n` evaluations.
pub fn fold_multilinear_in_small_field_no_skip(m: &EvaluationsList<Ext>, scalars: &[Fp]) -> (r:
    EvaluationsList<Ext>)
    requires
        m@.len() >= 2,
        scalars@.len() >= 2,
    ensures
        r@.len() * 2 == m@.len(),
        ext_views(r@) == fold_small_halves(ext_views(m@), fp_views(scalars@)),
{
    let len = m.num_evals();
    proof {
        lemma_pow2_half(len as nat);
    }
    let new_size = len / 2;
    let evals = m.evals();
    let s0 = scalars[0];
    let s1 = scalars[1];
    let mut out: Vec<Ext> = Vec::new();
    for i in 0..new_size
        invariant
            new_size == len / 2,
            new_size * 2 == len,
            len == m@.len(),
            scalars@.len() >= 2,
            s0 == scalars@[0],
            s1 == scalars@[1],
            evals@ == m@,
            out@.len() == i,
            forall|t: int|
                0 <= t < i ==> #[trigger] out@[t]@ == ext_add(
                    ext_scale(m@[t]@, scalars@[0]@),
                    ext_scale(m@[t + new_size]@, scalars@[1]@),
                ),
    {
        let a = evals[i];
        let b = evals[i + new_size];
        out.push(a.mul_base(s0).add(b.mul_base(s1)));
    }
    proof {
        assert(ext_views(out@) =~= fold_small_halves(ext_views(m@), fp_views(scalars@)));
    }
    EvaluationsList::new(out)
}

/// Folds base evaluations with base scalars: with `k` scalars and `k * n`
/// evaluations, the result holds the `n` values `sum_j m[i + j * n] * s[j]`.
pub fn fold_multilinear_packed(m: &EvaluationsList<Fp>, scalars: &[Fp]) -> (r: EvaluationsList<Fp>)
    requires
        is_power_of_two(scalars@.len()),
        scalars@.len() <= m@.len(),
    ensures
        r@.len() * scalars@.len() == m@.len(),
        fp_views(r@) == fold_base(fp_views(m@), fp_views(scalars@)),
{
    let len = m.num_evals();
    let k = scalars.len();
    proof {
        lemma_pow2_div(len as nat, k as nat);
    }
    let new_size = len / k;
    let evals = m.evals();
    let mut out: Vec<Fp> = Vec::new();
    for i in 0..new_size
        invariant
            new_size == len / k,
            new_size * k == len,
            len == m@.len(),
            k == scalars@.len(),
            evals@ == m@,
            out@.len() == i,
            forall|t: int|
                0 <= t < i ==> #[trigger] out@[t]@ == fold_base_at(fp_views(m@), fp_views(scalars@),
                    new_size as int,
                    t,
                    k as int,
                ),
    {
        let mut acc = Fp::zero();
        for j in 0..k
            invariant
                new_size == len / k,
                new_size * k == len,
                len == m@.len(),
                k == scalars@.len(),
                evals@ == m@,
                i < new_size,
                acc@ == fold_base_at(fp_views(m@), fp_views(scalars@), new_size as int, i as int, j as int),
        {
            proof {
                lemma_block_index(i as int, j as int, new_size as int, k as int);
            }
            let term = evals[i + j * new_size].mul(scalars[j]);
            acc = acc.add(term);
        }
        out.push(acc);
    }
    proof {
        assert(fp_views(out@) =~= fold_base(fp_views(m@), fp_views(scalars@)));
    }
    EvaluationsList::new(out)
}

/// Folds base evaluations with extension scalars: with `k` scalars and `k * n`
/// evaluations, the result holds the `n` values `sum_j s[j] * m[i + j * n]`.
pub fn fold_multilinear_in_large_field(m: &EvaluationsList<Fp>, scalars: &[Ext]) -> (r:
    EvaluationsList<Ext>)
    requires
        is_power_of_two(scalars@.len()),
        scalars@.len() <= m@.len(),
    ensures
        r@.len() * scalars@.len() == m@.len(),
        ext_views(r@) == fold_large(fp_views(m@), ext_views(scalars@)),
{
    let len = m.num_evals();
    let k = scalars.len();
    proof {
        lemma_pow2_div(len as nat, k as nat);
    }
    let new_size = len / k;
    let evals = m.evals();
    let mut out: Vec<Ext> = Vec::new();
    for i in 0..new_size
        invariant
            new_size == len / k,
            new_size * k == len,
            len == m@.len(),
            k == scalars@.len(),
            evals@ == m@,
            out@.len() == i,
            forall|t: int|
                0 <= t < i ==> #[trigger] out@[t]@ == fold_large_at(fp_views(m@), ext_views(scalars@),
                    new_size as int,
                    t,
                    k as int,
                ),
    {
        let mut acc = Ext::zero();
        for j in 0..k
            invariant
                new_size == len / k,
                new_size * k == len,
                len == m@.len(),
                k == scalars@.len(),
                evals@ == m@,
                i < new_size,
                acc@ == fold_large_at(fp_views(m@), ext_views(scalars@), new_size as int, i as int, j as int),
        {
            proof {
                lemma_block_index(i as int, j as int, new_size as int, k as int);
            }
            let term = scalars[j].mul_base(evals[i + j * new_size]);
            acc = acc.add(term);
        }
        out.push(acc);
    }
    proof {
        assert(ext_views(out@) =~= fold_large(fp_views(m@), ext_views(scalars@)));
    }
    EvaluationsList::new(out)
}

/// Folds extension evaluations with extension scalars: with `k` scalars and
/// `k * n` evaluations, the result holds the `n` values
/// `sum_j s[j] * m[i + j * n]`.
pub fn fold_multilinear_in_extension(m: &EvaluationsList<Ext>, scalars: &[Ext]) -> (r:
    EvaluationsList<Ext>)
    requires
        is_power_of_two(scalars@.len()),
        scalars@.len() <= m@.len(),
    ensures
        r@.len() * scalars@.len() == m@.len(),
        ext_views(r@) == fold_ext(ext_views(m@), ext_views(scalars@)),
{
    let len = m.num_evals();
    let k = scalars.len();
    proof {
        lemma_pow2_div(len as nat, k as nat);
    }
    let new_size = len / k;
    let evals = m.evals();
    let mut out: Vec<Ext> = Vec::new();
    for i in 0..new_size
        invariant
            new_size == len / k,
            new_size * k == len,
            len == m@.len(),
            k == scalars@.len(),
            evals@ == m@,
            out@.len() == i,
            forall|t: int|
                0 <= t < i ==> #[trigger] out@[t]@ == fold_ext_at(
                    ext_views(m@),
                    ext_views(scalars@),
                    new_size as int,
                    t,
                    k as int,
                ),
    {
        let mut acc = Ext::zero();
        for j in 0..k
            invariant
                new_size == len / k,
                new_size * k == len,
                len == m@.len(),
                k == scalars@.len(),
                evals@ == m@,
                i < new_size,
                acc@ == fold_ext_at(ext_views(m@), ext_views(scalars@), new_size as int, i as int, j as int),
        {
            proof {
                lemma_block_index(i as int, j as int, new_size as int, k as int);
            }
            let term = scalars[j].mul(evals[i + j * new_size]);
            acc = acc.add(term);
        }
        out.push(acc);
    }
    proof {
        assert(ext_views(out@) =~= fold_ext(ext_views(m@), ext_views(scalars@)));
    }
    EvaluationsList::new(out)
}

/// Folds each list with [`fold_multilinear_in_extension`].
pub fn batch_fold_multilinear_in_extension(polys: &[&EvaluationsList<Ext>], scalars: &[Ext]) -> (r: Vec<EvaluationsList<Ext>>)
    requires
        is_power_of_two(scalars@.len()),
        forall|j: int| 0 <= j < polys@.len() ==> scalars@.len() <= #[trigger] polys@[j]@.len(),
    ensures
        r@.len() == polys@.len(),
        forall|j: int| 0 <= j < polys@.len() ==> #[trigger] ext_views(r@[j]@) == fold_ext(ext_views(polys@[j]@), ext_views(scalars@)),
        forall|j: int| 0 <= j < polys@.len() ==> #[trigger] r@[j]@.len() * scalars@.len() == polys@[j]@.len(),
{
    let n = polys.len();
    let mut out: Vec<EvaluationsList<Ext>> = Vec::new();
    for j in 0..n
        invariant
            n == polys@.len(),
            is_power_of_two(scalars@.len()),
            forall|j: int| 0 <= j < polys@.len() ==> scalars@.len() <= #[trigger] polys@[j]@.len(),
            out@.len() == j,
            forall|t: int| 0 <= t < j ==> #[trigger] ext_views(out@[t]@) == fold_ext(ext_views(polys@[t]@), ext_views(scalars@)),
            forall|t: int| 0 <= t < j ==> #[trigger] out@[t]@.len() * scalars@.len() == polys@[t]@.len(),
    {
        let x = fold_multilinear_in_extension(polys[j], scalars);
        out.push(x);
    }
    out
}

/// Folds the two halves of base evaluations with two extension scalars:
/// `s[0] * m[i] + s[1] * m[i + n]` for `2 * n` evaluations.
pub fn fold_multilinear_in_large_field_no_skip(m: &EvaluationsList<Fp>, scalars: &[Ext]) -> (r:
    EvaluationsList<Ext>)
    requires
        m@.len() >= 2,
        scalars@.len() >= 2,
    ensures
        r@.len() * 2 == m@.len(),
        ext_views(r@) == fold_large_halves(fp_views(m@), ext_views(scalars@)),
{
    let len = m.num_evals();
    proof {
        lemma_pow2_half(len as nat);
    }
    let new_size = len / 2;
    let evals = m.evals();
    let s0 = scalars[0];
    let s1 = scalars[1];
    let mut out: Vec<Ext> = Vec::new();
    for i in 0..new_size
        invariant
            new_size == len / 2,
            new_size * 2 == len,
            len == m@.len(),
            scalars@.len() >= 2,
            s0 == scalars@[0],
            s1 == scalars@[1],
            evals@ == m@,
            out@.len() == i,
            forall|t: int|
                0 <= t < i ==> #[trigger] out@[t]@ == ext_add(
                    ext_scale(scalars@[0]@, m@[t]@),
                    ext_scale(scalars@[1]@, m@[t + new_size]@),
                ),
    {
        let a = evals[i];
        let b = evals[i + new_size];
        out.push(s0.mul_base(a).add(s1.mul_base(b)));
    }
    proof {
        assert(ext_views(out@) =~= fold_large_halves(fp_views(m@), ext_views(scalars@)));
    }
    EvaluationsList::new(out)
}

/// The combination `sum_j s[j] * pols[j]` of lists of equal length.
pub fn multilinears_linear_combination(pols: &[EvaluationsList<Fp>], scalars: &[Ext]) -> (r:
    EvaluationsList<Ext>)
    requires
        pols@.len() == scalars@.len(),
        pols@.len() >= 1,
        forall|j: int| 0 <= j < pols@.len() ==> #[trigger] pols@[j]@.len() == pols@[0]@.len(),
    ensures
        r@.len() == pols@[0]@.len(),
        forall|i: int|
            0 <= i < r@.len() ==> #[trigger] r@[i]@ == combination_at(fp_lists(pols@), ext_views(scalars@),
                i,
                pols@.len() as int,
            ),
{
    let len = pols[0].num_evals();
    let k = pols.len();
    let mut out: Vec<Ext> = Vec::new();
    for i in 0..len
        invariant
            len == pols@[0]@.len(),
            is_power_of_two(len as nat),
            k == pols@.len(),
            k == scalars@.len(),
            forall|j: int| 0 <= j < pols@.len() ==> #[trigger] pols@[j]@.len() == pols@[0]@.len(),
            out@.len() == i,
            forall|t: int|
                0 <= t < i ==> #[trigger] out@[t]@ == combination_at(fp_lists(pols@), ext_views(scalars@), t, k as int),
    {
        let mut acc = Ext::zero();
        for j in 0..k
            invariant
                len == pols@[0]@.len(),
                k == pols@.len(),
                k == scalars@.len(),
                forall|j: int| 0 <= j < pols@.len() ==> #[trigger] pols@[j]@.len() == pols@[0]@.len(),
                i < len,
                acc@ == combination_at(fp_lists(pols@), ext_views(scalars@), i as int, j as int),
        {
            let pol = &pols[j];
            let v = pol.evals()[i];
            acc = acc.add(scalars[j].mul_base(v));
        }
        out.push(acc);
    }
    EvaluationsList::new(out)
}

/// Folds each list with [`fold_multilinear_in_large_field`].
pub fn batch_fold_multilinear_in_large_field(polys: &[&EvaluationsList<Fp>], scalars: &[Ext]) -> (r: Vec<EvaluationsList<Ext>>)
    requires
        is_power_of_two(scalars@.len()),
        forall|j: int| 0 <= j < polys@.len() ==> scalars@.len() <= #[trigger] polys@[j]@.len(),
    ensures
        r@.len() == polys@.len(),
        forall|j: int| 0 <= j < polys@.len() ==> #[trigger] ext_views(r@[j]@) == fold_large(fp_views(polys@[j]@), ext_views(scalars@)),
        forall|j: int| 0 <= j < polys@.len() ==> #[trigger] r@[j]@.len() * scalars@.len() == polys@[j]@.len(),
{
    let n = polys.len();
    let mut out: Vec<EvaluationsList<Ext>> = Vec::new();
    for j in 0..n
        invariant
            n == polys@.len(),
            is_power_of_two(scalars@.len()),
            forall|j: int| 0 <= j < polys@.len() ==> scalars@.len() <= #[trigger] polys@[j]@.len(),
            out@.len() == j,
            forall|t: int| 0 <= t < j ==> #[trigger] ext_views(out@[t]@) == fold_large(fp_views(polys@[t]@), ext_views(scalars@)),
            forall|t: int| 0 <= t < j ==> #[trigger] out@[t]@.len() * scalars@.len() == polys@[t]@.len(),
    {
        let x = fold_multilinear_in_large_field(polys[j], scalars);
        out.push(x);
    }
    out
}

/// Folds each list with [`fold_multilinear_in_large_field_no_skip`].
pub fn batch_fold_multilinear_in_large_field_no_skip(polys: &[&EvaluationsList<Fp>], scalars: &[Ext]) -> (r: Vec<EvaluationsList<Ext>>)
    requires
        scalars@.len() >= 2,
        forall|j: int| 0 <= j < polys@.len() ==> #[trigger] polys@[j]@.len() >= 2,
    ensures
        r@.len() == polys@.len(),
        forall|j: int| 0 <= j < polys@.len() ==> #[trigger] ext_views(r@[j]@) == fold_large_halves(fp_views(polys@[j]@), ext_views(scalars@)),
        forall|j: int| 0 <= j < polys@.len() ==> #[trigger] r@[j]@.len() * 2 == polys@[j]@.len(),
{
    let n = polys.len();
    let mut out: Vec<EvaluationsList<Ext>> = Vec::new();
    for j in 0..n
        invariant
            n == polys@.len(),
            scalars@.len() >= 2,
            forall|j: int| 0 <= j < polys@.len() ==> #[trigger] polys@[j]@.len() >= 2,
            out@.len() == j,
            forall|t: int| 0 <= t < j ==> #[trigger] ext_views(out@[t]@) == fold_large_halves(fp_views(polys@[t]@), ext_views(scalars@)),
            forall|t: int| 0 <= t < j ==> #[trigger] out@[t]@.len() * 2 == polys@[t]@.len(),
    {
        let x = fold_multilinear_in_large_field_no_skip(polys[j], scalars);
        out.push(x);
    }
    out
}

/// Folds each list with [`fold_multilinear_in_small_field`].
pub fn batch_fold_multilinear_in_small_field(polys: &[&EvaluationsList<Ext>], scalars: &[Fp]) -> (r: Vec<EvaluationsList<Ext>>)
    requires
        is_power_of_two(scalars@.len()),
        forall|j: int| 0 <= j < polys@.len() ==> scalars@.len() <= #[trigger] polys@[j]@.len(),
    ensures
        r@.len() == polys@.len(),
        forall|j: int| 0 <= j < polys@.len() ==> #[trigger] ext_views(r@[j]@) == fold_small(ext_views(polys@[j]@), fp_views(scalars@)),
        forall|j: int| 0 <= j < polys@.len() ==> #[trigger] r@[j]@.len() * scalars@.len() == polys@[j]@.len(),
{
    let n = polys.len();
    let mut out: Vec<EvaluationsList<Ext>> = Vec::new();
    for j in 0..n
        invariant
            n == polys@.len(),
            is_power_of_two(scalars@.len()),
            forall|j: int| 0 <= j < polys@.len() ==> scalars@.len() <= #[trigger] polys@[j]@.len(),
            out@.len() == j,
            forall|t: int| 0 <= t < j ==> #[trigger] ext_views(out@[t]@) == fold_small(ext_views(polys@[t]@), fp_views(scalars@)),
            forall|t: int| 0 <= t < j ==> #[trigger] out@[t]@.len() * scalars@.len() == polys@[t]@.len(),
    {
        let x = fold_multilinear_in_small_field(polys[j], scalars);
        out.push(x);
    }
    out
}

/// Folds each list with [`fold_multilinear_in_small_field_no_skip`].
pub fn batch_fold_multilinear_in_small_field_no_skip(polys: &[&EvaluationsList<Ext>], scalars: &[Fp]) -> (r: Vec<EvaluationsList<Ext>>)
    requires
        scalars@.len() >= 2,
        forall|j: int| 0 <= j < polys@.len() ==> #[trigger] polys@[j]@.len() >= 2,
    ensures
        r@.len() == polys@.len(),
        forall|j: int| 0 <= j < polys@.len() ==> #[trigger] ext_views(r@[j]@) == fold_small_halves(ext_views(polys@[j]@), fp_views(scalars@)),
        forall|j: int| 0 <= j < polys@.len() ==> #[trigger] r@[j]@.len() * 2 == polys@[j]@.len(),
{
    let n = polys.len();
    let mut out: Vec<EvaluationsList<Ext>> = Vec::new();
    for j in 0..n
        invariant
            n == polys@.len(),
            scalars@.len() >= 2,
            forall|j: int| 0 <= j < polys@.len() ==> #[trigger] polys@[j]@.len() >= 2,
            out@.len() == j,
            forall|t: int| 0 <= t < j ==> #[trigger] ext_views(out@[t]@) == fold_small_halves(ext_views(polys@[t]@), fp_views(scalars@)),
            forall|t: int| 0 <= t < j ==> #[trigger] out@[t]@.len() * 2 == polys@[t]@.len(),
    {
        let x = fold_multilinear_in_small_field_no_skip(polys[j], scalars);
        out.push(x);
    }
    out
}

/// The least power of two that is at least `x`.
pub fn next_power_of_two(x: usize) -> (r: usize)
    requires
        x <= usize::MAX / 2,
    ensures
        is_power_of_two(r as nat),
        x <= r,
        r / 2 < x || r == 1,
{
    let mut p: usize = 1;
    let ghost mut k: nat = 0;
    proof {
        vstd::arithmetic::power2::lemma2_to64();
    }
    while p < x
        invariant
            x <= usize::MAX / 2,
            p == vstd::arithmetic::power2::pow2(k),
            p >= 1,
            p / 2 < x || p == 1,
        decreases usize::MAX - p,
    {
        proof {
            vstd::arithmetic::power2::lemma_pow2_unfold(k + 1);
        }
        p = p * 2;
        proof {
            k = k + 1;
        }
    }
    p
}

/// Concatenates lists of equal length and pads the result with zeros to the
/// least power of two that is at least the total length.
pub fn packed_multilinear(pols: &[EvaluationsList<Fp>]) -> (r: EvaluationsList<Fp>)
    requires
        pols@.len() >= 1,
        forall|j: int| 0 <= j < pols@.len() ==> #[trigger] pols@[j]@.len() == pols@[0]@.len(),
        pols@.len() * pols@[0]@.len() <= usize::MAX / 2,
    ensures
        is_power_of_two(r@.len()),
        pols@.len() * pols@[0]@.len() <= r@.len(),
        r@.len() / 2 < pols@.len() * pols@[0]@.len() || r@.len() == 1,
        fp_views(r@) == packed(fp_lists(pols@), pols@[0]@.len(), r@.len()),
{
    let len = pols[0].num_evals();
    let count = pols.len();
    let total = count * len;
    let packed_len = next_power_of_two(total);
    proof {
        let e = choose|e: nat| vstd::arithmetic::power2::pow2(e) == len;
        vstd::arithmetic::power2::lemma_pow2_pos(e);
        assert(0 * len == 0);
    }
    let mut dst: Vec<Fp> = Vec::new();
    for t in 0..packed_len
        invariant
            dst@.len() == t,
            forall|u: int| 0 <= u < t ==> #[trigger] dst@[u]@ == 0,
    {
        dst.push(Fp::zero());
    }
    let mut offset: usize = 0;
    for k in 0..count
        invariant
            count == pols@.len(),
            len == pols@[0]@.len(),
            len >= 1,
            total == count * len,
            total <= packed_len,
            forall|j: int| 0 <= j < pols@.len() ==> #[trigger] pols@[j]@.len() == pols@[0]@.len(),
            offset == k * len,
            dst@.len() == packed_len,
            forall|u: int|
                0 <= u < offset ==> #[trigger] dst@[u]@ == pols@[u / (len as int)]@[u % (len as int)]@,
            forall|u: int| offset <= u < packed_len ==> #[trigger] dst@[u]@ == 0,
    {
        proof {
            assert(k * len + len <= count * len) by (nonlinear_arith)
                requires
                    k < count,
            ;
        }
        let pol = pols[k].evals();
        for j in 0..len
            invariant
                count == pols@.len(),
                len == pols@[0]@.len(),
                len >= 1,
                k < count,
                offset == k * len,
                offset + len <= total,
                total <= packed_len,
                pol@ == pols@[k as int]@,
                forall|j: int| 0 <= j < pols@.len() ==> #[trigger] pols@[j]@.len() == pols@[0]@.len(),
                dst@.len() == packed_len,
                forall|u: int|
                    0 <= u < offset + j ==> #[trigger] dst@[u]@ == pols@[u / (len as int)]@[u % (
                    len as int)]@,
                forall|u: int| offset + j <= u < packed_len ==> #[trigger] dst@[u]@ == 0,
        {
            proof {
                vstd::arithmetic::div_mod::lemma_fundamental_div_mod_converse(
                    (offset + j) as int,
                    len as int,
                    k as int,
                    j as int,
                );
            }
            dst.set(offset + j, pol[j]);
        }
        assert(offset + len == (k + 1) * len) by (nonlinear_arith)
            requires
                offset == k * len,
        ;
        offset = offset + len;
    }
    proof {
        assert forall|u: int| 0 <= u < total implies #[trigger] fp_views(dst@)[u] == packed(
            fp_lists(pols@),
            len as nat,
            packed_len as nat,
        )[u] by {
            let q = u / (len as int);
            let rem = u % (len as int);
            vstd::arithmetic::div_mod::lemma_fundamental_div_mod(u, len as int);
            assert(q < count) by (nonlinear_arith)
                requires
                    u == len * q + rem,
                    0 <= rem,
                    u < count * len,
                    len >= 1,
            ;
            assert(0 <= q) by (nonlinear_arith)
                requires
                    u == len * q + rem,
                    rem < len,
                    0 <= u,
                    len >= 1,
            ;
            assert(fp_lists(pols@)[q] == fp_views(pols@[q]@));
        }
        assert(fp_views(dst@) =~= packed(fp_lists(pols@), len as nat, packed_len as nat));
    }
    EvaluationsList::new(dst)
}

/// The pointwise sum of two lists of equal length.
pub fn add_multilinears(pol1: &EvaluationsList<Ext>, pol2: &EvaluationsList<Ext>) -> (r:
    EvaluationsList<Ext>)
    requires
        pol1@.len() == pol2@.len(),
    ensures
        ext_views(r@) == pointwise_sum(ext_views(pol1@), ext_views(pol2@)),
{
    let len = pol1.num_evals();
    let a = pol1.evals();
    let b = pol2.evals();
    let mut out: Vec<Ext> = Vec::new();
    for i in 0..len
        invariant
            len == pol1@.len(),
            len == pol2@.len(),
            is_power_of_two(len as nat),
            a@ == pol1@,
            b@ == pol2@,
            out@.len() == i,
            forall|t: int| 0 <= t < i ==> #[trigger] out@[t]@ == ext_add(pol1@[t]@, pol2@[t]@),
    {
        out.push(a[i].add(b[i]));
    }
    proof {
        assert(ext_views(out@) =~= pointwise_sum(ext_views(pol1@), ext_views(pol2@)));
    }
    EvaluationsList::new(out)
}


/// Base evaluations embedded in the extension.
pub open spec fn lift(m: Seq<nat>) -> Seq<Seq<nat>> {
    Seq::new(m.len(), |i: int| ext_from_base(m[i]))
}

/// Embeds a multilinear over the base field in the extension, so that the
/// prover, which works over the extension, can take it.
pub fn lift_multilinear(m: &EvaluationsList<Fp>) -> (r: EvaluationsList<Ext>)
    ensures
        ext_views(r@) == lift(fp_views(m@)),
{
    let len = m.num_evals();
    let a = m.evals();
    let mut out: Vec<Ext> = Vec::new();
    for i in 0..len
        invariant
            len == m@.len(),
            is_power_of_two(len as nat),
            a@ == m@,
            out@.len() == i,
            forall|t: int| 0 <= t < i ==> #[trigger] out@[t]@ == ext_from_base(m@[t]@),
    {
        out.push(Ext::from_base(a[i]));
    }
    proof {
        assert(ext_views(out@) =~= lift(fp_views(m@)));
    }
    EvaluationsList::new(out)
}

proof fn lemma_fold_lifted_at(m: Seq<nat>, s: Seq<Seq<nat>>, n: int, i: int, k: int)
    requires
        0 <= i < n,
        0 <= k <= s.len(),
        s.len() * n <= m.len(),
    ensures
        fold_ext_at(lift(m), s, n, i, k) == fold_large_at(m, s, n, i, k),
    decreases k,
{
    if k > 0 {
        lemma_fold_lifted_at(m, s, n, i, k - 1);
        assert(i + (k - 1) * n < s.len() * n) by (nonlinear_arith)
            requires
                0 <= i < n,
                0 < k <= s.len(),
        ;
        lemma_ext_mul_base(s[k - 1], m[i + (k - 1) * n]);
    }
}

/// Folding a lifted base multilinear in the extension is folding the base
/// multilinear by extension scalars: lifting loses nothing.
pub proof fn lemma_fold_lifted(m: Seq<nat>, s: Seq<Seq<nat>>)
    requires
        s.len() >= 1,
    ensures
        fold_ext(lift(m), s) == fold_large(m, s),
{
    let n = m.len() / s.len();
    assert(s.len() * n <= m.len()) by (nonlinear_arith)
        requires
            n == m.len() / s.len(),
            s.len() >= 1,
    ;
    assert forall|i: int| 0 <= i < n implies #[trigger] fold_ext(lift(m), s)[i] == fold_large(m, s)[i] by {
        lemma_fold_lifted_at(m, s, n as int, i, s.len() as int);
    }
    assert(fold_ext(lift(m), s) =~= fold_large(m, s));
}

/// Folding by two scalars is folding the two halves.
pub proof fn lemma_fold_small_two_scalars(m: Seq<Seq<nat>>, s: Seq<nat>)
    requires
        s.len() == 2,
        m.len() >= 2,
        m.len() % 2 == 0,
    ensures
        fold_small(m, s) == fold_small_halves(m, s),
{
    let n = m.len() / 2;
    assert forall|i: int| 0 <= i < n implies #[trigger] fold_small(m, s)[i] == fold_small_halves(m, s)[i] by {
        lemma_ext_add_zero(ext_scale(m[i], s[0]));
        assert((1 - 1) * (n as int) == 0);
        assert((2 - 1) * (n as int) == n);
        assert(fold_small_at(m, s, n as int, i, 0) == ext_zero());
        assert(fold_small_at(m, s, n as int, i, 1) == ext_scale(m[i], s[0]));
    }
    assert(fold_small(m, s) =~= fold_small_halves(m, s));
}

/// Folding by two scalars is folding the two halves.
pub proof fn lemma_fold_large_two_scalars(m: Seq<nat>, s: Seq<Seq<nat>>)
    requires
        s.len() == 2,
        m.len() >= 2,
        m.len() % 2 == 0,
    ensures
        fold_large(m, s) == fold_large_halves(m, s),
{
    let n = m.len() / 2;
    assert forall|i: int| 0 <= i < n implies #[trigger] fold_large(m, s)[i] == fold_large_halves(m, s)[i] by {
        lemma_ext_add_zero(ext_scale(s[0], m[i]));
        assert((1 - 1) * (n as int) == 0);
        assert((2 - 1) * (n as int) == n);
        assert(fold_large_at(m, s, n as int, i, 0) == ext_zero());
        assert(fold_large_at(m, s, n as int, i, 1) == ext_scale(s[0], m[i]));
    }
    assert(fold_large(m, s) =~= fold_large_halves(m, s));
}

proof fn lemma_fold_small_at_unit(m: Seq<Seq<nat>>, s: Seq<nat>, n: int, i: int, k: int, j: int)
    requires
        0 <= k < s.len(),
        0 <= j <= s.len(),
        forall|t: int| 0 <= t < m.len() ==> #[trigger] is_ext(m[t]),
        0 <= i < n,
        s.len() * n == m.len(),
        s == base_unit(s.len(), k),
    ensures
        fold_small_at(m, s, n, i, j) == (if j > k { m[i + k * n] } else { ext_zero() }),
    decreases j,
{
    if j > 0 {
        lemma_fold_small_at_unit(m, s, n, i, k, j - 1);
        lemma_block_index(i, j - 1, n, s.len() as int);
        lemma_block_index(i, k, n, s.len() as int);
        lemma_ext_scale_zero_one(m[i + (j - 1) * n]);
        if j - 1 == k {
            lemma_ext_add_zero(m[i + k * n]);
        } else if j - 1 > k {
            lemma_ext_add_zero(m[i + k * n]);
        } else {
            lemma_ext_add_zero(ext_zero());
        }
    }
}

/// Folding by the unit vector of `k` keeps block `k`: with `k` scalars and
/// `k * n` evaluations, the values `m[i + k * n]`.
pub proof fn lemma_fold_small_unit(m: Seq<Seq<nat>>, s: Seq<nat>, k: int)
    requires
        0 <= k < s.len(),
        m.len() % s.len() == 0,
        forall|t: int| 0 <= t < m.len() ==> #[trigger] is_ext(m[t]),
        s == base_unit(s.len(), k),
    ensures
        fold_small(m, s) == Seq::new(m.len() / s.len(), |i: int| m[i + k * (m.len() / s.len()) as int]),
{
    let n = (m.len() / s.len()) as int;
    vstd::arithmetic::div_mod::lemma_fundamental_div_mod(m.len() as int, s.len() as int);
    assert(s.len() * n == m.len()) by (nonlinear_arith)
        requires
            m.len() == s.len() * (m.len() / s.len()) + m.len() % s.len(),
            m.len() % s.len() == 0,
            n == m.len() / s.len(),
    ;
    assert forall|i: int| 0 <= i < n implies #[trigger] fold_small(m, s)[i] == m[i + k * n] by {
        lemma_fold_small_at_unit(m, s, n, i, k, s.len() as int);
    }
    assert(fold_small(m, s) =~= Seq::new(m.len() / s.len(), |i: int| m[i + k * (m.len() / s.len()) as int]));
}

/// Folding by the Lagrange basis of the grid `{0, ..., K - 1}` at a grid
/// point `k` restricts the multilinear to block `k`: with `K` scalars and
/// `K * n` evaluations, the values `m[i + k * n]`.
pub proof fn lemma_fold_at_grid_point(m: Seq<Seq<nat>>, s: Seq<nat>, k: nat, w: Seq<nat>)
    requires
        k < s.len(),
        s.len() <= P,
        forall|t: int| 0 <= t < m.len() ==> #[trigger] is_ext(m[t]),
        m.len() % s.len() == 0,
        s == lagrange_basis_base(s.len(), base_grid(k as int), w),
    ensures
        fold_small(m, s) == Seq::new(m.len() / s.len(), |i: int| m[i + k * (m.len() / s.len()) as int]),
{
    lemma_lagrange_basis_base_at_grid(s.len(), k, w);
    lemma_fold_small_unit(m, s, k as int);
}

} // verus!
