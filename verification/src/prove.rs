//! The computations of the sumcheck prover.
//!
//! A round of the prover evaluates the round polynomial on the grid by
//! folding the multilinears at each grid point and summing the user's
//! computation over the hypercube, hands the evaluations to the transcript,
//! and, given the challenge drawn from it, updates the claimed sum and folds
//! the multilinears at the challenge.
use vstd::prelude::*;
use vstd::arithmetic::power2::pow2;
use crate::field::{Fp, P, HALF, fadd, fmul, fsub, modp, fp_views, lemma_fp_view_lt};
use crate::extension::{
    Ext, ext_add, ext_from_base, ext_mul, ext_one, ext_sub, ext_views, ext_zero, is_ext,
    ext_inv, lemma_ext_view_wf, lemma_ext_add_sub_cancel, ext_scale, lemma_ext_mul_base,
    lemma_ext_mul_zero_left, lemma_ext_scale_scale, lemma_ext_sub_base, lemma_ext_zero_facts,
    lemma_ext_mul_one_zero, lemma_ext_add_zero, lemma_ext_scale_zero_one, lemma_ext_mul_from_base, ext_mul_coeff,
};
use crate::evals::{EvaluationsList, is_power_of_two, lemma_pow2_div};
use crate::multilinear::{
    fold_small_at, fold_ext_at, fold_small, fold_ext, pointwise_sum, batch_fold_multilinear_in_small_field,
    batch_fold_multilinear_in_extension, add_multilinears,
};
use crate::univariate::{
    barycentric_weights_precomputed, evaluate_lagrange_basis_all,
    evaluate_lagrange_basis_all_base_field, lagrange_basis, lagrange_basis_base, weights,
    lemma_weight_table, ext_prefix, ext_suffix, ext_grid_index, ext_unit,
};
use crate::verify::{
    interpolate, ext_dot, grid_size, round_poly_value, interpolate_at, RoundPolynomial, round_poly_sum,
    round_poly_wf, lemma_round_poly_at_grid, round_poly_at,
};
use crate::univariate::ext_grid;
use crate::ring::{
    lemma_ext_mul_inverse_cancel, lemma_ext_mul_associative, lemma_ext_mul_commutative, lemma_ext_mul_distributes,
};

verus! {

broadcast use {lemma_fp_view_lt, lemma_ext_view_wf};

/// Below this number of variables the prover is not worth running on a GPU.
pub const MIN_VARS_FOR_GPU: usize = 0;

/// The polynomial, written by the user of the prover, whose sum over the
/// hypercube the sumcheck proves: its value at a point of the hypercube, given
/// the values there of the multilinears, batched with the batching scalars.
pub trait SumcheckComputation {
    /// The value of the computation at the point `point`, batched with
    /// `batching_scalars`, as the model of an extension element.
    spec fn spec_eval(&self, point: Seq<Seq<nat>>, batching_scalars: Seq<Seq<nat>>) -> Seq<nat>;

    /// Evaluates the computation at `point` with `batching_scalars`.
    fn eval(&self, point: &[Ext], batching_scalars: &[Ext]) -> (r: Ext)
        ensures
            r@ == self.spec_eval(ext_views(point@), ext_views(batching_scalars@)),
    ;
}

/// The product of the first two multilinears, scaled by the first batching
/// scalar: `point[0] * point[1] * batching_scalars[0]`, and zero where fewer
/// values are given.
pub struct ProductComputation;

impl SumcheckComputation for ProductComputation {
    open spec fn spec_eval(&self, point: Seq<Seq<nat>>, batching_scalars: Seq<Seq<nat>>) -> Seq<nat> {
        if point.len() >= 2 && batching_scalars.len() >= 1 {
            ext_mul(ext_mul(point[0], point[1]), batching_scalars[0])
        } else {
            ext_zero()
        }
    }

    fn eval(&self, point: &[Ext], batching_scalars: &[Ext]) -> (r: Ext) {
        if point.len() >= 2 && batching_scalars.len() >= 1 {
            proof {
                assert(ext_views(point@)[0] == point@[0]@);
                assert(ext_views(point@)[1] == point@[1]@);
                assert(ext_views(batching_scalars@)[0] == batching_scalars@[0]@);
            }
            point[0].mul(point[1]).mul(batching_scalars[0])
        } else {
            Ext::zero()
        }
    }
}

/// The model of an optional extension element.
pub open spec fn opt_view(x: Option<Ext>) -> Option<Seq<nat>> {
    match x {
        Some(e) => Some(e@),
        None => None,
    }
}

/// `v * f` when there is a factor `f`, `v` otherwise.
pub open spec fn with_factor(v: Seq<nat>, f: Option<Seq<nat>>) -> Seq<nat> {
    match f {
        Some(e) => ext_mul(v, e),
        None => v,
    }
}

/// `v * f` when there is a factor `f`, `v` otherwise.
pub fn apply_factor(v: Ext, f: Option<Ext>) -> (r: Ext)
    ensures
        r@ == with_factor(v@, opt_view(f)),
{
    match f {
        Some(e) => v.mul(e),
        None => v,
    }
}

/// Evaluates the user's computation at a point and multiplies the result by
/// the `eq` factor if there is one.
pub fn eval_sumcheck_computation<C: SumcheckComputation>(
    computation: &C,
    batching_scalars: &[Ext],
    point: &[Ext],
    eq_mle_eval: Option<Ext>,
) -> (r: Ext)
    ensures
        r@ == with_factor(
            computation.spec_eval(ext_views(point@), ext_views(batching_scalars@)),
            opt_view(eq_mle_eval),
        ),
{
    let res = computation.eval(point, batching_scalars);
    apply_factor(res, eq_mle_eval)
}

/// The models of lists of evaluations.
pub open spec fn ext_lists(pols: Seq<EvaluationsList<Ext>>) -> Seq<Seq<Seq<nat>>> {
    pols.map_values(|p: EvaluationsList<Ext>| ext_views(p@))
}

/// The model of an optional list of evaluations.
pub open spec fn opt_list(eq: Option<&EvaluationsList<Ext>>) -> Option<Seq<Seq<nat>>> {
    match eq {
        Some(e) => Some(ext_views(e@)),
        None => None,
    }
}

/// The values of the lists at hypercube point `x`.
pub open spec fn hypercube_point_at(pols: Seq<Seq<Seq<nat>>>, x: int) -> Seq<Seq<nat>> {
    Seq::new(pols.len(), |j: int| pols[j][x])
}

/// The value of an optional list at `x`.
pub open spec fn opt_at(eq: Option<Seq<Seq<nat>>>, x: int) -> Option<Seq<nat>> {
    match eq {
        Some(e) => Some(e[x]),
        None => None,
    }
}

/// `sum_{x < k} values[x] * eq[x]`, or `sum_{x < k} values[x]` without `eq`.
pub open spec fn weighted_sum(values: Seq<Seq<nat>>, eq: Option<Seq<Seq<nat>>>, k: int) -> Seq<nat>
    decreases k,
{
    if k <= 0 {
        ext_zero()
    } else {
        ext_add(weighted_sum(values, eq, k - 1), with_factor(values[k - 1], opt_at(eq, k - 1)))
    }
}

/// The sum over the hypercube on which the lists `pols` are given of the
/// computation at each point, each term times the value of `eq` there if it
/// is given.
pub open spec fn hypercube_sum<C: SumcheckComputation>(
    computation: &C,
    pols: Seq<Seq<Seq<nat>>>,
    batching_scalars: Seq<Seq<nat>>,
    eq: Option<Seq<Seq<nat>>>,
) -> Seq<nat> {
    let n = pols[0].len();
    weighted_sum(
        Seq::new(n, |x: int| computation.spec_eval(hypercube_point_at(pols, x), batching_scalars)),
        eq,
        n as int,
    )
}

/// The values of the lists at hypercube point `x`, handed to the computation.
pub fn hypercube_point(pols: &[EvaluationsList<Ext>], x: usize) -> (r: Vec<Ext>)
    requires
        forall|j: int| 0 <= j < pols@.len() ==> x < #[trigger] pols@[j]@.len(),
    ensures
        ext_views(r@) == hypercube_point_at(ext_lists(pols@), x as int),
{
    let mut point: Vec<Ext> = Vec::new();
    for j in 0..pols.len()
        invariant
            forall|j: int| 0 <= j < pols@.len() ==> x < #[trigger] pols@[j]@.len(),
            point@.len() == j,
            forall|t: int| 0 <= t < j ==> #[trigger] point@[t]@ == pols@[t]@[x as int]@,
    {
        point.push(pols[j].evals()[x]);
    }
    assert(ext_views(point@) =~= hypercube_point_at(ext_lists(pols@), x as int));
    point
}

/// Sums the values of the computation over the hypercube, each times the
/// value of `eq_mle` there if it is given.
pub fn weighted_hypercube_sum(values: &[Ext], eq_mle: Option<&EvaluationsList<Ext>>) -> (r: Ext)
    requires
        eq_mle matches Some(e) ==> e@.len() >= values@.len(),
    ensures
        r@ == weighted_sum(ext_views(values@), opt_list(eq_mle), values@.len() as int),
{
    let mut acc = Ext::zero();
    for x in 0..values.len()
        invariant
            eq_mle matches Some(e) ==> e@.len() >= values@.len(),
            acc@ == weighted_sum(ext_views(values@), opt_list(eq_mle), x as int),
    {
        let eq_eval = match eq_mle {
            Some(e) => Some(e.evals()[x]),
            None => None,
        };
        assert(opt_view(eq_eval) == opt_at(opt_list(eq_mle), x as int));
        acc = acc.add(apply_factor(values[x], eq_eval));
    }
    acc
}

/// Sums the user's computation over the hypercube on which the lists are
/// given, each term times the value of `eq_mle` there if it is given.
pub fn compute_over_hypercube<C: SumcheckComputation>(
    pols: &[EvaluationsList<Ext>],
    computation: &C,
    batching_scalars: &[Ext],
    eq_mle: Option<&EvaluationsList<Ext>>,
) -> (r: Ext)
    requires
        pols@.len() >= 1,
        forall|j: int| 0 <= j < pols@.len() ==> #[trigger] pols@[j]@.len() == pols@[0]@.len(),
        eq_mle matches Some(e) ==> e@.len() >= pols@[0]@.len(),
    ensures
        r@ == hypercube_sum(computation, ext_lists(pols@), ext_views(batching_scalars@), opt_list(eq_mle)),
{
    let n = pols[0].num_evals();
    let ghost ps = ext_lists(pols@);
    let ghost sc = ext_views(batching_scalars@);
    let mut values: Vec<Ext> = Vec::new();
    for x in 0..n
        invariant
            n == pols@[0]@.len(),
            ps == ext_lists(pols@),
            sc == ext_views(batching_scalars@),
            forall|j: int| 0 <= j < pols@.len() ==> #[trigger] pols@[j]@.len() == pols@[0]@.len(),
            values@.len() == x,
            forall|t: int| 0 <= t < x ==> #[trigger] values@[t]@ == computation.spec_eval(hypercube_point_at(ps, t), sc),
    {
        let point = hypercube_point(pols, x);
        values.push(computation.eval(point.as_slice(), batching_scalars));
    }
    let r = weighted_hypercube_sum(values.as_slice(), eq_mle);
    assert(ps[0].len() == n);
    assert(ext_views(values@) =~= Seq::new(n as nat, |x: int| computation.spec_eval(hypercube_point_at(ps, x), sc)));
    r
}

/// The selectors, the Lagrange basis of `{0, ..., k - 1}`, at the base-field
/// point `z`.
pub open spec fn base_selectors(k: nat, z: int) -> Seq<nat> {
    lagrange_basis_base(k, modp(z), weights(k))
}

/// The selectors at an extension point.
pub open spec fn ext_selectors(k: nat, e: Seq<nat>) -> Seq<Seq<nat>> {
    lagrange_basis(k, e, weights(k))
}

/// `sum_{i < k} a[i]`.
pub open spec fn ext_sum(a: Seq<Seq<nat>>, k: int) -> Seq<nat>
    decreases k,
{
    if k <= 0 {
        ext_zero()
    } else {
        ext_add(ext_sum(a, k - 1), a[k - 1])
    }
}

/// The models of a list of references to lists of evaluations.
pub open spec fn ref_lists(ms: Seq<&EvaluationsList<Ext>>) -> Seq<Seq<Seq<nat>>> {
    ms.map_values(|p: &EvaluationsList<Ext>| ext_views(p@))
}

/// Each multilinear folded by the base scalars `s`.
pub open spec fn fold_all(ms: Seq<Seq<Seq<nat>>>, s: Seq<nat>) -> Seq<Seq<Seq<nat>>> {
    Seq::new(ms.len(), |j: int| fold_small(ms[j], s))
}

/// The pointwise sums of two lists of multilinears.
pub open spec fn sum_all(a: Seq<Seq<Seq<nat>>>, b: Seq<Seq<Seq<nat>>>) -> Seq<Seq<Seq<nat>>> {
    Seq::new(a.len(), |j: int| pointwise_sum(a[j], b[j]))
}

/// `1/4` in the extension.
pub open spec fn quarter() -> Seq<nat> {
    ext_mul(ext_from_base(fmul(1, HALF as int)), ext_from_base(fmul(1, HALF as int)))
}

/// The evaluation at grid point `z` of the round polynomial of a round that
/// is not classic, given the sums `hs[z]` of the computation over the
/// hypercube of the multilinears restricted to each grid point: zero on the
/// first `k` points of a zerofier; at `k - 1` the value that makes the claimed
/// sum come out (with `eq`, the sum weighted by the selectors at the `eq`
/// point); elsewhere `hs[z]`, times the missing factor if there is one.
pub open spec fn general_round_value(
    hs: Seq<Seq<nat>>,
    factor: Option<Seq<nat>>,
    eq_sel: Option<Seq<Seq<nat>>>,
    sum: Seq<nat>,
    k: nat,
    is_zerofier: bool,
    z: int,
) -> Seq<nat> {
    if is_zerofier && z < k {
        ext_zero()
    } else if z == k - 1 {
        let prev = Seq::new((k - 1) as nat, |i: int| with_factor(hs[i], factor));
        match eq_sel {
            Some(sel) => ext_mul(ext_sub(sum, ext_dot(prev, sel, k - 1)), ext_inv(sel[k - 1])),
            None => ext_sub(sum, ext_sum(prev, k - 1)),
        }
    } else {
        with_factor(hs[z], factor)
    }
}

/// What the prover sends for a round.
#[derive(Debug)]
pub enum RoundMessage {
    /// A classic round of degree 2: the round polynomial at `0`, `1` and `1/2`.
    Classic { h0: Ext, h1: Ext, h_half: Ext },
    /// The round polynomial, before the `eq` factor, on the grid.
    General { p_evals: Vec<Ext> },
}

/// The selectors of `{0, ..., k - 1}` at the base-field point `z`.
pub fn selectors_at_base(k: usize, z: usize) -> (r: Vec<Fp>)
    requires
        k <= P,
    ensures
        fp_views(r@) == base_selectors(k as nat, z as int),
        r@.len() == k,
{
    let w = barycentric_weights_precomputed(k);
    assert(w@.len() == fp_views(w@).len());
    let r = evaluate_lagrange_basis_all_base_field(k, Fp::from_usize(z), w.as_slice());
    proof {
        assert(fp_views(r@).len() == r@.len());
        if k != 1 {
            assert(base_selectors(k as nat, z as int).len() == k);
        }
    }
    r
}

/// The selectors of `{0, ..., k - 1}` at an extension point.
pub fn selectors_at_ext(k: usize, e: Ext) -> (r: Vec<Ext>)
    requires
        k <= P,
    ensures
        ext_views(r@) == ext_selectors(k as nat, e@),
        r@.len() == k,
{
    let w = barycentric_weights_precomputed(k);
    assert(w@.len() == fp_views(w@).len());
    let r = evaluate_lagrange_basis_all(k, e, w.as_slice());
    proof {
        assert(ext_views(r@).len() == r@.len());
        if k != 1 {
            assert(ext_selectors(k as nat, e@).len() == k);
        }
    }
    r
}

proof fn lemma_exact_quotient(a: nat, k: nat, l: nat)
    requires
        k > 0,
        a * k == l,
    ensures
        a == l / k,
{
    vstd::arithmetic::div_mod::lemma_fundamental_div_mod_converse(l as int, k as int, a as int, 0);
}

/// The multilinears restricted to the grid point `z` of their first
/// `log2 k` variables: each folded by the selectors at `z`.
pub fn grid_folds(multilinears: &[&EvaluationsList<Ext>], k: usize, z: usize) -> (r: Vec<EvaluationsList<Ext>>)
    requires
        k <= P,
        is_power_of_two(k as nat),
        multilinears@.len() >= 1,
        forall|j: int| 0 <= j < multilinears@.len() ==> #[trigger] multilinears@[j]@.len() == multilinears@[0]@.len(),
        k <= multilinears@[0]@.len(),
    ensures
        ext_lists(r@) == fold_all(ref_lists(multilinears@), base_selectors(k as nat, z as int)),
        r@.len() == multilinears@.len(),
        forall|j: int| 0 <= j < r@.len() ==> #[trigger] r@[j]@.len() == multilinears@[0]@.len() / (k as nat),
{
    let _l0 = multilinears[0].num_evals();
    let sel = selectors_at_base(k, z);
    let folded = batch_fold_multilinear_in_small_field(multilinears, sel.as_slice());
    proof {
        lemma_pow2_div(multilinears@[0]@.len(), k as nat);
        assert forall|j: int| 0 <= j < folded@.len() implies #[trigger] folded@[j]@.len() == multilinears@[0]@.len() / (k as nat) by {
            lemma_exact_quotient(folded@[j]@.len(), k as nat, multilinears@[j]@.len());
        }
        assert(ext_lists(folded@) =~= fold_all(ref_lists(multilinears@), base_selectors(k as nat, z as int)));
    }
    folded
}

/// The sums of the two halves of each multilinear, on which a classic round
/// evaluates `h(1/2)`.
pub fn half_sums(multilinears: &[&EvaluationsList<Ext>]) -> (r: Vec<EvaluationsList<Ext>>)
    requires
        multilinears@.len() >= 1,
        forall|j: int| 0 <= j < multilinears@.len() ==> #[trigger] multilinears@[j]@.len() == multilinears@[0]@.len(),
        2 <= multilinears@[0]@.len(),
    ensures
        ext_lists(r@) == sum_all(
            fold_all(ref_lists(multilinears@), base_selectors(2, 0)),
            fold_all(ref_lists(multilinears@), base_selectors(2, 1)),
        ),
        r@.len() == multilinears@.len(),
        forall|j: int| 0 <= j < r@.len() ==> #[trigger] r@[j]@.len() == multilinears@[0]@.len() / 2,
{
    proof {
        vstd::arithmetic::power2::lemma2_to64();
        assert(is_power_of_two(2)) by {
            assert(pow2(1) == 2);
        }
    }
    let folded_0 = grid_folds(multilinears, 2, 0);
    let folded_1 = grid_folds(multilinears, 2, 1);
    let ghost ms = ref_lists(multilinears@);
    let mut summed: Vec<EvaluationsList<Ext>> = Vec::new();
    let count = multilinears.len();
    for j in 0..count
        invariant
            count == multilinears@.len(),
            folded_0@.len() == count,
            folded_1@.len() == count,
            forall|t: int| 0 <= t < count ==> #[trigger] folded_0@[t]@.len() == multilinears@[0]@.len() / 2,
            forall|t: int| 0 <= t < count ==> #[trigger] folded_1@[t]@.len() == multilinears@[0]@.len() / 2,
            summed@.len() == j,
            forall|t: int| 0 <= t < j ==> #[trigger] ext_views(summed@[t]@) == pointwise_sum(ext_views(folded_0@[t]@), ext_views(folded_1@[t]@)),
            forall|t: int| 0 <= t < j ==> #[trigger] summed@[t]@.len() == multilinears@[0]@.len() / 2,
    {
        let x = add_multilinears(&folded_0[j], &folded_1[j]);
        assert(ext_views(x@).len() == x@.len());
        summed.push(x);
    }
    proof {
        assert forall|j: int| 0 <= j < count implies #[trigger] ext_lists(summed@)[j] == sum_all(
            fold_all(ms, base_selectors(2, 0)),
            fold_all(ms, base_selectors(2, 1)),
        )[j] by {
            assert(ext_lists(folded_0@)[j] == ext_views(folded_0@[j]@));
            assert(ext_lists(folded_1@)[j] == ext_views(folded_1@[j]@));
        }
        assert(ext_lists(summed@) =~= sum_all(
            fold_all(ms, base_selectors(2, 0)),
            fold_all(ms, base_selectors(2, 1)),
        ));
    }
    summed
}

/// The values `h(0)`, `h(1)` and `h(1/2)` of a classic round, from the sums
/// `s0` over the hypercube of the computation on the multilinears restricted
/// to `0` and `s_half` on the sums of their halves: `h(0) = s0`,
/// `h(1/2) = s_half / 4`, each times the missing factor if there is one, and
/// `h(1) = sum - h(0)`.
pub fn classic_round_values(sum: Ext, s0: Ext, s_half: Ext, missing_mul_factor: Option<Ext>) -> (r: (
    Ext,
    Ext,
    Ext,
))
    ensures
        r.0@ == with_factor(s0@, opt_view(missing_mul_factor)),
        r.1@ == ext_sub(sum@, r.0@),
        r.2@ == with_factor(ext_mul(s_half@, quarter()), opt_view(missing_mul_factor)),
{
    let h0 = apply_factor(s0, missing_mul_factor);
    let half = Ext::from_base(Fp::one().halve());
    let h_half = apply_factor(s_half.mul(half.square()), missing_mul_factor);
    let h1 = sum.sub(h0);
    (h0, h1, h_half)
}

/// The requirements of a prover round on its inputs: `2^skips` grid points,
/// multilinears of one length at least that, an `eq` list covering the folded
/// hypercube, an `eq` point for the round, degrees that fit, and, where a
/// round that is not classic derives the value at `2^skips - 1` with `eq`, a
/// nonzero last selector.
pub open spec fn round_inputs_ok(
    skips: nat,
    ms: Seq<Seq<Seq<nat>>>,
    eq_factor: Option<Seq<Seq<nat>>>,
    eq_mle: Option<Seq<Seq<nat>>>,
    is_zerofier: bool,
    comp_degree: nat,
    round: nat,
) -> bool {
    let k = pow2(skips);
    &&& skips <= 30
    &&& ms.len() >= 1
    &&& forall|j: int| 0 <= j < ms.len() ==> #[trigger] ms[j].len() == ms[0].len()
    &&& k <= ms[0].len()
    &&& (eq_mle matches Some(e) ==> e.len() >= ms[0].len() / k)
    &&& comp_degree * (k - 1) < usize::MAX
    &&& (eq_factor matches Some(e) ==> round < e.len())
    &&& (eq_factor matches Some(e) ==> (!is_classic_round(skips, comp_degree, is_zerofier) && !is_zerofier && k - 1
        <= comp_degree * (k - 1) ==> ext_selectors(
        k,
        e[round as int],
    )[k - 1] != ext_zero()))
}

/// The model of an optional slice of extension elements.
pub open spec fn opt_slice(e: Option<&[Ext]>) -> Option<Seq<Seq<nat>>> {
    match e {
        Some(s) => Some(ext_views(s@)),
        None => None,
    }
}

/// The selectors at the round's `eq` point, if there is one.
pub open spec fn eq_selectors(eq_factor: Option<Seq<Seq<nat>>>, k: nat, round: nat) -> Option<Seq<Seq<nat>>> {
    match eq_factor {
        Some(e) => Some(ext_selectors(k, e[round as int])),
        None => None,
    }
}

/// The length of the evaluations of a round that is not classic.
pub open spec fn general_round_len(k: nat, comp_degree: nat, is_zerofier: bool) -> nat {
    let d = comp_degree * (k - 1);
    if is_zerofier && k > d + 1 {
        k
    } else {
        (d + 1) as nat
    }
}

/// The evaluations on the grid `{0, ..., comp_degree * (2^skips - 1)}` of the
/// round polynomial of a round that is not classic, given the sums `hs[z]`
/// over the hypercube of the computation on the multilinears restricted to
/// each grid point `z` (the entries that are not needed are not read).
pub fn general_round_values(
    skips: usize,
    comp_degree: usize,
    is_zerofier: bool,
    sum: Ext,
    eq_factor: Option<&[Ext]>,
    round: usize,
    missing_mul_factor: Option<Ext>,
    hs: &[Ext],
) -> (r: Vec<Ext>)
    requires
        skips <= 30,
        comp_degree * (pow2(skips as nat) - 1) < usize::MAX,
        hs@.len() > comp_degree * (pow2(skips as nat) - 1),
        eq_factor matches Some(e) ==> round < e@.len(),
        eq_factor matches Some(e) ==> (!is_zerofier && pow2(skips as nat) - 1 <= comp_degree * (pow2(skips as nat) - 1) ==> ext_selectors(
            pow2(skips as nat),
            e@[round as int]@,
        )[pow2(skips as nat) - 1] != ext_zero()),
    ensures
        r@.len() == general_round_len(pow2(skips as nat), comp_degree as nat, is_zerofier),
        forall|z: int|
            0 <= z < r@.len() ==> #[trigger] r@[z]@ == general_round_value(
                ext_views(hs@),
                opt_view(missing_mul_factor),
                eq_selectors(opt_slice(eq_factor), pow2(skips as nat), round as nat),
                sum@,
                pow2(skips as nat),
                is_zerofier,
                z,
            ),
        eq_factor matches Some(e) ==> (!is_zerofier && pow2(skips as nat) - 1 <= comp_degree * (pow2(skips as nat) - 1)
            ==> ext_dot(ext_views(r@), ext_selectors(pow2(skips as nat), e@[round as int]@), pow2(skips as nat) as int)
            == sum@),
{
    let k = grid_size(skips);
    proof {
        vstd::arithmetic::power2::lemma_pow2_pos(skips as nat);
    }
    let d = comp_degree * (k - 1);
    let ghost hsv = ext_views(hs@);
    let ghost f = opt_view(missing_mul_factor);
    let ghost eq_sel = eq_selectors(opt_slice(eq_factor), k as nat, round as nat);
    let mut p_evals: Vec<Ext> = Vec::new();
    let start = if is_zerofier {
        for i in 0..k
            invariant
                p_evals@.len() == i,
                i <= k,
                is_zerofier,
                forall|t: int| 0 <= t < i ==> #[trigger] p_evals@[t]@ == general_round_value(hsv, f, eq_sel, sum@, k as nat, is_zerofier, t),
        {
            p_evals.push(Ext::zero());
        }
        k
    } else {
        0
    };
    let mut z = start;
    while z <= d
        invariant
            d == comp_degree * (k - 1),
            d < usize::MAX,
            hs@.len() > d,
            hsv == ext_views(hs@),
            f == opt_view(missing_mul_factor),
            k == pow2(skips as nat),
            k >= 1,
            k <= P,
            start == (if is_zerofier { k } else { 0 }),
            start <= z,
            z <= d + 1 || z == start,
            p_evals@.len() == z,
            eq_factor matches Some(e) ==> round < e@.len(),
            eq_factor matches Some(e) ==> (!is_zerofier && k - 1 <= d ==> ext_selectors(
                k as nat,
                e@[round as int]@,
            )[k - 1] != ext_zero()),
            eq_sel == eq_selectors(opt_slice(eq_factor), k as nat, round as nat),
            forall|t: int| 0 <= t < z ==> #[trigger] p_evals@[t]@ == general_round_value(hsv, f, eq_sel, sum@, k as nat, is_zerofier, t),
            eq_factor matches Some(e) ==> (!is_zerofier && z > k - 1 ==> ext_dot(
                ext_views(p_evals@),
                ext_selectors(k as nat, e@[round as int]@),
                k as int,
            ) == sum@),
        decreases d + 1 - z,
    {
        let value = if z == k - 1 {
            let ghost prev = Seq::new((k - 1) as nat, |i: int| with_factor(hsv[i], f));
            proof {
                assert forall|i: int| 0 <= i < k - 1 implies #[trigger] p_evals@[i]@ == prev[i] by {
                    assert(p_evals@[i]@ == general_round_value(hsv, f, eq_sel, sum@, k as nat, is_zerofier, i));
                }
            }
            match eq_factor {
                Some(e) => {
                    let sel = selectors_at_ext(k, e[round]);
                    let mut acc = Ext::zero();
                    for i in 0..k - 1
                        invariant
                            k >= 1,
                            sel@.len() == k,
                            p_evals@.len() == k - 1,
                            forall|i: int| 0 <= i < k - 1 ==> #[trigger] p_evals@[i]@ == prev[i],
                            acc@ == ext_dot(prev, ext_views(sel@), i as int),
                    {
                        acc = acc.add(p_evals[i].mul(sel[i]));
                    }
                    let num = sum.sub(acc);
                    match sel[k - 1].try_inverse() {
                        Some(inv) => {
                            let v = num.mul(inv);
                            proof {
                                lemma_ext_mul_inverse_cancel(num@, sel@[k - 1]@, inv@);
                                lemma_ext_add_sub_cancel(sum@, acc@);
                                assert(ext_views(sel@)[k - 1] == sel@[k - 1]@);
                                assert(ext_add(ext_dot(prev, ext_views(sel@), k - 1), ext_mul(v@, ext_views(sel@)[k - 1])) == sum@);
                            }
                            v
                        },
                        None => {
                            proof {
                                assert(ext_views(sel@)[k - 1] == sel@[k - 1]@);
                            }
                            Ext::zero()
                        },
                    }
                },
                None => {
                    let mut acc = Ext::zero();
                    for i in 0..k - 1
                        invariant
                            k >= 1,
                            p_evals@.len() == k - 1,
                            forall|i: int| 0 <= i < k - 1 ==> #[trigger] p_evals@[i]@ == prev[i],
                            acc@ == ext_sum(prev, i as int),
                    {
                        acc = acc.add(p_evals[i]);
                    }
                    sum.sub(acc)
                },
            }
        } else {
            apply_factor(hs[z], missing_mul_factor)
        };
        let ghost before = p_evals@;
        p_evals.push(value);
        proof {
            if eq_factor is Some && !is_zerofier && z >= k - 1 {
                let sel_s = ext_selectors(k as nat, eq_factor.unwrap()@[round as int]@);
                if z == k - 1 {
                    let prev = Seq::new((k - 1) as nat, |i: int| with_factor(hsv[i], f));
                    assert forall|i: int| 0 <= i < k - 1 implies #[trigger] ext_views(p_evals@)[i] == prev[i] by {
                        assert(p_evals@[i]@ == general_round_value(hsv, f, eq_sel, sum@, k as nat, is_zerofier, i));
                    }
                    lemma_ext_dot_agree(ext_views(p_evals@), prev, sel_s, k - 1);
                } else {
                    lemma_ext_dot_agree(ext_views(p_evals@), ext_views(before), sel_s, k as int);
                }
            }
        }
        z = z + 1;
    }
    p_evals
}

/// A dot product reads only the first `n` entries of its left side.
proof fn lemma_ext_dot_agree(a: Seq<Seq<nat>>, b: Seq<Seq<nat>>, c: Seq<Seq<nat>>, n: int)
    requires
        forall|i: int| 0 <= i < n ==> #[trigger] a[i] == b[i],
    ensures
        ext_dot(a, c, n) == ext_dot(b, c, n),
    decreases n,
{
    if n > 0 {
        lemma_ext_dot_agree(a, b, c, n - 1);
    }
}

/// The round is the classic one of degree 2 on one variable, which sends the
/// round polynomial at `0`, `1` and `1/2`.
pub open spec fn is_classic_round(skips: nat, comp_degree: nat, is_zerofier: bool) -> bool {
    skips == 1 && comp_degree == 2 && !is_zerofier
}

/// The message of a classic round whose hypercube sums are `s0` at `0` and
/// `s_half` on the sums of the halves.
pub open spec fn is_classic_message(r: RoundMessage, s0: Seq<nat>, s_half: Seq<nat>, sum: Seq<nat>, factor: Option<Seq<nat>>) -> bool {
    r matches RoundMessage::Classic { h0, h1, h_half } && h0@ == with_factor(s0, factor) && h1@ == ext_sub(sum, h0@)
        && h_half@ == with_factor(ext_mul(s_half, quarter()), factor)
}

/// The message of a round that is not classic whose hypercube sums are `hs`.
pub open spec fn is_general_message(
    r: RoundMessage,
    hs: Seq<Seq<nat>>,
    factor: Option<Seq<nat>>,
    eq_sel: Option<Seq<Seq<nat>>>,
    sum: Seq<nat>,
    k: nat,
    comp_degree: nat,
    is_zerofier: bool,
) -> bool {
    r matches RoundMessage::General { p_evals } && p_evals@.len() == general_round_len(k, comp_degree, is_zerofier)
        && forall|z: int|
        0 <= z < p_evals@.len() ==> #[trigger] p_evals@[z]@ == general_round_value(hs, factor, eq_sel, sum, k, is_zerofier, z)
}

/// The sums over the hypercube that a round which is not classic computes:
/// at each grid point `z <= comp_degree * (k - 1)` whose value is not known
/// beforehand (not one of the first `k` of a zerofier, nor `k - 1`, which is
/// derived from the claimed sum), the weighted sum of the computation on the
/// multilinears folded by the selectors at `z`; zero elsewhere.
pub open spec fn round_sums<C: SumcheckComputation>(
    computation: &C,
    ms: Seq<Seq<Seq<nat>>>,
    batching_scalars: Seq<Seq<nat>>,
    eq_mle: Option<Seq<Seq<nat>>>,
    k: nat,
    comp_degree: nat,
    is_zerofier: bool,
) -> Seq<Seq<nat>> {
    Seq::new(
        (comp_degree * (k - 1) + 1) as nat,
        |z: int|
            if !(is_zerofier && z < k) && z != k - 1 {
                hypercube_sum(computation, fold_all(ms, base_selectors(k, z)), batching_scalars, eq_mle)
            } else {
                ext_zero()
            },
    )
}

/// The evaluations of the round polynomial that a prover round sends: for the
/// classic round of degree 2, `h(0)`, `h(1) = sum - h(0)` and `h(1/2)`;
/// otherwise its values on the grid `{0, ..., comp_degree * (2^skips - 1)}`.
/// Each value comes from the sum over the hypercube of the user's computation
/// on the multilinears restricted to a grid point, through
/// [`classic_round_values`] and [`general_round_values`].
pub fn sc_round_evaluations<C: SumcheckComputation>(
    skips: usize,
    multilinears: &[&EvaluationsList<Ext>],
    computation: &C,
    eq_factor: Option<&[Ext]>,
    eq_mle: Option<&EvaluationsList<Ext>>,
    batching_scalars: &[Ext],
    is_zerofier: bool,
    comp_degree: usize,
    sum: Ext,
    round: usize,
    missing_mul_factor: Option<Ext>,
) -> (r: RoundMessage)
    requires
        round_inputs_ok(
            skips as nat,
            ref_lists(multilinears@),
            opt_slice(eq_factor),
            opt_list(eq_mle),
            is_zerofier,
            comp_degree as nat,
            round as nat,
        ),
    ensures
        is_classic_round(skips as nat, comp_degree as nat, is_zerofier) ==> is_classic_message(
            r,
            hypercube_sum(
                computation,
                fold_all(ref_lists(multilinears@), base_selectors(2, 0)),
                ext_views(batching_scalars@),
                opt_list(eq_mle),
            ),
            hypercube_sum(
                computation,
                sum_all(
                    fold_all(ref_lists(multilinears@), base_selectors(2, 0)),
                    fold_all(ref_lists(multilinears@), base_selectors(2, 1)),
                ),
                ext_views(batching_scalars@),
                opt_list(eq_mle),
            ),
            sum@,
            opt_view(missing_mul_factor),
        ),
        !is_classic_round(skips as nat, comp_degree as nat, is_zerofier) ==> is_general_message(
            r,
            round_sums(
                computation,
                ref_lists(multilinears@),
                ext_views(batching_scalars@),
                opt_list(eq_mle),
                pow2(skips as nat),
                comp_degree as nat,
                is_zerofier,
            ),
            opt_view(missing_mul_factor),
            eq_selectors(opt_slice(eq_factor), pow2(skips as nat), round as nat),
            sum@,
            pow2(skips as nat),
            comp_degree as nat,
            is_zerofier,
        ),
        !is_classic_round(skips as nat, comp_degree as nat, is_zerofier) ==> (eq_factor matches Some(e) ==> (
        !is_zerofier && pow2(skips as nat) - 1 <= comp_degree * (pow2(skips as nat) - 1) ==> (r matches RoundMessage::General {
            p_evals,
        } && ext_dot(ext_views(p_evals@), ext_selectors(pow2(skips as nat), e@[round as int]@), pow2(skips as nat) as int)
            == sum@))),
{
    let k = grid_size(skips);
    let _l0 = multilinears[0].num_evals();
    let ghost ms = ref_lists(multilinears@);
    proof {
        assert forall|j: int| 0 <= j < multilinears@.len() implies #[trigger] multilinears@[j]@.len() == multilinears@[0]@.len() by {
            assert(ms[j].len() == multilinears@[j]@.len());
            assert(ms[0].len() == multilinears@[0]@.len());
        }
        assert(is_power_of_two(k as nat));
        vstd::arithmetic::power2::lemma_pow2_pos(skips as nat);
    }
    if skips == 1 && comp_degree == 2 && !is_zerofier {
        proof {
            vstd::arithmetic::power2::lemma2_to64();
        }
        let folded_0 = grid_folds(multilinears, 2, 0);
        let s0 = compute_over_hypercube(folded_0.as_slice(), computation, batching_scalars, eq_mle);
        let summed = half_sums(multilinears);
        let s_half = compute_over_hypercube(summed.as_slice(), computation, batching_scalars, eq_mle);
        let (h0, h1, h_half) = classic_round_values(sum, s0, s_half, missing_mul_factor);
        let r = RoundMessage::Classic { h0, h1, h_half };
        assert(is_classic_message(r, s0@, s_half@, sum@, opt_view(missing_mul_factor)));
        return r;
    }
    let d = comp_degree * (k - 1);
    let mut hs: Vec<Ext> = Vec::new();
    for z in 0..d + 1
        invariant
            hs@.len() == z,
            k >= 1,
            k == pow2(skips as nat),
            k <= P,
            is_power_of_two(k as nat),
            multilinears@.len() >= 1,
            forall|j: int| 0 <= j < multilinears@.len() ==> #[trigger] multilinears@[j]@.len() == multilinears@[0]@.len(),
            k <= multilinears@[0]@.len(),
            eq_mle matches Some(e) ==> e@.len() >= multilinears@[0]@.len() / (k as nat),
            ms == ref_lists(multilinears@),
            forall|t: int| 0 <= t < z ==> #[trigger] hs@[t]@ == (if !(is_zerofier && t < k) && t != k - 1 {
                hypercube_sum(computation, fold_all(ms, base_selectors(k as nat, t)), ext_views(batching_scalars@), opt_list(eq_mle))
            } else {
                ext_zero()
            }),
    {
        let needed = !(is_zerofier && z < k) && z != k - 1;
        let h = if needed {
            let folded = grid_folds(multilinears, k, z);
            compute_over_hypercube(folded.as_slice(), computation, batching_scalars, eq_mle)
        } else {
            Ext::zero()
        };
        hs.push(h);
    }
    assert(ext_views(hs@) =~= round_sums(
        computation,
        ms,
        ext_views(batching_scalars@),
        opt_list(eq_mle),
        k as nat,
        comp_degree as nat,
        is_zerofier,
    ));
    let p_evals = general_round_values(skips, comp_degree, is_zerofier, sum, eq_factor, round, missing_mul_factor, hs.as_slice());
    let r = RoundMessage::General { p_evals };
    assert(is_general_message(
        r,
        ext_views(hs@),
        opt_view(missing_mul_factor),
        eq_selectors(opt_slice(eq_factor), pow2(skips as nat), round as nat),
        sum@,
        pow2(skips as nat),
        comp_degree as nat,
        is_zerofier,
    ));
    r
}

/// The value at `c` of the quadratic through `(0, h0)`, `(1, h1)` and
/// `(1/2, h_half)`:
/// `2 h0 (c - 1)(c - 1/2) + 2 h1 c (c - 1/2) - 4 h_half c (c - 1)`.
pub open spec fn quadratic_at(h0: Seq<nat>, h1: Seq<nat>, h_half: Seq<nat>, c: Seq<nat>) -> Seq<nat> {
    let one = ext_one();
    let half = ext_from_base(fmul(1, HALF as int));
    let two = ext_from_base(2);
    let four = ext_from_base(4);
    ext_sub(
        ext_add(
            ext_mul(ext_mul(ext_mul(h0, two), ext_sub(c, one)), ext_sub(c, half)),
            ext_mul(ext_mul(ext_mul(h1, two), c), ext_sub(c, half)),
        ),
        ext_mul(ext_mul(ext_mul(h_half, four), c), ext_sub(c, one)),
    )
}

/// Evaluates at `c` the quadratic through `(0, h0)`, `(1, h1)` and
/// `(1/2, h_half)`.
pub fn evaluate_quadratic(h0: Ext, h1: Ext, h_half: Ext, c: Ext) -> (r: Ext)
    ensures
        r@ == quadratic_at(h0@, h1@, h_half@, c@),
{
    let one = Ext::one();
    let half = Ext::from_base(Fp::one().halve());
    let two = Ext::from_usize(2);
    let four = Ext::from_usize(4);
    proof {
        assert(modp(2) == 2);
        assert(modp(4) == 4);
    }
    let t0 = h0.mul(two).mul(c.sub(one)).mul(c.sub(half));
    let t1 = h1.mul(two).mul(c).mul(c.sub(half));
    let t2 = h_half.mul(four).mul(c).mul(c.sub(one));
    t0.add(t1).sub(t2)
}

/// The value at `c` of the round polynomial a message describes: the
/// quadratic of a classic round, or the polynomial through the grid values,
/// times the polynomial through the selectors at the `eq` point if there is
/// one.
pub open spec fn round_message_value(msg: RoundMessage, eq_sel: Option<Seq<Seq<nat>>>, c: Seq<nat>) -> Seq<nat> {
    match msg {
        RoundMessage::Classic { h0, h1, h_half } => quadratic_at(h0@, h1@, h_half@, c),
        RoundMessage::General { p_evals } => match eq_sel {
            Some(sel) => round_poly_value(ext_views(p_evals@), sel, true, c),
            None => round_poly_value(ext_views(p_evals@), Seq::empty(), false, c),
        },
    }
}

/// The factor carried to the next round: with an `eq` point `e`,
/// `sum_i S_i(e) * S_i(c)` times the factor so far (one if none); without,
/// the factor so far.
pub open spec fn next_missing_factor(
    eq_sel: Option<Seq<Seq<nat>>>,
    k: nat,
    c: Seq<nat>,
    factor: Option<Seq<nat>>,
) -> Option<Seq<nat>> {
    match eq_sel {
        Some(sel) => Some(
            ext_mul(
                ext_dot(sel, ext_selectors(k, c), k as int),
                match factor {
                    Some(f) => f,
                    None => ext_one(),
                },
            ),
        ),
        None => factor,
    }
}

/// Ends a prover round with the challenge drawn from the transcript: the new
/// claimed sum is the round polynomial at the challenge, the missing factor is
/// carried on, and each multilinear is folded by the selectors at the
/// challenge.
pub fn sc_round_finish(
    skips: usize,
    multilinears: &[&EvaluationsList<Ext>],
    eq_factor: Option<&[Ext]>,
    round: usize,
    message: &RoundMessage,
    challenge: Ext,
    missing_mul_factor: Option<Ext>,
) -> (r: (Ext, Option<Ext>, Vec<EvaluationsList<Ext>>))
    requires
        skips <= 30,
        forall|j: int| 0 <= j < multilinears@.len() ==> pow2(skips as nat) <= #[trigger] multilinears@[j]@.len(),
        eq_factor matches Some(e) ==> round < e@.len(),
        message matches RoundMessage::General { p_evals } ==> p_evals@.len() <= P,
    ensures
        ({
            let k = pow2(skips as nat);
            let sel = eq_selectors(opt_slice(eq_factor), k, round as nat);
            &&& r.0@ == round_message_value(*message, sel, challenge@)
            &&& opt_view(r.1) == next_missing_factor(sel, k, challenge@, opt_view(missing_mul_factor))
            &&& (message matches RoundMessage::General { p_evals } ==> r.0@ == (match eq_factor {
                Some(e) => ext_mul(
                    interpolate(ext_views(p_evals@), challenge@),
                    interpolate(ext_selectors(k, e@[round as int]@), challenge@),
                ),
                None => interpolate(ext_views(p_evals@), challenge@),
            }))
            &&& (message matches RoundMessage::Classic { h0, h1, h_half } ==> r.0@ == quadratic_at(h0@, h1@, h_half@, challenge@))
            &&& (eq_factor matches Some(e) ==> r.1 matches Some(f) && f@ == ext_mul(
                ext_dot(ext_selectors(k, e@[round as int]@), ext_selectors(k, challenge@), k as int),
                match missing_mul_factor {
                    Some(m) => m@,
                    None => ext_one(),
                },
            ))
            &&& (eq_factor is None ==> r.1 == missing_mul_factor)
            &&& r.2@.len() == multilinears@.len()
            &&& forall|j: int| 0 <= j < multilinears@.len() ==> #[trigger] ext_views(r.2@[j]@) == fold_ext(
                ext_views(multilinears@[j]@),
                ext_selectors(k, challenge@),
            )
        }),
{
    let k = grid_size(skips);
    let ghost sel_spec = eq_selectors(opt_slice(eq_factor), k as nat, round as nat);
    let new_sum = match message {
        RoundMessage::Classic { h0, h1, h_half } => evaluate_quadratic(*h0, *h1, *h_half, challenge),
        RoundMessage::General { p_evals } => {
            let p = interpolate_at(p_evals.as_slice(), challenge);
            match eq_factor {
                Some(e) => {
                    let sel = selectors_at_ext(k, e[round]);
                    let q = interpolate_at(sel.as_slice(), challenge);
                    p.mul(q)
                },
                None => p,
            }
        },
    };
    let folding_scalars = selectors_at_ext(k, challenge);
    let new_factor = match eq_factor {
        Some(e) => {
            let sel = selectors_at_ext(k, e[round]);
            let mut acc = Ext::zero();
            for i in 0..k
                invariant
                    sel@.len() == k,
                    folding_scalars@.len() == k,
                    acc@ == ext_dot(ext_views(sel@), ext_views(folding_scalars@), i as int),
            {
                acc = acc.add(sel[i].mul(folding_scalars[i]));
            }
            let f = match missing_mul_factor {
                Some(f) => f,
                None => Ext::one(),
            };
            Some(acc.mul(f))
        },
        None => missing_mul_factor,
    };
    proof {
        vstd::arithmetic::power2::lemma_pow2_pos(skips as nat);
        assert(is_power_of_two(k as nat));
    }
    let folded = batch_fold_multilinear_in_extension(multilinears, folding_scalars.as_slice());
    (new_sum, new_factor, folded)
}


/// The number of rounds of a sumcheck over `n_vars` variables whose first
/// round skips `skips` of them: the one given, else `n_vars - skips + 1`.
pub open spec fn round_count(n_vars: nat, skips: nat, n_rounds: Option<usize>) -> nat {
    match n_rounds {
        Some(n) => n as nat,
        None => (n_vars - skips + 1) as nat,
    }
}

/// The schedule of the prover's rounds: for each round, the number of
/// variables it folds and whether it is a zerofier round. The first round
/// skips `skips` variables and is a zerofier round if asked; each later one
/// folds one variable. There is no schedule (`None`) when more variables are
/// skipped than there are, when the `eq` point has not one coordinate per
/// round (`n_vars - skips + 1`), or when more rounds are asked than there are
/// variables left to fold. At least one round is made.
pub fn prover_plan(
    n_vars: usize,
    skips: usize,
    n_rounds: Option<usize>,
    eq_len: Option<usize>,
    is_zerofier: bool,
) -> (r: Option<Vec<(usize, bool)>>)
    requires
        n_vars < usize::MAX,
    ensures
        r is Some <==> (skips <= n_vars && (eq_len matches Some(l) ==> l == n_vars - skips + 1) && (
        n_rounds matches Some(n) ==> n <= n_vars - skips + 1)),
        r matches Some(v) ==> ({
            let count = round_count(n_vars as nat, skips as nat, n_rounds);
            &&& v@.len() == (if count == 0 { 1 } else { count })
            &&& v@[0] == (skips, is_zerofier)
            &&& forall|i: int| 1 <= i < v@.len() ==> #[trigger] v@[i] == (1usize, false)
        }),
{
    if skips > n_vars {
        return None;
    }
    let full = n_vars - skips + 1;
    match eq_len {
        Some(l) => {
            if l != full {
                return None;
            }
        },
        None => {},
    }
    let count = match n_rounds {
        Some(n) => {
            if n > full {
                return None;
            }
            n
        },
        None => full,
    };
    let mut plan: Vec<(usize, bool)> = Vec::new();
    plan.push((skips, is_zerofier));
    let mut i: usize = 1;
    while i < count
        invariant
            1 <= i,
            i <= count || i == 1,
            count <= full,
            plan@.len() == i,
            plan@[0] == (skips, is_zerofier),
            forall|t: int| 1 <= t < i ==> #[trigger] plan@[t] == (1usize, false),
        decreases count - i,
    {
        plan.push((1, false));
        i = i + 1;
    }
    assert(count == round_count(n_vars as nat, skips as nat, n_rounds));
    Some(plan)
}

/// In a classic round, `h(0) + h(1)` is the claimed sum.
pub proof fn lemma_classic_round_sums_to_claim(h0: Seq<nat>, sum: Seq<nat>)
    requires
        is_ext(h0),
        is_ext(sum),
    ensures
        ext_add(h0, ext_sub(sum, h0)) == sum,
{
    lemma_ext_add_sub_cancel(sum, h0);
}

proof fn lemma_ext_sum_prefix(a: Seq<Seq<nat>>, b: Seq<Seq<nat>>, k: int)
    requires
        0 <= k,
        k <= a.len(),
        k <= b.len(),
        forall|i: int| 0 <= i < k ==> a[i] == b[i],
    ensures
        ext_sum(a, k) == ext_sum(b, k),
    decreases k,
{
    if k > 0 {
        lemma_ext_sum_prefix(a, b, k - 1);
    }
}

proof fn lemma_ext_sum_is_ext(a: Seq<Seq<nat>>, k: int)
    ensures
        is_ext(ext_sum(a, k)),
    decreases k,
{
    if k > 0 {
        lemma_ext_sum_is_ext(a, k - 1);
    }
}

/// Without an `eq` point, the values that a round which is not a zerofier
/// sends on the first `k` grid points sum to the claimed sum: the value at
/// `k - 1` is derived so that they do.
pub proof fn lemma_general_round_sums_to_claim(hs: Seq<Seq<nat>>, factor: Option<Seq<nat>>, sum: Seq<nat>, k: nat)
    requires
        k >= 1,
        is_ext(sum),
    ensures
        ext_sum(
            Seq::new(k, |z: int| general_round_value(hs, factor, None, sum, k, false, z)),
            k as int,
        ) == sum,
{
    let vals = Seq::new(k, |z: int| general_round_value(hs, factor, None, sum, k, false, z));
    let prev = Seq::new((k - 1) as nat, |i: int| with_factor(hs[i], factor));
    lemma_ext_sum_prefix(vals, prev, k - 1);
    lemma_ext_sum_is_ext(prev, k - 1);
    assert(vals[k - 1] == ext_sub(sum, ext_sum(prev, k - 1)));
    lemma_ext_add_sub_cancel(sum, ext_sum(prev, k - 1));
}


proof fn lemma_scale_chain(h: Seq<nat>, a: nat, b: nat, c: nat, r: nat)
    requires
        is_ext(h),
        fmul(fmul(a as int, b as int) as int, c as int) == r,
    ensures
        ext_mul(ext_mul(ext_mul(h, ext_from_base(a)), ext_from_base(b)), ext_from_base(c)) == ext_scale(h, r),
{
    lemma_ext_mul_base(h, a);
    lemma_ext_mul_base(ext_scale(h, a), b);
    lemma_ext_scale_scale(h, a, b);
    lemma_ext_mul_base(ext_scale(h, fmul(a as int, b as int)), c);
    lemma_ext_scale_scale(h, fmul(a as int, b as int), c);
}

proof fn lemma_times_zero_twice(h: Seq<nat>, a: nat, y: Seq<nat>)
    ensures
        ext_mul(ext_mul(ext_mul(h, ext_from_base(a)), ext_zero()), y) == ext_zero(),
{
    lemma_ext_mul_base(h, a);
    lemma_ext_mul_one_zero(ext_scale(h, a));
    lemma_ext_mul_zero_left(y);
}

proof fn lemma_times_zero_last(h: Seq<nat>, a: nat, x: Seq<nat>)
    requires
        is_ext(x),
    ensures
        ext_mul(ext_mul(ext_mul(h, ext_from_base(a)), x), ext_zero()) == ext_zero(),
{
    lemma_ext_mul_base(h, a);
    let y = ext_mul(ext_scale(h, a), x);
    assert(is_ext(y));
    lemma_ext_mul_one_zero(y);
}

/// The quadratic of a classic round passes through `(0, h0)`, `(1, h1)` and
/// `(1/2, h_half)`: it is the round polynomial those values describe.
pub proof fn lemma_quadratic_through_points(h0: Seq<nat>, h1: Seq<nat>, h_half: Seq<nat>)
    requires
        is_ext(h0),
        is_ext(h1),
        is_ext(h_half),
    ensures
        quadratic_at(h0, h1, h_half, ext_zero()) == h0,
        quadratic_at(h0, h1, h_half, ext_one()) == h1,
        quadratic_at(h0, h1, h_half, ext_from_base(fmul(1, HALF as int))) == h_half,
{
    let half_v = fmul(1, HALF as int);
    assert(half_v == HALF);
    let zero = ext_zero();
    let one = ext_one();
    let half = ext_from_base(half_v);
    lemma_ext_zero_facts(h0);
    lemma_ext_zero_facts(h1);
    lemma_ext_zero_facts(h_half);
    // c = 0
    lemma_ext_sub_base(0, 1);
    lemma_ext_sub_base(0, half_v);
    assert(fsub(0, 1) == P - 1);
    assert(fsub(0, HALF as int) == 1065353216);
    assert(fmul(2, (P - 1) as int) == 2130706431);
    assert(fmul(2130706431, 1065353216) == 1);
    lemma_scale_chain(h0, 2, (P - 1) as nat, 1065353216, 1);
    lemma_ext_scale_zero_one(h0);
    lemma_times_zero_twice(h1, 2, ext_sub(zero, half));
    lemma_times_zero_twice(h_half, 4, ext_sub(zero, one));
    lemma_ext_add_zero(h0);
    assert(quadratic_at(h0, h1, h_half, zero) == h0);
    // c = 1
    lemma_ext_sub_base(1, 1);
    lemma_ext_sub_base(1, half_v);
    assert(fsub(1, 1) == 0);
    assert(fsub(1, HALF as int) == HALF);
    assert(ext_sub(one, one) == zero);
    lemma_times_zero_twice(h0, 2, ext_sub(one, half));
    assert(fmul(2, 1) == 2);
    assert(fmul(2, HALF as int) == 1);
    lemma_scale_chain(h1, 2, 1, HALF as nat, 1);
    lemma_ext_scale_zero_one(h1);
    lemma_times_zero_last(h_half, 4, one);
    lemma_ext_add_zero(h1);
    assert(quadratic_at(h0, h1, h_half, one) == h1);
    // c = 1/2
    lemma_ext_sub_base(half_v, 1);
    lemma_ext_sub_base(half_v, half_v);
    assert(fsub(HALF as int, 1) == 1065353216);
    assert(fsub(HALF as int, HALF as int) == 0);
    assert(ext_sub(half, half) == zero);
    lemma_times_zero_last(h0, 2, ext_sub(half, one));
    lemma_times_zero_last(h1, 2, half);
    assert(fmul(4, HALF as int) == 2);
    assert(fmul(2, 1065353216) == P - 1);
    lemma_scale_chain(h_half, 4, HALF as nat, 1065353216, (P - 1) as nat);
    lemma_ext_add_zero(zero);
    let t2 = ext_scale(h_half, (P - 1) as nat);
    assert forall|k: int| 0 <= k < 8 implies #[trigger] ext_sub(zero, t2)[k] == h_half[k] by {
        let x = h_half[k] as int;
        let p = P as int;
        vstd::arithmetic::div_mod::lemma_sub_mod_noop(0, x * (p - 1), p);
        assert(0 - x * (p - 1) == x + (-x) * p) by (nonlinear_arith);
        vstd::arithmetic::div_mod::lemma_mod_multiples_vanish(-x, x, p);
        vstd::arithmetic::div_mod::lemma_small_mod(h_half[k], P as nat);
        vstd::arithmetic::div_mod::lemma_mod_twice(x * (p - 1), p);
    }
    assert(ext_sub(zero, t2) =~= h_half);
    assert(quadratic_at(h0, h1, h_half, half) == h_half);
}


proof fn lemma_round_sum_is_value_sum(pol: RoundPolynomial, set: Seq<Ext>, vals: Seq<Seq<nat>>, j: int)
    requires
        round_poly_wf(pol),
        !pol.times_eq,
        0 <= j <= set.len(),
        set.len() <= pol.p_evals@.len(),
        vals.len() == set.len(),
        forall|i: int| 0 <= i < set.len() ==> #[trigger] set[i]@ == ext_grid(i),
        forall|i: int| 0 <= i < set.len() ==> #[trigger] vals[i] == pol.p_evals@[i]@,
    ensures
        round_poly_sum(pol, set, j) == ext_sum(vals, j),
    decreases j,
{
    if j > 0 {
        lemma_round_sum_is_value_sum(pol, set, vals, j - 1);
        lemma_round_poly_at_grid(pol, (j - 1) as nat);
        assert(set[j - 1]@ == ext_grid(j - 1));
        assert(vals[j - 1] == pol.p_evals@[j - 1]@);
    }
}

/// A round that the prover computes without an `eq` point and that is not a
/// zerofier passes the verifier's check: its round polynomial, given by the
/// values sent on the grid, sums over `{0, ..., k - 1}` to the claimed sum.
pub proof fn lemma_prover_round_passes_check(
    pol: RoundPolynomial,
    set: Seq<Ext>,
    hs: Seq<Seq<nat>>,
    factor: Option<Seq<nat>>,
    sum: Seq<nat>,
    k: nat,
)
    requires
        round_poly_wf(pol),
        !pol.times_eq,
        k >= 1,
        k <= pol.p_evals@.len(),
        set.len() == k,
        forall|i: int| 0 <= i < k ==> #[trigger] set[i]@ == ext_grid(i),
        forall|z: int|
            0 <= z < pol.p_evals@.len() ==> #[trigger] pol.p_evals@[z]@ == general_round_value(
                hs,
                factor,
                None,
                sum,
                k,
                false,
                z,
            ),
        is_ext(sum),
    ensures
        round_poly_sum(pol, set, k as int) == sum,
{
    let vals = Seq::new(k, |z: int| general_round_value(hs, factor, None, sum, k, false, z));
    assert forall|i: int| 0 <= i < set.len() implies #[trigger] vals[i] == pol.p_evals@[i]@ by {
        assert(pol.p_evals@[i]@ == general_round_value(hs, factor, None, sum, k, false, i));
    }
    lemma_round_sum_is_value_sum(pol, set, vals, k as int);
    lemma_general_round_sums_to_claim(hs, factor, sum, k);
}

proof fn lemma_eq_round_sum_is_dot(pol: RoundPolynomial, set: Seq<Ext>, j: int)
    requires
        round_poly_wf(pol),
        pol.times_eq,
        0 <= j <= set.len(),
        set.len() <= pol.p_evals@.len(),
        set.len() <= pol.eq_evals@.len(),
        forall|i: int| 0 <= i < set.len() ==> #[trigger] set[i]@ == ext_grid(i),
    ensures
        round_poly_sum(pol, set, j) == ext_dot(ext_views(pol.p_evals@), ext_views(pol.eq_evals@), j),
    decreases j,
{
    if j > 0 {
        lemma_eq_round_sum_is_dot(pol, set, j - 1);
        lemma_round_poly_at_grid(pol, (j - 1) as nat);
        assert(set[j - 1]@ == ext_grid(j - 1));
    }
}

/// A zerocheck round polynomial whose values on the grid `{0, ..., k - 1}`,
/// weighted by the values there of the `eq` polynomial, sum to the claimed
/// sum (as those the prover computes with an `eq` point do) passes the
/// verifier's check: its sum over `{0, ..., k - 1}` is the claimed sum.
pub proof fn lemma_eq_round_passes_check(pol: RoundPolynomial, set: Seq<Ext>, sum: Seq<nat>, k: nat)
    requires
        round_poly_wf(pol),
        pol.times_eq,
        k <= pol.p_evals@.len(),
        k <= pol.eq_evals@.len(),
        set.len() == k,
        forall|i: int| 0 <= i < k ==> #[trigger] set[i]@ == ext_grid(i),
        ext_dot(ext_views(pol.p_evals@), ext_views(pol.eq_evals@), k as int) == sum,
    ensures
        round_poly_sum(pol, set, k as int) == sum,
{
    lemma_eq_round_sum_is_dot(pol, set, k as int);
}

/// Each value of a point scaled by `t`.
pub open spec fn scale_all(v: Seq<Seq<nat>>, t: nat) -> Seq<Seq<nat>> {
    Seq::new(v.len(), |j: int| ext_scale(v[j], t))
}

/// The computation is a quadratic form in the point: scaling the point by
/// `t` scales its value by `t^2`, as for the product of two multilinears.
pub open spec fn is_quadratic<C: SumcheckComputation>(computation: &C, batching_scalars: Seq<Seq<nat>>) -> bool {
    forall|v: Seq<Seq<nat>>, t: nat|
        #[trigger] computation.spec_eval(scale_all(v, t), batching_scalars) == ext_scale(
            computation.spec_eval(v, batching_scalars),
            fmul(t as int, t as int),
        )
}

proof fn lemma_half_selectors()
    ensures
        base_selectors(2, HALF as int) == seq![HALF as nat, HALF as nat],
{
    lemma_weight_table(2);
    reveal_with_fuel(crate::univariate::base_grid_index, 3);
    reveal_with_fuel(crate::univariate::base_prefix, 2);
    reveal_with_fuel(crate::univariate::base_suffix, 3);
    assert(weights(2) == seq![2130706432nat, 1nat]);
    assert(crate::univariate::base_grid_index(HALF as nat, 2, 0) == 2);
    assert(modp(HALF as int) == HALF);
    assert(fsub(HALF as int, modp(1) as int) == 1065353216);
    assert(fmul(1065353216, 2130706432) == HALF);
    let x = HALF as nat;
    assert(crate::univariate::base_grid(0) == 0 && crate::univariate::base_grid(1) == 1);
    assert(crate::univariate::base_suffix(x, 2, 2) == 1);
    assert(fmul(1, 1065353216) == 1065353216);
    assert(crate::univariate::base_suffix(x, 2, 1) == 1065353216);
    assert(crate::univariate::base_prefix(x, 0) == 1);
    assert(fsub(HALF as int, 0) == HALF);
    assert(fmul(1, HALF as int) == HALF);
    assert(crate::univariate::base_prefix(x, 1) == HALF);
    assert(fmul(HALF as int, 1) == HALF);
    let b = base_selectors(2, HALF as int);
    assert(b[0] == fmul(fmul(1, 1065353216) as int, 2130706432));
    assert(b[1] == fmul(fmul(HALF as int, 1) as int, 1));
    assert(b =~= seq![HALF as nat, HALF as nat]);
}

proof fn lemma_grid_selectors()
    ensures
        base_selectors(2, 0) == seq![1nat, 0nat],
        base_selectors(2, 1) == seq![0nat, 1nat],
{
    reveal_with_fuel(crate::univariate::base_grid_index, 3);
    assert(modp(1) == 1);
    assert(crate::univariate::base_grid_index(1, 2, 0) == 1);
    assert(base_selectors(2, 0) =~= seq![1nat, 0nat]);
    assert(base_selectors(2, 1) =~= seq![0nat, 1nat]);
}

proof fn lemma_half_coordinate(a: nat, b: nat, h: nat)
    ensures
        fmul(
            fadd(
                fadd(fadd(0, fmul(a as int, 1) as int) as int, fmul(b as int, 0) as int) as int,
                fadd(fadd(0, fmul(a as int, 0) as int) as int, fmul(b as int, 1) as int) as int,
            ) as int,
            h as int,
        ) == fadd(fadd(0, fmul(a as int, h as int) as int) as int, fmul(b as int, h as int) as int),
{
    let p = P as int;
    assert(a * 1 == a && b * 1 == b && a * 0 == 0 && b * 0 == 0) by (nonlinear_arith);
    vstd::arithmetic::div_mod::lemma_mod_twice(a as int, p);
    vstd::arithmetic::div_mod::lemma_mod_twice(b as int, p);
    vstd::arithmetic::div_mod::lemma_add_mod_noop(a as int, b as int, p);
    vstd::arithmetic::div_mod::lemma_mul_mod_noop_left((a + b) as int, h as int, p);
    vstd::arithmetic::div_mod::lemma_mod_twice((a * h) as int, p);
    vstd::arithmetic::div_mod::lemma_mod_twice((b * h) as int, p);
    vstd::arithmetic::div_mod::lemma_add_mod_noop((a * h) as int, (b * h) as int, p);
    assert((a + b) * h == a * h + b * h) by (nonlinear_arith);
}

/// A multilinear folded at `1/2` is half the sum of its restrictions to `0`
/// and `1`.
proof fn lemma_fold_at_half(m: Seq<Seq<nat>>, i: int)
    requires
        0 <= i < m.len() / 2,
    ensures
        fold_small(m, base_selectors(2, HALF as int))[i] == ext_scale(
            ext_add(fold_small(m, base_selectors(2, 0))[i], fold_small(m, base_selectors(2, 1))[i]),
            HALF as nat,
        ),
{
    lemma_half_selectors();
    lemma_grid_selectors();
    reveal_with_fuel(fold_small_at, 3);
    let n = m.len() / 2;
    let l = fold_small(m, base_selectors(2, HALF as int))[i];
    let r = ext_scale(
        ext_add(fold_small(m, base_selectors(2, 0))[i], fold_small(m, base_selectors(2, 1))[i]),
        HALF as nat,
    );
    assert forall|k: int| 0 <= k < 8 implies #[trigger] l[k] == r[k] by {
        lemma_half_coordinate(m[i][k], m[i + n][k], HALF as nat);
    }
    assert(l =~= r);
}

/// `ext_scale(b, q) * e == ext_scale(b * e, q)`.
proof fn lemma_scale_mul(b: Seq<nat>, q: nat, e: Seq<nat>)
    ensures
        ext_mul(ext_scale(b, q), e) == ext_scale(ext_mul(b, e), q),
{
    let fq = ext_from_base(q);
    lemma_ext_mul_base(b, q);
    lemma_ext_mul_associative(b, fq, e);
    lemma_ext_mul_commutative(fq, e);
    lemma_ext_mul_associative(b, e, fq);
    lemma_ext_mul_base(ext_mul(b, e), q);
}

proof fn lemma_weighted_sum_scale(a: Seq<Seq<nat>>, b: Seq<Seq<nat>>, eq: Option<Seq<Seq<nat>>>, q: nat, k: int)
    requires
        0 <= k,
        forall|x: int| 0 <= x < k ==> #[trigger] a[x] == ext_scale(b[x], q),
    ensures
        weighted_sum(a, eq, k) == ext_scale(weighted_sum(b, eq, k), q),
    decreases k,
{
    let p = P as int;
    if k == 0 {
        assert(ext_scale(ext_zero(), q) =~= ext_zero());
    } else {
        lemma_weighted_sum_scale(a, b, eq, q, k - 1);
        let y = with_factor(b[k - 1], opt_at(eq, k - 1));
        if let Some(e) = opt_at(eq, k - 1) {
            lemma_scale_mul(b[k - 1], q, e);
        }
        let x = weighted_sum(b, eq, k - 1);
        assert forall|j: int| 0 <= j < 8 implies #[trigger] ext_add(ext_scale(x, q), ext_scale(y, q))[j] == ext_scale(
            ext_add(x, y),
            q,
        )[j] by {
            vstd::arithmetic::div_mod::lemma_add_mod_noop((x[j] * q) as int, (y[j] * q) as int, p);
            vstd::arithmetic::div_mod::lemma_mul_mod_noop_left((x[j] + y[j]) as int, q as int, p);
            assert((x[j] + y[j]) * q == x[j] * q + y[j] * q) by (nonlinear_arith);
        }
        assert(ext_add(ext_scale(x, q), ext_scale(y, q)) =~= ext_scale(ext_add(x, y), q));
    }
}

/// For a computation that is a quadratic form (such as the product of two
/// multilinears), the value `h(1/2)` that a classic round derives from the
/// sums of the halves, `1/4 * sum_b C(p(0, b) + p(1, b))`, is the value at
/// `1/2` of the round polynomial: the sum of the computation over the
/// multilinears folded at `1/2`.
pub proof fn lemma_classic_half_value<C: SumcheckComputation>(
    computation: &C,
    ms: Seq<Seq<Seq<nat>>>,
    batching_scalars: Seq<Seq<nat>>,
    eq: Option<Seq<Seq<nat>>>,
)
    requires
        ms.len() >= 1,
        forall|j: int| 0 <= j < ms.len() ==> #[trigger] ms[j].len() == ms[0].len(),
        is_quadratic(computation, batching_scalars),
    ensures
        ext_mul(
            hypercube_sum(
                computation,
                sum_all(fold_all(ms, base_selectors(2, 0)), fold_all(ms, base_selectors(2, 1))),
                batching_scalars,
                eq,
            ),
            quarter(),
        ) == hypercube_sum(computation, fold_all(ms, base_selectors(2, HALF as int)), batching_scalars, eq),
{
    let h = HALF as nat;
    let q = fmul(h as int, h as int);
    let sums = sum_all(fold_all(ms, base_selectors(2, 0)), fold_all(ms, base_selectors(2, 1)));
    let halves = fold_all(ms, base_selectors(2, HALF as int));
    lemma_half_selectors();
    lemma_grid_selectors();
    let n = ms[0].len() / 2;
    assert(sums[0].len() == n);
    assert(halves[0].len() == n);
    let vs = Seq::new(n, |x: int| computation.spec_eval(hypercube_point_at(sums, x), batching_scalars));
    let vh = Seq::new(n, |x: int| computation.spec_eval(hypercube_point_at(halves, x), batching_scalars));
    assert forall|x: int| 0 <= x < n implies #[trigger] vh[x] == ext_scale(vs[x], q) by {
        assert forall|j: int| 0 <= j < ms.len() implies #[trigger] hypercube_point_at(halves, x)[j] == scale_all(
            hypercube_point_at(sums, x),
            h,
        )[j] by {
            lemma_fold_at_half(ms[j], x);
        }
        assert(hypercube_point_at(halves, x) =~= scale_all(hypercube_point_at(sums, x), h));
    }
    lemma_weighted_sum_scale(vh, vs, eq, q, n as int);
    lemma_ext_mul_from_base(fmul(1, HALF as int), fmul(1, HALF as int));
    assert(fmul(1, HALF as int) == h);
    lemma_ext_mul_base(weighted_sum(vs, eq, n as int), q);
}

/// The product of two multilinears is a quadratic form.
pub proof fn lemma_product_is_quadratic(batching_scalars: Seq<Seq<nat>>)
    ensures
        is_quadratic(&ProductComputation, batching_scalars),
{
    assert forall|v: Seq<Seq<nat>>, t: nat| #[trigger] ProductComputation.spec_eval(scale_all(v, t), batching_scalars)
        == ext_scale(ProductComputation.spec_eval(v, batching_scalars), fmul(t as int, t as int)) by {
        let q = fmul(t as int, t as int);
        if v.len() >= 2 && batching_scalars.len() >= 1 {
            let (a, b, c) = (v[0], v[1], batching_scalars[0]);
            lemma_scale_mul(a, t, ext_scale(b, t));
            lemma_ext_mul_commutative(a, ext_scale(b, t));
            lemma_scale_mul(b, t, a);
            lemma_ext_mul_commutative(b, a);
            lemma_ext_mul_commutative(ext_scale(b, t), a);
            lemma_ext_scale_scale(ext_mul(a, b), t, t);
            lemma_scale_mul(ext_mul(a, b), q, c);
        } else {
            assert(ext_scale(ext_zero(), q) =~= ext_zero());
        }
    }
}

proof fn lemma_mod_add_left(a: int, b: int)
    ensures
        ((a % (P as int)) + b) % (P as int) == (a + b) % (P as int),
        (b + (a % (P as int))) % (P as int) == (b + a) % (P as int),
{
    let p = P as int;
    vstd::arithmetic::div_mod::lemma_add_mod_noop(a % p, b, p);
    vstd::arithmetic::div_mod::lemma_add_mod_noop(a, b, p);
    vstd::arithmetic::div_mod::lemma_mod_twice(a, p);
    vstd::arithmetic::div_mod::lemma_add_mod_noop(b, a % p, p);
    vstd::arithmetic::div_mod::lemma_add_mod_noop(b, a, p);
}

proof fn lemma_mod_sub_left(a: int, b: int)
    ensures
        ((a % (P as int)) - b) % (P as int) == (a - b) % (P as int),
        (b - (a % (P as int))) % (P as int) == (b - a) % (P as int),
{
    let p = P as int;
    vstd::arithmetic::div_mod::lemma_sub_mod_noop(a % p, b, p);
    vstd::arithmetic::div_mod::lemma_sub_mod_noop(a, b, p);
    vstd::arithmetic::div_mod::lemma_mod_twice(a, p);
    vstd::arithmetic::div_mod::lemma_sub_mod_noop(b, a % p, p);
    vstd::arithmetic::div_mod::lemma_sub_mod_noop(b, a, p);
}

proof fn lemma_fadd3(x1: int, x2: int, x3: int)
    ensures
        fadd(fadd(x1, x2) as int, x3) == (x1 + x2 + x3) % (P as int),
{
    lemma_mod_add_left(x1 + x2, x3);
}

proof fn lemma_fsub_of_mods(a: int, b: int)
    ensures
        fsub(a % (P as int), b % (P as int)) == (a - b) % (P as int),
{
    vstd::arithmetic::div_mod::lemma_sub_mod_noop(a, b, P as int);
}

proof fn lemma_fadd_of_mods(a: int, b: int)
    ensures
        fadd(a % (P as int), b % (P as int)) == (a + b) % (P as int),
{
    vstd::arithmetic::div_mod::lemma_add_mod_noop(a, b, P as int);
}

proof fn lemma_regroup_left(x0: int, x1: int, x2: int, x3: int, x4: int, x5: int, x6: int)
    ensures
        fsub(
            fadd(x0, fadd(fadd(x1, x2) as int, x3) as int) as int,
            fadd(fadd(x4, x5) as int, x6) as int,
        ) == ((x0 + (x1 + x2 + x3)) - (x4 + x5 + x6)) % (P as int),
{
    let p = P as int;
    lemma_fadd3(x1, x2, x3);
    lemma_fadd3(x4, x5, x6);
    assert(fadd(x0, fadd(fadd(x1, x2) as int, x3) as int) == (x0 + (x1 + x2 + x3)) % p) by {
        lemma_mod_add_left(x1 + x2 + x3, x0);
    }
    lemma_fsub_of_mods(x0 + (x1 + x2 + x3), x4 + x5 + x6);
}

proof fn lemma_regroup_right(x0: int, x1: int, x2: int, x3: int, x4: int, x5: int, x6: int)
    ensures
        fadd(
            fadd(fsub(fadd(x0, x1) as int, x4) as int, fsub(x2, x5) as int) as int,
            fsub(x3, x6) as int,
        ) == (((x0 + x1) - x4) + (x2 - x5) + (x3 - x6)) % (P as int),
{
    let p = P as int;
    assert(fsub(fadd(x0, x1) as int, x4) == ((x0 + x1) - x4) % p) by { lemma_mod_sub_left(x0 + x1, x4); }
    lemma_fadd_of_mods((x0 + x1) - x4, x2 - x5);
    lemma_fadd_of_mods((x0 + x1) - x4 + (x2 - x5), x3 - x6);
}

proof fn lemma_regroup(x0: int, x1: int, x2: int, x3: int, x4: int, x5: int, x6: int)
    ensures
        fsub(
            fadd(x0, fadd(fadd(x1, x2) as int, x3) as int) as int,
            fadd(fadd(x4, x5) as int, x6) as int,
        ) == fadd(
            fadd(fsub(fadd(x0, x1) as int, x4) as int, fsub(x2, x5) as int) as int,
            fsub(x3, x6) as int,
        ),
{
    lemma_regroup_left(x0, x1, x2, x3, x4, x5, x6);
    lemma_regroup_right(x0, x1, x2, x3, x4, x5, x6);
    assert((x0 + (x1 + x2 + x3)) - (x4 + x5 + x6) == ((x0 + x1) - x4) + (x2 - x5) + (x3 - x6));
}

proof fn lemma_fmul_of_mod(a: int, b: int)
    ensures
        fmul(a % (P as int), b) == (a * b) % (P as int),
{
    vstd::arithmetic::div_mod::lemma_mul_mod_noop_left(a, b, P as int);
}

/// The coordinates of the three Lagrange polynomials of `{0, 1, 1/2}`
/// (doubled and quadrupled as in the classic round) as integers modulo `p`.
proof fn lemma_ell_coords(cv: int, w: int, e: int)
    ensures
        fmul(fsub(fsub(w, cv) as int, fmul(fsub(cv, e) as int, HALF as int) as int) as int, 2) == (2 * ((w - cv) - (cv - e)
            * HALF)) % (P as int),
        fmul(fsub(w, fmul(cv, HALF as int) as int) as int, 2) == (2 * (w - cv * HALF)) % (P as int),
        fmul(fsub(w, cv) as int, 4) == (4 * (w - cv)) % (P as int),
{
    let p = P as int;
    assert(fmul(fsub(cv, e) as int, HALF as int) == ((cv - e) * HALF) % p) by { lemma_fmul_of_mod(cv - e, HALF as int); }
    assert(fsub(fsub(w, cv) as int, fmul(fsub(cv, e) as int, HALF as int) as int) == ((w - cv) - (cv - e) * HALF) % p) by {
        lemma_fsub_of_mods(w - cv, (cv - e) * HALF);
    }
    assert(fmul(fsub(fsub(w, cv) as int, fmul(fsub(cv, e) as int, HALF as int) as int) as int, 2) == (((w - cv) - (cv - e)
        * HALF) * 2) % p) by {
        lemma_fmul_of_mod((w - cv) - (cv - e) * HALF, 2);
    }
    assert(fsub(w, fmul(cv, HALF as int) as int) == (w - cv * HALF) % p) by {
        vstd::arithmetic::div_mod::lemma_mod_twice(w, p);
        lemma_mod_sub_left(cv * HALF, w);
    }
    assert(fmul(fsub(w, fmul(cv, HALF as int) as int) as int, 2) == ((w - cv * HALF) * 2) % p) by {
        lemma_fmul_of_mod(w - cv * HALF, 2);
    }
    assert(fmul(fsub(w, cv) as int, 4) == ((w - cv) * 4) % p) by { lemma_fmul_of_mod(w - cv, 4); }
}

/// `1/4` in the base field.
pub open spec fn quarter_base() -> nat {
    1598029825
}

proof fn lemma_ell_identities(cv: int, w: int, e: int)
    requires
        0 <= cv < P,
        0 <= w < P,
        e == 0 || e == 1,
    ensures
        ({
            let p = P as int;
            let a0 = (2 * ((w - cv) - (cv - e) * HALF)) % p;
            let a1 = (2 * (w - cv * HALF)) % p;
            let a2 = (4 * (w - cv)) % p;
            &&& fsub(fadd(a0, a1) as int, a2) == e
            &&& fsub(a1, fmul(a2, HALF as int) as int) == cv
            &&& fsub(a1, fmul(a2, quarter_base() as int) as int) == w
        }),
{
    let p = P as int;
    let h = HALF as int;
    let q = quarter_base() as int;
    let t0 = 2 * ((w - cv) - (cv - e) * h);
    let t1 = 2 * (w - cv * h);
    let t2 = 4 * (w - cv);
    lemma_fadd_of_mods(t0, t1);
    vstd::arithmetic::div_mod::lemma_mod_twice(t0 + t1, p);
    lemma_fsub_of_mods(t0 + t1, t2);
    assert(t0 + t1 - t2 == p * (e - 2 * cv) + e);
    vstd::arithmetic::div_mod::lemma_mod_multiples_vanish(e - 2 * cv, e, p);
    vstd::arithmetic::div_mod::lemma_small_mod(e as nat, p as nat);
    lemma_fmul_of_mod(t2, h);
    lemma_fsub_of_mods(t1, t2 * h);
    assert(t1 - t2 * h == p * (cv - 2 * w) + cv);
    vstd::arithmetic::div_mod::lemma_mod_multiples_vanish(cv - 2 * w, cv, p);
    vstd::arithmetic::div_mod::lemma_small_mod(cv as nat, p as nat);
    lemma_fmul_of_mod(t2, q);
    lemma_fsub_of_mods(t1, t2 * q);
    assert(t1 - t2 * q == p * (2 * cv - 3 * w) + w);
    vstd::arithmetic::div_mod::lemma_mod_multiples_vanish(2 * cv - 3 * w, w, p);
    vstd::arithmetic::div_mod::lemma_small_mod(w as nat, p as nat);
}

/// `1/2` in the extension, as the classic round writes it.
pub open spec fn half_ext() -> Seq<nat> {
    ext_from_base(fmul(1, HALF as int))
}

/// `2 (c - 1)(c - 1/2)`, the factor of `h(0)` in [`quadratic_at`].
spec fn ell0(c: Seq<nat>) -> Seq<nat> {
    ext_mul(ext_from_base(2), ext_mul(ext_sub(c, ext_one()), ext_sub(c, half_ext())))
}

/// `2 c (c - 1/2)`, the factor of `h(1)` in [`quadratic_at`].
spec fn ell1(c: Seq<nat>) -> Seq<nat> {
    ext_mul(ext_from_base(2), ext_mul(c, ext_sub(c, half_ext())))
}

/// `4 c (c - 1)`, the factor of `h(1/2)` in [`quadratic_at`].
spec fn ell2(c: Seq<nat>) -> Seq<nat> {
    ext_mul(ext_from_base(4), ext_mul(c, ext_sub(c, ext_one())))
}

proof fn lemma_mul_is_ext(a: Seq<nat>, b: Seq<nat>)
    ensures
        is_ext(ext_mul(a, b)),
{
    assert forall|j: int| 0 <= j < 8 implies #[trigger] ext_mul(a, b)[j] < P by {
        assert(ext_mul(a, b)[j] == ext_mul_coeff(a, b, j, 8));
    }
}

/// `x * e == e * x` for a base element `e`: both scale `x`.
proof fn lemma_base_times(s: nat, x: Seq<nat>)
    ensures
        ext_mul(ext_from_base(s), x) == ext_scale(x, s),
        ext_mul(x, ext_from_base(s)) == ext_scale(x, s),
{
    lemma_ext_mul_commutative(ext_from_base(s), x);
    lemma_ext_mul_base(x, s);
}

proof fn lemma_ell_expand(c: Seq<nat>)
    requires
        is_ext(c),
    ensures
        ell0(c) == ext_scale(ext_sub(ext_sub(ext_mul(c, c), c), ext_scale(ext_sub(c, ext_one()), HALF as nat)), 2),
        ell1(c) == ext_scale(ext_sub(ext_mul(c, c), ext_scale(c, HALF as nat)), 2),
        ell2(c) == ext_scale(ext_sub(ext_mul(c, c), c), 4),
{
    let one = ext_one();
    let half = half_ext();
    assert(fmul(1, HALF as int) == HALF);
    let s = ext_sub(c, one);
    lemma_ext_mul_one_zero(c);
    // (c - 1)(c - 1/2) = (c - 1) c - (c - 1)/2
    lemma_ext_mul_distributes(s, c, half);
    lemma_ext_mul_commutative(s, c);
    lemma_ext_mul_distributes(c, c, one);
    lemma_base_times(HALF as nat, s);
    lemma_base_times(2, ext_mul(s, ext_sub(c, half)));
    // c (c - 1/2) = c c - c/2
    lemma_ext_mul_distributes(c, c, half);
    lemma_base_times(HALF as nat, c);
    lemma_base_times(2, ext_mul(c, ext_sub(c, half)));
    // c (c - 1) = c c - c
    lemma_base_times(4, ext_mul(c, s));
}

proof fn lemma_ell_coordinate(c: Seq<nat>, k: int)
    requires
        is_ext(c),
        0 <= k < 8,
    ensures
        ext_sub(ext_add(ell0(c), ell1(c)), ell2(c))[k] == ext_one()[k],
        ext_sub(ell1(c), ext_scale(ell2(c), HALF as nat))[k] == c[k],
        ext_sub(ell1(c), ext_scale(ell2(c), quarter_base()))[k] == ext_mul(c, c)[k],
{
    lemma_ell_expand(c);
    lemma_mul_is_ext(c, c);
    let cc = ext_mul(c, c);
    let (cv, w, e) = (c[k] as int, cc[k] as int, ext_one()[k] as int);
    lemma_ell_coords(cv, w, e);
    lemma_ell_identities(cv, w, e);
    let a0 = ell0(c)[k];
    let a1 = ell1(c)[k];
    let a2 = ell2(c)[k];
    assert(a0 == fmul(fsub(fsub(w, cv) as int, fmul(fsub(cv, e) as int, HALF as int) as int) as int, 2));
    assert(a1 == fmul(fsub(w, fmul(cv, HALF as int) as int) as int, 2));
    assert(a2 == fmul(fsub(w, cv) as int, 4));
}

/// The three factors of [`quadratic_at`] combine to `1`, `c` and `c^2`.
proof fn lemma_ell_combinations(c: Seq<nat>)
    requires
        is_ext(c),
    ensures
        ext_sub(ext_add(ell0(c), ell1(c)), ell2(c)) == ext_one(),
        ext_sub(ell1(c), ext_scale(ell2(c), HALF as nat)) == c,
        ext_sub(ell1(c), ext_scale(ell2(c), quarter_base())) == ext_mul(c, c),
{
    assert forall|k: int| 0 <= k < 8 implies #[trigger] ext_sub(ext_add(ell0(c), ell1(c)), ell2(c))[k] == ext_one()[k] by {
        lemma_ell_coordinate(c, k);
    }
    assert forall|k: int| 0 <= k < 8 implies #[trigger] ext_sub(ell1(c), ext_scale(ell2(c), HALF as nat))[k] == c[k] by {
        lemma_ell_coordinate(c, k);
    }
    assert forall|k: int| 0 <= k < 8 implies #[trigger] ext_sub(ell1(c), ext_scale(ell2(c), quarter_base()))[k] == ext_mul(
        c,
        c,
    )[k] by {
        lemma_ell_coordinate(c, k);
    }
    assert(ext_sub(ext_add(ell0(c), ell1(c)), ell2(c)) =~= ext_one());
    assert(ext_sub(ell1(c), ext_scale(ell2(c), HALF as nat)) =~= c);
    assert(ext_sub(ell1(c), ext_scale(ell2(c), quarter_base())) =~= ext_mul(c, c));
}

/// `c0 + c1 z + c2 z^2`.
pub open spec fn poly2(c0: Seq<nat>, c1: Seq<nat>, c2: Seq<nat>, z: Seq<nat>) -> Seq<nat> {
    ext_add(ext_add(c0, ext_mul(c1, z)), ext_mul(c2, ext_mul(z, z)))
}

proof fn lemma_right_distributes(x: Seq<nat>, y: Seq<nat>, l: Seq<nat>)
    ensures
        ext_mul(ext_add(x, y), l) == ext_add(ext_mul(x, l), ext_mul(y, l)),
{
    lemma_ext_mul_commutative(ext_add(x, y), l);
    lemma_ext_mul_distributes(l, x, y);
    lemma_ext_mul_commutative(l, x);
    lemma_ext_mul_commutative(l, y);
}

/// The values of a quadratic at `0`, `1` and `1/2`.
proof fn lemma_poly2_values(a: Seq<nat>, b: Seq<nat>, d: Seq<nat>)
    requires
        is_ext(a),
        is_ext(b),
        is_ext(d),
    ensures
        poly2(a, b, d, ext_zero()) == a,
        poly2(a, b, d, ext_one()) == ext_add(ext_add(a, b), d),
        poly2(a, b, d, half_ext()) == ext_add(
            ext_add(a, ext_scale(b, HALF as nat)),
            ext_scale(d, quarter_base()),
        ),
{
    lemma_ext_mul_one_zero(b);
    lemma_ext_mul_one_zero(d);
    lemma_ext_mul_one_zero(ext_zero());
    lemma_ext_mul_one_zero(ext_one());
    lemma_ext_add_zero(a);
    lemma_ext_add_zero(ext_zero());
    assert(fmul(1, HALF as int) == HALF);
    assert(fmul(HALF as int, HALF as int) == quarter_base());
    lemma_ext_mul_from_base(HALF as nat, HALF as nat);
    lemma_ext_mul_base(b, HALF as nat);
    lemma_ext_mul_base(d, quarter_base());
}

/// `x * scale(l, s) == scale(x, s) * l`.
proof fn lemma_scale_moves(x: Seq<nat>, s: nat, l: Seq<nat>)
    ensures
        ext_mul(ext_scale(x, s), l) == ext_mul(x, ext_scale(l, s)),
{
    lemma_scale_mul(x, s, l);
    lemma_ext_mul_commutative(x, ext_scale(l, s));
    lemma_scale_mul(l, s, x);
    lemma_ext_mul_commutative(l, x);
}

proof fn lemma_quadratic_terms(h0: Seq<nat>, h1: Seq<nat>, hh: Seq<nat>, c: Seq<nat>)
    ensures
        quadratic_at(h0, h1, hh, c) == ext_sub(
            ext_add(ext_mul(h0, ell0(c)), ext_mul(h1, ell1(c))),
            ext_mul(hh, ell2(c)),
        ),
{
    let one = ext_one();
    let half = half_ext();
    let two = ext_from_base(2);
    let four = ext_from_base(4);
    lemma_ext_mul_associative(ext_mul(h0, two), ext_sub(c, one), ext_sub(c, half));
    lemma_ext_mul_associative(h0, two, ext_mul(ext_sub(c, one), ext_sub(c, half)));
    lemma_ext_mul_associative(ext_mul(h1, two), c, ext_sub(c, half));
    lemma_ext_mul_associative(h1, two, ext_mul(c, ext_sub(c, half)));
    lemma_ext_mul_associative(ext_mul(hh, four), c, ext_sub(c, one));
    lemma_ext_mul_associative(hh, four, ext_mul(c, ext_sub(c, one)));
}

proof fn lemma_regroup_ext(x0: Seq<nat>, x1: Seq<nat>, x2: Seq<nat>, x3: Seq<nat>, x4: Seq<nat>, x5: Seq<nat>, x6: Seq<nat>)
    ensures
        ext_sub(ext_add(x0, ext_add(ext_add(x1, x2), x3)), ext_add(ext_add(x4, x5), x6)) == ext_add(
            ext_add(ext_sub(ext_add(x0, x1), x4), ext_sub(x2, x5)),
            ext_sub(x3, x6),
        ),
{
    assert forall|k: int| 0 <= k < 8 implies #[trigger] ext_sub(
        ext_add(x0, ext_add(ext_add(x1, x2), x3)),
        ext_add(ext_add(x4, x5), x6),
    )[k] == ext_add(ext_add(ext_sub(ext_add(x0, x1), x4), ext_sub(x2, x5)), ext_sub(x3, x6))[k] by {
        lemma_regroup(x0[k] as int, x1[k] as int, x2[k] as int, x3[k] as int, x4[k] as int, x5[k] as int, x6[k] as int);
    }
    assert(ext_sub(ext_add(x0, ext_add(ext_add(x1, x2), x3)), ext_add(ext_add(x4, x5), x6)) =~= ext_add(
        ext_add(ext_sub(ext_add(x0, x1), x4), ext_sub(x2, x5)),
        ext_sub(x3, x6),
    ));
}

/// The classic round's polynomial is determined by its three values: for a
/// quadratic `q(z) = a + b z + d z^2`, the quadratic through `(0, q(0))`,
/// `(1, q(1))` and `(1/2, q(1/2))` is `q` at every point `c` (such as `2`,
/// where the round polynomial of the general branch is also evaluated).
pub proof fn lemma_quadratic_determined(a: Seq<nat>, b: Seq<nat>, d: Seq<nat>, c: Seq<nat>)
    requires
        is_ext(a),
        is_ext(b),
        is_ext(d),
        is_ext(c),
    ensures
        quadratic_at(poly2(a, b, d, ext_zero()), poly2(a, b, d, ext_one()), poly2(a, b, d, half_ext()), c) == poly2(
            a,
            b,
            d,
            c,
        ),
{
    let (l0, l1, l2) = (ell0(c), ell1(c), ell2(c));
    let h = HALF as nat;
    let q = quarter_base();
    lemma_poly2_values(a, b, d);
    let sb = ext_scale(b, h);
    let sd = ext_scale(d, q);
    lemma_quadratic_terms(a, ext_add(ext_add(a, b), d), ext_add(ext_add(a, sb), sd), c);
    // h(1) ell1 and h(1/2) ell2, distributed
    lemma_right_distributes(ext_add(a, b), d, l1);
    lemma_right_distributes(a, b, l1);
    lemma_right_distributes(ext_add(a, sb), sd, l2);
    lemma_right_distributes(a, sb, l2);
    lemma_scale_moves(b, h, l2);
    lemma_scale_moves(d, q, l2);
    lemma_regroup_ext(
        ext_mul(a, l0),
        ext_mul(a, l1),
        ext_mul(b, l1),
        ext_mul(d, l1),
        ext_mul(a, l2),
        ext_mul(b, ext_scale(l2, h)),
        ext_mul(d, ext_scale(l2, q)),
    );
    // factor each coefficient out
    lemma_ext_mul_distributes(a, l0, l1);
    lemma_ext_mul_distributes(a, ext_add(l0, l1), l2);
    lemma_ext_mul_distributes(b, l1, ext_scale(l2, h));
    lemma_ext_mul_distributes(d, l1, ext_scale(l2, q));
    lemma_ell_combinations(c);
    lemma_ext_mul_one_zero(a);
}

proof fn lemma_one_minus_coord(zk: int, e: int)
    requires
        0 <= zk < P,
        e == 0 || e == 1,
    ensures
        fmul(fsub(zk, e) as int, (P - 1) as int) == fsub(e, zk),
{
    let p = P as int;
    lemma_fmul_of_mod(zk - e, p - 1);
    assert((zk - e) * (p - 1) == p * (zk - e) + (e - zk)) by (nonlinear_arith);
    vstd::arithmetic::div_mod::lemma_mod_multiples_vanish(zk - e, e - zk, p);
}

/// The selectors of the grid `{0, 1}` at `z` are `1 - z` and `z`.
proof fn lemma_two_selectors(z: Seq<nat>)
    requires
        is_ext(z),
    ensures
        ext_selectors(2, z) == seq![ext_sub(ext_one(), z), z],
{
    let one = ext_one();
    lemma_weight_table(2);
    assert(weights(2) == seq![(P - 1) as nat, 1nat]);
    assert(ext_grid(0) =~= ext_zero());
    assert(ext_grid(1) == one);
    reveal_with_fuel(ext_grid_index, 3);
    lemma_ext_mul_one_zero(z);
    lemma_ext_zero_facts(z);
    lemma_ext_zero_facts(one);
    assert(ext_sub(one, ext_zero()) =~= one);
    assert(ext_sub(one, one) =~= ext_zero());
    if ext_grid_index(z, 2, 0) < 2 {
        assert(ext_selectors(2, z) =~= seq![ext_sub(one, z), z]);
    } else {
        let d = ext_sub(z, one);
        assert(is_ext(d));
        lemma_ext_mul_one_zero(d);
        lemma_ext_mul_commutative(one, d);
        lemma_ext_mul_commutative(one, z);
        lemma_ext_mul_commutative(one, one);
        lemma_ext_mul_one_zero(one);
        assert(ext_suffix(z, 2, 2) == one);
        assert(ext_suffix(z, 2, 1) == ext_mul(one, d));
        reveal_with_fuel(ext_prefix, 2);
        assert(ext_prefix(z, 1) == ext_mul(one, ext_sub(z, ext_grid(0))));
        assert(ext_prefix(z, 1) == z);
        lemma_ext_scale_zero_one(z);
        assert forall|k: int| 0 <= k < 8 implies #[trigger] ext_scale(d, (P - 1) as nat)[k] == ext_sub(one, z)[k] by {
            lemma_one_minus_coord(z[k] as int, one[k] as int);
        }
        assert(ext_scale(d, (P - 1) as nat) =~= ext_sub(one, z));
        assert(ext_selectors(2, z) =~= seq![ext_sub(one, z), z]);
    }
}

proof fn lemma_coord_a(a: int, b: int, c: int)
    requires
        0 <= a < P,
    ensures
        fadd(fadd(0, fsub(a, b) as int) as int, c) == fadd(a, fsub(c, b) as int),
{
    let p = P as int;
    assert(fadd(0, fsub(a, b) as int) == (a - b) % p) by {
        vstd::arithmetic::div_mod::lemma_mod_twice(a - b, p);
    }
    lemma_mod_add_left(a - b, c);
    lemma_mod_add_left(c - b, a);
    assert(a - b + c == a + (c - b));
}

proof fn lemma_coord_b(x0: int, x1: int, x2: int, y0: int, y1: int, y2: int)
    ensures
        fadd(fadd(fadd(x0, x1) as int, x2) as int, fadd(fadd(y0, y1) as int, y2) as int) == fadd(
            fadd(fadd(x0, y0) as int, fadd(x1, y1) as int) as int,
            fadd(x2, y2) as int,
        ),
{
    let p = P as int;
    lemma_fadd3(x0, x1, x2);
    lemma_fadd3(y0, y1, y2);
    lemma_fadd_of_mods(x0 + x1 + x2, y0 + y1 + y2);
    lemma_fadd_of_mods(x0, y0);
    lemma_fadd_of_mods(x1, y1);
    vstd::arithmetic::div_mod::lemma_mod_twice(x0 + y0, p);
    vstd::arithmetic::div_mod::lemma_mod_twice(x1 + y1, p);
    vstd::arithmetic::div_mod::lemma_mod_twice(x2 + y2, p);
    lemma_fadd_of_mods(x0 + y0, x1 + y1);
    vstd::arithmetic::div_mod::lemma_mod_twice(x0 + y0 + (x1 + y1), p);
    lemma_fadd_of_mods(x0 + y0 + (x1 + y1), x2 + y2);
    lemma_fadd_of_mods(x2, y2);
    assert(x0 + x1 + x2 + (y0 + y1 + y2) == x0 + y0 + (x1 + y1) + (x2 + y2));
}

proof fn lemma_coord_c(a: int, b: int)
    requires
        0 <= b < P,
    ensures
        fsub(fadd(a, b) as int, a) == b,
{
    let p = P as int;
    lemma_mod_sub_left(a + b, a);
    vstd::arithmetic::div_mod::lemma_small_mod(b as nat, p as nat);
}

proof fn lemma_coord_half(u: int, w: int)
    requires
        0 <= u < P,
    ensures
        fadd(u, fmul(fsub(w, u) as int, HALF as int) as int) == fadd(
            fadd(0, fmul(u, HALF as int) as int) as int,
            fmul(w, HALF as int) as int,
        ),
{
    let p = P as int;
    let h = HALF as int;
    lemma_fmul_of_mod(w - u, h);
    lemma_mod_add_left((w - u) * h, u);
    assert(fadd(0, fmul(u, h) as int) == (u * h) % p) by {
        vstd::arithmetic::div_mod::lemma_mod_twice(u * h, p);
    }
    lemma_fadd_of_mods(u * h, w * h);
    vstd::arithmetic::div_mod::lemma_mod_twice(w * h, p);
    assert(u + (w - u) * h == p * (-u) + (u * h + w * h));
    vstd::arithmetic::div_mod::lemma_mod_multiples_vanish(-u, u * h + w * h, p);
}

/// The point `u + z v`.
pub open spec fn line(u: Seq<Seq<nat>>, v: Seq<Seq<nat>>, z: Seq<nat>) -> Seq<Seq<nat>> {
    Seq::new(u.len(), |j: int| ext_add(u[j], ext_mul(z, v[j])))
}

/// The values of the lists at `x`: the restriction to `0` of their first
/// variable, at hypercube point `x` of the others.
pub open spec fn low_point(ms: Seq<Seq<Seq<nat>>>, x: int) -> Seq<Seq<nat>> {
    Seq::new(ms.len(), |j: int| ms[j][x])
}

/// The differences between the restrictions to `1` and to `0` of the first
/// variable, at hypercube point `x` of the others.
pub open spec fn slope_point(ms: Seq<Seq<Seq<nat>>>, x: int) -> Seq<Seq<nat>> {
    Seq::new(ms.len(), |j: int| ext_sub(ms[j][x + ms[j].len() / 2], ms[j][x]))
}

/// Each list folded by the selectors of `{0, 1}` at the extension point `z`.
pub open spec fn fold_all_ext(ms: Seq<Seq<Seq<nat>>>, z: Seq<nat>) -> Seq<Seq<Seq<nat>>> {
    Seq::new(ms.len(), |j: int| fold_ext(ms[j], ext_selectors(2, z)))
}

/// The lists are lists of extension elements of one even length.
pub open spec fn lists_ok(ms: Seq<Seq<Seq<nat>>>) -> bool {
    &&& ms.len() >= 1
    &&& ms[0].len() >= 2
    &&& ms[0].len() % 2 == 0
    &&& forall|j: int| 0 <= j < ms.len() ==> #[trigger] ms[j].len() == ms[0].len()
    &&& forall|j: int, i: int| 0 <= j < ms.len() && 0 <= i < ms[j].len() ==> #[trigger] is_ext(ms[j][i])
}

proof fn lemma_fold_two_coords(a: Seq<nat>, za: Seq<nat>, zc: Seq<nat>)
    requires
        is_ext(a),
    ensures
        ext_add(ext_add(ext_zero(), ext_sub(a, za)), zc) == ext_add(a, ext_sub(zc, za)),
{
    assert forall|k: int| 0 <= k < 8 implies #[trigger] ext_add(ext_add(ext_zero(), ext_sub(a, za)), zc)[k] == ext_add(
        a,
        ext_sub(zc, za),
    )[k] by {
        lemma_coord_a(a[k] as int, za[k] as int, zc[k] as int);
    }
    assert(ext_add(ext_add(ext_zero(), ext_sub(a, za)), zc) =~= ext_add(a, ext_sub(zc, za)));
}

/// One list folded by `1 - z` and `z` takes at `x` the value `a + z (c - a)`.
proof fn lemma_fold_two(m: Seq<Seq<nat>>, z: Seq<nat>, x: int)
    requires
        m.len() >= 2,
        m.len() % 2 == 0,
        0 <= x < m.len() / 2,
        is_ext(m[x]),
        is_ext(z),
    ensures
        fold_ext(m, seq![ext_sub(ext_one(), z), z])[x] == ext_add(m[x], ext_mul(z, ext_sub(m[x + m.len() / 2], m[x]))),
{
    let one = ext_one();
    let om = ext_sub(one, z);
    let n = m.len() / 2;
    let a = m[x];
    let c = m[x + n];
    reveal_with_fuel(fold_ext_at, 3);
    lemma_ext_mul_commutative(om, a);
    lemma_ext_mul_distributes(a, one, z);
    lemma_ext_mul_one_zero(a);
    lemma_ext_mul_commutative(a, z);
    lemma_ext_mul_distributes(z, c, a);
    let sel = seq![om, z];
    assert(fold_ext(m, sel)[x] == fold_ext_at(m, sel, n as int, x, 2));
    assert(fold_ext_at(m, sel, n as int, x, 0) == ext_zero());
    assert(x + 0 * n == x);
    assert(x + 1 * n == x + n);
    assert(fold_ext_at(m, sel, n as int, x, 1) == ext_add(ext_zero(), ext_mul(om, a)));
    assert(fold_ext_at(m, sel, n as int, x, 2) == ext_add(ext_add(ext_zero(), ext_mul(om, a)), ext_mul(z, c)));
    lemma_fold_two_coords(a, ext_mul(z, a), ext_mul(z, c));
}

/// Folded at `z`, the lists take at `x` the values `u + z v`, with `u` their
/// values at `0` and `v` the slope.
proof fn lemma_fold_ext_is_line(ms: Seq<Seq<Seq<nat>>>, z: Seq<nat>, x: int)
    requires
        lists_ok(ms),
        is_ext(z),
        0 <= x < ms[0].len() / 2,
    ensures
        hypercube_point_at(fold_all_ext(ms, z), x) == line(low_point(ms, x), slope_point(ms, x), z),
{
    lemma_two_selectors(z);
    assert forall|j: int| 0 <= j < ms.len() implies #[trigger] hypercube_point_at(fold_all_ext(ms, z), x)[j] == line(
        low_point(ms, x),
        slope_point(ms, x),
        z,
    )[j] by {
        assert(ms[j].len() == ms[0].len());
        assert(is_ext(ms[j][x]));
        lemma_fold_two(ms[j], z, x);
    }
    assert(hypercube_point_at(fold_all_ext(ms, z), x) =~= line(low_point(ms, x), slope_point(ms, x), z));
}

proof fn lemma_fold_base_two(m: Seq<Seq<nat>>, x: int)
    requires
        m.len() >= 2,
        m.len() % 2 == 0,
        0 <= x < m.len() / 2,
        is_ext(m[x]),
    ensures
        fold_small(m, base_selectors(2, 0))[x] == ext_add(m[x], ext_mul(ext_zero(), ext_sub(m[x + m.len() / 2], m[x]))),
        fold_small(m, base_selectors(2, HALF as int))[x] == ext_add(
            m[x],
            ext_mul(half_ext(), ext_sub(m[x + m.len() / 2], m[x])),
        ),
{
    let n = m.len() / 2;
    let a = m[x];
    let c = m[x + n];
    let h = HALF as nat;
    lemma_grid_selectors();
    lemma_half_selectors();
    reveal_with_fuel(fold_small_at, 3);
    assert(x + 0 * n == x);
    assert(x + 1 * n == x + n);
    let s0 = base_selectors(2, 0);
    let sh = base_selectors(2, HALF as int);
    assert(fold_small_at(m, s0, n as int, x, 2) == ext_add(ext_add(ext_zero(), ext_scale(a, 1)), ext_scale(c, 0)));
    assert(fold_small_at(m, sh, n as int, x, 2) == ext_add(ext_add(ext_zero(), ext_scale(a, h)), ext_scale(c, h)));
    lemma_ext_scale_zero_one(a);
    assert(ext_scale(c, 0) =~= ext_zero());
    lemma_ext_add_zero(a);
    lemma_ext_mul_zero_left(ext_sub(c, a));
    assert(fmul(1, HALF as int) == HALF);
    lemma_base_times(h, ext_sub(c, a));
    assert forall|k: int| 0 <= k < 8 implies #[trigger] ext_add(a, ext_scale(ext_sub(c, a), h))[k] == ext_add(
        ext_add(ext_zero(), ext_scale(a, h)),
        ext_scale(c, h),
    )[k] by {
        lemma_coord_half(a[k] as int, c[k] as int);
    }
    assert(ext_add(a, ext_scale(ext_sub(c, a), h)) =~= ext_add(ext_add(ext_zero(), ext_scale(a, h)), ext_scale(c, h)));
}

/// Folded by the base selectors at `0` and at `1/2`, the lists take at `x`
/// the values `u + 0 v` and `u + v / 2`.
proof fn lemma_fold_base_is_line(ms: Seq<Seq<Seq<nat>>>, x: int)
    requires
        lists_ok(ms),
        0 <= x < ms[0].len() / 2,
    ensures
        hypercube_point_at(fold_all(ms, base_selectors(2, 0)), x) == line(low_point(ms, x), slope_point(ms, x), ext_zero()),
        hypercube_point_at(fold_all(ms, base_selectors(2, HALF as int)), x) == line(
            low_point(ms, x),
            slope_point(ms, x),
            half_ext(),
        ),
{
    assert forall|j: int| 0 <= j < ms.len() implies #[trigger] hypercube_point_at(fold_all(ms, base_selectors(2, 0)), x)[j]
        == line(low_point(ms, x), slope_point(ms, x), ext_zero())[j] by {
        assert(ms[j].len() == ms[0].len());
        assert(is_ext(ms[j][x]));
        lemma_fold_base_two(ms[j], x);
    }
    assert forall|j: int| 0 <= j < ms.len() implies #[trigger] hypercube_point_at(
        fold_all(ms, base_selectors(2, HALF as int)),
        x,
    )[j] == line(low_point(ms, x), slope_point(ms, x), half_ext())[j] by {
        assert(ms[j].len() == ms[0].len());
        assert(is_ext(ms[j][x]));
        lemma_fold_base_two(ms[j], x);
    }
    assert(hypercube_point_at(fold_all(ms, base_selectors(2, 0)), x) =~= line(
        low_point(ms, x),
        slope_point(ms, x),
        ext_zero(),
    ));
    assert(hypercube_point_at(fold_all(ms, base_selectors(2, HALF as int)), x) =~= line(
        low_point(ms, x),
        slope_point(ms, x),
        half_ext(),
    ));
}

/// `poly2(a, b, d, z) * e == poly2(a e, b e, d e, z)`.
proof fn lemma_poly2_times(a: Seq<nat>, b: Seq<nat>, d: Seq<nat>, z: Seq<nat>, e: Seq<nat>)
    ensures
        ext_mul(poly2(a, b, d, z), e) == poly2(ext_mul(a, e), ext_mul(b, e), ext_mul(d, e), z),
{
    let zz = ext_mul(z, z);
    lemma_right_distributes(ext_add(a, ext_mul(b, z)), ext_mul(d, zz), e);
    lemma_right_distributes(a, ext_mul(b, z), e);
    lemma_ext_mul_associative(b, z, e);
    lemma_ext_mul_commutative(z, e);
    lemma_ext_mul_associative(b, e, z);
    lemma_ext_mul_associative(d, zz, e);
    lemma_ext_mul_commutative(zz, e);
    lemma_ext_mul_associative(d, e, zz);
}

/// `poly2(a, b, d, z) + poly2(a', b', d', z) == poly2(a + a', b + b', d + d', z)`.
proof fn lemma_poly2_add(a: Seq<nat>, b: Seq<nat>, d: Seq<nat>, a2: Seq<nat>, b2: Seq<nat>, d2: Seq<nat>, z: Seq<nat>)
    ensures
        ext_add(poly2(a, b, d, z), poly2(a2, b2, d2, z)) == poly2(ext_add(a, a2), ext_add(b, b2), ext_add(d, d2), z),
{
    let zz = ext_mul(z, z);
    lemma_right_distributes(b, b2, z);
    lemma_right_distributes(d, d2, zz);
    let (x0, x1, x2, y0, y1, y2) = (a, ext_mul(b, z), ext_mul(d, zz), a2, ext_mul(b2, z), ext_mul(d2, zz));
    assert forall|k: int| 0 <= k < 8 implies #[trigger] ext_add(poly2(a, b, d, z), poly2(a2, b2, d2, z))[k] == poly2(
        ext_add(a, a2),
        ext_add(b, b2),
        ext_add(d, d2),
        z,
    )[k] by {
        lemma_coord_b(x0[k] as int, x1[k] as int, x2[k] as int, y0[k] as int, y1[k] as int, y2[k] as int);
    }
    assert(ext_add(poly2(a, b, d, z), poly2(a2, b2, d2, z)) =~= poly2(ext_add(a, a2), ext_add(b, b2), ext_add(d, d2), z));
}

/// A weighted sum of quadratics in `z` is the quadratic of the weighted sums
/// of their coefficients.
proof fn lemma_weighted_sum_poly2(
    vals: Seq<Seq<nat>>,
    a: Seq<Seq<nat>>,
    b: Seq<Seq<nat>>,
    d: Seq<Seq<nat>>,
    eq: Option<Seq<Seq<nat>>>,
    z: Seq<nat>,
    k: int,
)
    requires
        0 <= k,
        forall|x: int| 0 <= x < k ==> #[trigger] vals[x] == poly2(a[x], b[x], d[x], z),
    ensures
        weighted_sum(vals, eq, k) == poly2(weighted_sum(a, eq, k), weighted_sum(b, eq, k), weighted_sum(d, eq, k), z),
    decreases k,
{
    if k == 0 {
        lemma_ext_mul_zero_left(z);
        lemma_ext_mul_zero_left(ext_mul(z, z));
        assert(ext_add(ext_zero(), ext_zero()) =~= ext_zero());
    } else {
        lemma_weighted_sum_poly2(vals, a, b, d, eq, z, k - 1);
        let x = k - 1;
        match opt_at(eq, x) {
            Some(e) => {
                lemma_poly2_times(a[x], b[x], d[x], z, e);
            },
            None => {},
        }
        lemma_poly2_add(
            weighted_sum(a, eq, k - 1),
            weighted_sum(b, eq, k - 1),
            weighted_sum(d, eq, k - 1),
            with_factor(a[x], opt_at(eq, x)),
            with_factor(b[x], opt_at(eq, x)),
            with_factor(d[x], opt_at(eq, x)),
            z,
        );
    }
}

/// Every value of the point is an extension element.
pub open spec fn point_is_ext(u: Seq<Seq<nat>>) -> bool {
    forall|j: int| 0 <= j < u.len() ==> #[trigger] is_ext(u[j])
}

/// Along every line `u + z v` the computation is a polynomial of degree at
/// most two in `z`, whose leading coefficient is its value at `v` (as for a
/// product of two multilinears).
pub open spec fn quadratic_on_lines<C: SumcheckComputation>(computation: &C, batching_scalars: Seq<Seq<nat>>) -> bool {
    forall|u: Seq<Seq<nat>>, v: Seq<Seq<nat>>, z: Seq<nat>|
        point_is_ext(u) && point_is_ext(v) && is_ext(z) && u.len() == v.len() ==> #[trigger] computation.spec_eval(
            line(u, v, z),
            batching_scalars,
        ) == poly2(
            computation.spec_eval(line(u, v, ext_zero()), batching_scalars),
            ext_sub(
                ext_sub(
                    computation.spec_eval(line(u, v, ext_one()), batching_scalars),
                    computation.spec_eval(line(u, v, ext_zero()), batching_scalars),
                ),
                computation.spec_eval(v, batching_scalars),
            ),
            computation.spec_eval(v, batching_scalars),
            z,
        )
}

/// The constant, linear and leading coefficients of the computation along
/// the line through the lists' values at `x`.
pub open spec fn line_coefficients<C: SumcheckComputation>(
    computation: &C,
    ms: Seq<Seq<Seq<nat>>>,
    batching_scalars: Seq<Seq<nat>>,
    x: int,
) -> (Seq<nat>, Seq<nat>, Seq<nat>) {
    let u = low_point(ms, x);
    let v = slope_point(ms, x);
    let a = computation.spec_eval(line(u, v, ext_zero()), batching_scalars);
    let d = computation.spec_eval(v, batching_scalars);
    let b = ext_sub(ext_sub(computation.spec_eval(line(u, v, ext_one()), batching_scalars), a), d);
    (a, b, d)
}

/// The round polynomial of a classic round as a quadratic: the weighted sums
/// over the hypercube of the coefficients along each line.
pub open spec fn round_quadratic<C: SumcheckComputation>(
    computation: &C,
    ms: Seq<Seq<Seq<nat>>>,
    batching_scalars: Seq<Seq<nat>>,
    eq: Option<Seq<Seq<nat>>>,
    z: Seq<nat>,
) -> Seq<nat> {
    let n = ms[0].len() / 2;
    poly2(
        weighted_sum(Seq::new(n, |x: int| line_coefficients(computation, ms, batching_scalars, x).0), eq, n as int),
        weighted_sum(Seq::new(n, |x: int| line_coefficients(computation, ms, batching_scalars, x).1), eq, n as int),
        weighted_sum(Seq::new(n, |x: int| line_coefficients(computation, ms, batching_scalars, x).2), eq, n as int),
        z,
    )
}

proof fn lemma_line_points_ext(ms: Seq<Seq<Seq<nat>>>, x: int)
    requires
        lists_ok(ms),
        0 <= x < ms[0].len() / 2,
    ensures
        point_is_ext(low_point(ms, x)),
        point_is_ext(slope_point(ms, x)),
        low_point(ms, x).len() == slope_point(ms, x).len(),
{
    assert forall|j: int| 0 <= j < ms.len() implies #[trigger] is_ext(low_point(ms, x)[j]) && is_ext(slope_point(ms, x)[j]) by {
        assert(ms[j].len() == ms[0].len());
        assert(is_ext(ms[j][x]));
    }
}

/// Summed over the hypercube, the computation on points of the lines is the
/// round quadratic.
proof fn lemma_sum_on_lines<C: SumcheckComputation>(
    computation: &C,
    pols: Seq<Seq<Seq<nat>>>,
    ms: Seq<Seq<Seq<nat>>>,
    batching_scalars: Seq<Seq<nat>>,
    eq: Option<Seq<Seq<nat>>>,
    z: Seq<nat>,
)
    requires
        lists_ok(ms),
        is_ext(z),
        quadratic_on_lines(computation, batching_scalars),
        pols[0].len() == ms[0].len() / 2,
        forall|x: int| 0 <= x < ms[0].len() / 2 ==> #[trigger] hypercube_point_at(pols, x) == line(
            low_point(ms, x),
            slope_point(ms, x),
            z,
        ),
    ensures
        hypercube_sum(computation, pols, batching_scalars, eq) == round_quadratic(computation, ms, batching_scalars, eq, z),
{
    let n = ms[0].len() / 2;
    let vals = Seq::new(n, |x: int| computation.spec_eval(hypercube_point_at(pols, x), batching_scalars));
    let ca = Seq::new(n, |x: int| line_coefficients(computation, ms, batching_scalars, x).0);
    let cb = Seq::new(n, |x: int| line_coefficients(computation, ms, batching_scalars, x).1);
    let cd = Seq::new(n, |x: int| line_coefficients(computation, ms, batching_scalars, x).2);
    assert forall|x: int| 0 <= x < n implies #[trigger] vals[x] == poly2(ca[x], cb[x], cd[x], z) by {
        lemma_line_points_ext(ms, x);
        let u = low_point(ms, x);
        let v = slope_point(ms, x);
        assert(hypercube_point_at(pols, x) == line(u, v, z));
        assert(computation.spec_eval(line(u, v, z), batching_scalars) == poly2(ca[x], cb[x], cd[x], z));
    }
    lemma_weighted_sum_poly2(vals, ca, cb, cd, eq, z, n as int);
}

proof fn lemma_add_is_ext(a: Seq<nat>, b: Seq<nat>)
    ensures
        is_ext(ext_add(a, b)),
        is_ext(ext_sub(a, b)),
{
}

proof fn lemma_weighted_sum_is_ext(values: Seq<Seq<nat>>, eq: Option<Seq<Seq<nat>>>, k: int)
    ensures
        is_ext(weighted_sum(values, eq, k)),
    decreases k,
{
    if k > 0 {
        lemma_add_is_ext(weighted_sum(values, eq, k - 1), with_factor(values[k - 1], opt_at(eq, k - 1)));
    }
}

/// A quadratic times `f` is the quadratic with coefficients times `f`.
proof fn lemma_round_quadratic_factor<C: SumcheckComputation>(
    computation: &C,
    ms: Seq<Seq<Seq<nat>>>,
    batching_scalars: Seq<Seq<nat>>,
    eq: Option<Seq<Seq<nat>>>,
    factor: Option<Seq<nat>>,
    z: Seq<nat>,
)
    ensures
        ({
            let n = ms[0].len() / 2;
            let wa = weighted_sum(Seq::new(n, |x: int| line_coefficients(computation, ms, batching_scalars, x).0), eq, n as int);
            let wb = weighted_sum(Seq::new(n, |x: int| line_coefficients(computation, ms, batching_scalars, x).1), eq, n as int);
            let wd = weighted_sum(Seq::new(n, |x: int| line_coefficients(computation, ms, batching_scalars, x).2), eq, n as int);
            &&& with_factor(round_quadratic(computation, ms, batching_scalars, eq, z), factor) == poly2(
                with_factor(wa, factor),
                with_factor(wb, factor),
                with_factor(wd, factor),
                z,
            )
            &&& is_ext(with_factor(wa, factor))
            &&& is_ext(with_factor(wb, factor))
            &&& is_ext(with_factor(wd, factor))
        }),
{
    let n = ms[0].len() / 2;
    let wa = weighted_sum(Seq::new(n, |x: int| line_coefficients(computation, ms, batching_scalars, x).0), eq, n as int);
    let wb = weighted_sum(Seq::new(n, |x: int| line_coefficients(computation, ms, batching_scalars, x).1), eq, n as int);
    let wd = weighted_sum(Seq::new(n, |x: int| line_coefficients(computation, ms, batching_scalars, x).2), eq, n as int);
    lemma_weighted_sum_is_ext(Seq::new(n, |x: int| line_coefficients(computation, ms, batching_scalars, x).0), eq, n as int);
    lemma_weighted_sum_is_ext(Seq::new(n, |x: int| line_coefficients(computation, ms, batching_scalars, x).1), eq, n as int);
    lemma_weighted_sum_is_ext(Seq::new(n, |x: int| line_coefficients(computation, ms, batching_scalars, x).2), eq, n as int);
    if let Some(f) = factor {
        lemma_poly2_times(wa, wb, wd, z, f);
        lemma_mul_is_ext(wa, f);
        lemma_mul_is_ext(wb, f);
        lemma_mul_is_ext(wd, f);
    }
}

/// What remains of the claim after `h(0)`: `f (q0 + q1) - f q0 == f q1`.
proof fn lemma_claim_minus_h0(q0: Seq<nat>, q1: Seq<nat>, factor: Option<Seq<nat>>)
    requires
        is_ext(q1),
    ensures
        ext_sub(with_factor(ext_add(q0, q1), factor), with_factor(q0, factor)) == with_factor(q1, factor),
{
    let (a, b) = (with_factor(q0, factor), with_factor(q1, factor));
    if let Some(f) = factor {
        lemma_right_distributes(q0, q1, f);
        lemma_mul_is_ext(q1, f);
    }
    assert forall|k: int| 0 <= k < 8 implies #[trigger] ext_sub(ext_add(a, b), a)[k] == b[k] by {
        lemma_coord_c(a[k] as int, b[k] as int);
    }
    assert(ext_sub(ext_add(a, b), a) =~= b);
}

/// A classic round keeps the sumcheck's claim: when the claimed sum is the
/// round polynomial's `q(0) + q(1)` (times the missing factor), the claim
/// for the next round, the quadratic through `(0, h0)`, `(1, h1)`,
/// `(1/2, h_half)` at the challenge `c`, is the weighted sum over the
/// hypercube of the computation on the multilinears folded at `c`, times the
/// missing factor. This holds for a computation that is a quadratic form:
/// degree two along lines and scaling by `t^2` (as the product of two
/// multilinears does).
pub proof fn lemma_classic_round_keeps_claim<C: SumcheckComputation>(
    computation: &C,
    ms: Seq<Seq<Seq<nat>>>,
    batching_scalars: Seq<Seq<nat>>,
    eq: Option<Seq<Seq<nat>>>,
    factor: Option<Seq<nat>>,
    sum: Seq<nat>,
    c: Seq<nat>,
)
    requires
        lists_ok(ms),
        is_ext(c),
        is_quadratic(computation, batching_scalars),
        quadratic_on_lines(computation, batching_scalars),
        sum == with_factor(
            ext_add(
                hypercube_sum(computation, fold_all_ext(ms, ext_zero()), batching_scalars, eq),
                hypercube_sum(computation, fold_all_ext(ms, ext_one()), batching_scalars, eq),
            ),
            factor,
        ),
    ensures
        ({
            let s0 = hypercube_sum(computation, fold_all(ms, base_selectors(2, 0)), batching_scalars, eq);
            let s_half = hypercube_sum(
                computation,
                sum_all(fold_all(ms, base_selectors(2, 0)), fold_all(ms, base_selectors(2, 1))),
                batching_scalars,
                eq,
            );
            quadratic_at(
                with_factor(s0, factor),
                ext_sub(sum, with_factor(s0, factor)),
                with_factor(ext_mul(s_half, quarter()), factor),
                c,
            ) == with_factor(hypercube_sum(computation, fold_all_ext(ms, c), batching_scalars, eq), factor)
        }),
{
    let n = ms[0].len() / 2;
    let q = |z: Seq<nat>| round_quadratic(computation, ms, batching_scalars, eq, z);
    lemma_grid_selectors();
    lemma_half_selectors();
    // The sums at the grid points, at 1/2 and at c are the round quadratic there.
    assert forall|z: Seq<nat>| is_ext(z) implies #[trigger] hypercube_sum(computation, fold_all_ext(ms, z), batching_scalars, eq)
        == q(z) by {
        lemma_two_selectors(z);
        assert(fold_all_ext(ms, z)[0].len() == n);
        assert forall|x: int| 0 <= x < n implies #[trigger] hypercube_point_at(fold_all_ext(ms, z), x) == line(
            low_point(ms, x),
            slope_point(ms, x),
            z,
        ) by {
            lemma_fold_ext_is_line(ms, z, x);
        }
        lemma_sum_on_lines(computation, fold_all_ext(ms, z), ms, batching_scalars, eq, z);
    }
    let base0 = fold_all(ms, base_selectors(2, 0));
    let basehalf = fold_all(ms, base_selectors(2, HALF as int));
    assert(base0[0].len() == n);
    assert(basehalf[0].len() == n);
    assert forall|x: int| 0 <= x < n implies #[trigger] hypercube_point_at(base0, x) == line(
        low_point(ms, x),
        slope_point(ms, x),
        ext_zero(),
    ) by {
        lemma_fold_base_is_line(ms, x);
    }
    assert forall|x: int| 0 <= x < n implies #[trigger] hypercube_point_at(basehalf, x) == line(
        low_point(ms, x),
        slope_point(ms, x),
        half_ext(),
    ) by {
        lemma_fold_base_is_line(ms, x);
    }
    lemma_sum_on_lines(computation, base0, ms, batching_scalars, eq, ext_zero());
    lemma_sum_on_lines(computation, basehalf, ms, batching_scalars, eq, half_ext());
    lemma_classic_half_value(computation, ms, batching_scalars, eq);
    assert(is_ext(ext_zero()) && is_ext(ext_one()) && is_ext(half_ext()));
    let q0 = q(ext_zero());
    let q1 = q(ext_one());
    assert(hypercube_sum(computation, fold_all_ext(ms, ext_zero()), batching_scalars, eq) == q0);
    assert(hypercube_sum(computation, fold_all_ext(ms, ext_one()), batching_scalars, eq) == q1);
    assert(hypercube_sum(computation, fold_all_ext(ms, c), batching_scalars, eq) == q(c));
    lemma_add_is_ext(ext_add(weighted_sum(Seq::new(n, |x: int| line_coefficients(computation, ms, batching_scalars, x).0), eq, n as int), ext_mul(weighted_sum(Seq::new(n, |x: int| line_coefficients(computation, ms, batching_scalars, x).1), eq, n as int), ext_one())), ext_mul(weighted_sum(Seq::new(n, |x: int| line_coefficients(computation, ms, batching_scalars, x).2), eq, n as int), ext_mul(ext_one(), ext_one())));
    lemma_claim_minus_h0(q0, q1, factor);
    lemma_round_quadratic_factor(computation, ms, batching_scalars, eq, factor, ext_zero());
    lemma_round_quadratic_factor(computation, ms, batching_scalars, eq, factor, ext_one());
    lemma_round_quadratic_factor(computation, ms, batching_scalars, eq, factor, half_ext());
    lemma_round_quadratic_factor(computation, ms, batching_scalars, eq, factor, c);
    let wa = weighted_sum(Seq::new(n, |x: int| line_coefficients(computation, ms, batching_scalars, x).0), eq, n as int);
    let wb = weighted_sum(Seq::new(n, |x: int| line_coefficients(computation, ms, batching_scalars, x).1), eq, n as int);
    let wd = weighted_sum(Seq::new(n, |x: int| line_coefficients(computation, ms, batching_scalars, x).2), eq, n as int);
    lemma_quadratic_determined(with_factor(wa, factor), with_factor(wb, factor), with_factor(wd, factor), c);
}

proof fn lemma_coord_assoc(a: int, b: int, c: int)
    ensures
        fadd(fadd(a, b) as int, c) == fadd(a, fadd(b, c) as int),
{
    lemma_fadd3(a, b, c);
    lemma_mod_add_left(b + c, a);
    assert(a + (b + c) == a + b + c);
}

proof fn lemma_coord_sub2(a: int, b: int, d: int)
    requires
        0 <= b < P,
    ensures
        fsub(fsub(fadd(fadd(a, b) as int, d) as int, a) as int, d) == b,
{
    let p = P as int;
    lemma_fadd3(a, b, d);
    lemma_mod_sub_left(a + b + d, a);
    lemma_mod_sub_left(a + b + d - a, d);
    vstd::arithmetic::div_mod::lemma_small_mod(b as nat, p as nat);
}

/// `(u0 + z v0)(u1 + z v1) == u0 u1 + (u0 v1 + v0 u1) z + v0 v1 z^2`.
proof fn lemma_product_of_lines(u0: Seq<nat>, u1: Seq<nat>, v0: Seq<nat>, v1: Seq<nat>, z: Seq<nat>)
    ensures
        ext_mul(ext_add(u0, ext_mul(z, v0)), ext_add(u1, ext_mul(z, v1))) == poly2(
            ext_mul(u0, u1),
            ext_add(ext_mul(u0, v1), ext_mul(v0, u1)),
            ext_mul(v0, v1),
            z,
        ),
{
    let (a, b) = (ext_add(u0, ext_mul(z, v0)), ext_add(u1, ext_mul(z, v1)));
    let zz = ext_mul(z, z);
    lemma_right_distributes(u0, ext_mul(z, v0), b);
    lemma_ext_mul_distributes(u0, u1, ext_mul(z, v1));
    lemma_ext_mul_distributes(ext_mul(z, v0), u1, ext_mul(z, v1));
    // u0 (z v1) = (u0 v1) z
    lemma_ext_mul_associative(u0, z, v1);
    lemma_ext_mul_commutative(u0, z);
    lemma_ext_mul_associative(z, u0, v1);
    lemma_ext_mul_commutative(z, ext_mul(u0, v1));
    // (z v0) u1 = (v0 u1) z
    lemma_ext_mul_associative(z, v0, u1);
    lemma_ext_mul_commutative(z, ext_mul(v0, u1));
    // (z v0)(z v1) = (v0 v1) z^2
    lemma_ext_mul_associative(ext_mul(z, v0), z, v1);
    lemma_ext_mul_associative(z, v0, z);
    lemma_ext_mul_commutative(v0, z);
    lemma_ext_mul_associative(z, z, v0);
    lemma_ext_mul_associative(zz, v0, v1);
    lemma_ext_mul_commutative(zz, ext_mul(v0, v1));
    lemma_right_distributes(ext_mul(u0, v1), ext_mul(v0, u1), z);
    let (x0, x1, x2, x3) = (ext_mul(u0, u1), ext_mul(ext_mul(u0, v1), z), ext_mul(ext_mul(v0, u1), z), ext_mul(
        ext_mul(v0, v1),
        zz,
    ));
    assert forall|k: int| 0 <= k < 8 implies #[trigger] ext_add(ext_add(x0, x1), ext_add(x2, x3))[k] == ext_add(
        ext_add(x0, ext_add(x1, x2)),
        x3,
    )[k] by {
        lemma_coord_assoc(x0[k] as int, x1[k] as int, x2[k] as int);
        lemma_coord_assoc(fadd(x0[k] as int, x1[k] as int) as int, x2[k] as int, x3[k] as int);
    }
    assert(ext_add(ext_add(x0, x1), ext_add(x2, x3)) =~= ext_add(ext_add(x0, ext_add(x1, x2)), x3));
}

/// The product of two multilinears is of degree two along lines.
pub proof fn lemma_product_on_lines(batching_scalars: Seq<Seq<nat>>)
    ensures
        quadratic_on_lines(&ProductComputation, batching_scalars),
{
    let sc = batching_scalars;
    assert forall|u: Seq<Seq<nat>>, v: Seq<Seq<nat>>, z: Seq<nat>|
        point_is_ext(u) && point_is_ext(v) && is_ext(z) && u.len() == v.len() implies #[trigger] ProductComputation.spec_eval(
        line(u, v, z),
        sc,
    ) == poly2(
        ProductComputation.spec_eval(line(u, v, ext_zero()), sc),
        ext_sub(
            ext_sub(
                ProductComputation.spec_eval(line(u, v, ext_one()), sc),
                ProductComputation.spec_eval(line(u, v, ext_zero()), sc),
            ),
            ProductComputation.spec_eval(v, sc),
        ),
        ProductComputation.spec_eval(v, sc),
        z,
    ) by {
        lemma_product_line(u, v, z, sc);
    }
}

proof fn lemma_product_line(u: Seq<Seq<nat>>, v: Seq<Seq<nat>>, z: Seq<nat>, sc: Seq<Seq<nat>>)
    requires
        point_is_ext(u),
        point_is_ext(v),
        is_ext(z),
        u.len() == v.len(),
    ensures
        ProductComputation.spec_eval(line(u, v, z), sc) == poly2(
            ProductComputation.spec_eval(line(u, v, ext_zero()), sc),
            ext_sub(
                ext_sub(
                    ProductComputation.spec_eval(line(u, v, ext_one()), sc),
                    ProductComputation.spec_eval(line(u, v, ext_zero()), sc),
                ),
                ProductComputation.spec_eval(v, sc),
            ),
            ProductComputation.spec_eval(v, sc),
            z,
        ),
{
    if u.len() >= 2 && sc.len() >= 1 {
        let (u0, u1, v0, v1, s) = (u[0], u[1], v[0], v[1], sc[0]);
        assert(is_ext(u0) && is_ext(u1) && is_ext(v0) && is_ext(v1));
        let a = ext_mul(ext_mul(u0, u1), s);
        let b = ext_mul(ext_add(ext_mul(u0, v1), ext_mul(v0, u1)), s);
        let d = ext_mul(ext_mul(v0, v1), s);
        assert forall|w: Seq<nat>| is_ext(w) implies #[trigger] ProductComputation.spec_eval(line(u, v, w), sc) == poly2(a, b, d, w) by {
            lemma_product_of_lines(u0, u1, v0, v1, w);
            lemma_poly2_times(ext_mul(u0, u1), ext_add(ext_mul(u0, v1), ext_mul(v0, u1)), ext_mul(v0, v1), w, s);
        }
        assert(is_ext(ext_zero()) && is_ext(ext_one()));
        lemma_mul_is_ext(ext_mul(u0, u1), s);
        lemma_mul_is_ext(ext_add(ext_mul(u0, v1), ext_mul(v0, u1)), s);
        lemma_mul_is_ext(ext_mul(v0, v1), s);
        lemma_poly2_values(a, b, d);
        assert(ProductComputation.spec_eval(v, sc) == d);
        assert forall|k: int| 0 <= k < 8 implies #[trigger] ext_sub(ext_sub(ext_add(ext_add(a, b), d), a), d)[k] == b[k] by {
            lemma_coord_sub2(a[k] as int, b[k] as int, d[k] as int);
        }
        assert(ext_sub(ext_sub(ext_add(ext_add(a, b), d), a), d) =~= b);
    } else {
        lemma_ext_mul_zero_left(z);
        lemma_ext_mul_zero_left(ext_mul(z, z));
        assert(ext_sub(ext_sub(ext_zero(), ext_zero()), ext_zero()) =~= ext_zero());
        assert(ext_add(ext_add(ext_zero(), ext_zero()), ext_zero()) =~= ext_zero());
    }
}

/// With an `eq` point, the claim the prover hands to the next round from a
/// message of grid values is the one the verifier computes from the same
/// values: the polynomial through them at the challenge, times the
/// polynomial through the selectors at the `eq` point; without an `eq`
/// point, the polynomial through the values alone.
pub proof fn lemma_prover_claim_is_verifier_target(msg: RoundMessage, pol: RoundPolynomial, sel: Seq<Seq<nat>>, c: Seq<nat>)
    requires
        msg matches RoundMessage::General { p_evals } && ext_views(p_evals@) == ext_views(pol.p_evals@),
        ext_views(pol.eq_evals@) == sel,
    ensures
        pol.times_eq ==> round_message_value(msg, Some(sel), c) == round_poly_at(pol, c),
        round_message_value(msg, Some(sel), c) == ext_mul(interpolate(ext_views(pol.p_evals@), c), interpolate(sel, c)),
        !pol.times_eq ==> round_message_value(msg, None, c) == round_poly_at(pol, c),
        round_message_value(msg, None, c) == interpolate(ext_views(pol.p_evals@), c),
{
}

proof fn lemma_ext_dot_is_ext(a: Seq<Seq<nat>>, b: Seq<Seq<nat>>, k: int)
    ensures
        is_ext(ext_dot(a, b, k)),
    decreases k,
{
    if k > 0 {
        lemma_ext_dot_is_ext(a, b, k - 1);
        lemma_add_is_ext(ext_dot(a, b, k - 1), ext_mul(a[k - 1], b[k - 1]));
    }
}

/// The missing factor is carried from round to round: after a round with an
/// `eq` point `e` and challenge `c`, it is the factor received (one if none)
/// times `sum_i S_i(e) S_i(c)`, the factor the round would pass on if it
/// had received none. Without an `eq` point it passes on unchanged.
pub proof fn lemma_missing_factor_carried(sel: Seq<Seq<nat>>, k: nat, c: Seq<nat>, f: Seq<nat>)
    ensures
        next_missing_factor(Some(sel), k, c, Some(f)) == Some(ext_mul(ext_dot(sel, ext_selectors(k, c), k as int), f)),
        next_missing_factor(Some(sel), k, c, None) == Some(ext_dot(sel, ext_selectors(k, c), k as int)),
        next_missing_factor(Some(sel), k, c, Some(f)) == Some(ext_mul(next_missing_factor(Some(sel), k, c, None)->0, f)),
        next_missing_factor(None, k, c, Some(f)) == Some(f),
{
    lemma_ext_dot_is_ext(sel, ext_selectors(k, c), k as int);
    lemma_ext_mul_one_zero(ext_dot(sel, ext_selectors(k, c), k as int));
}

/// In a round over one variable, the factor a round with `eq` point `e`
/// and challenge `c` multiplies in is `eq(e, c) = (1 - e)(1 - c) + e c`.
pub proof fn lemma_missing_factor_is_eq(e: Seq<nat>, c: Seq<nat>)
    requires
        is_ext(e),
        is_ext(c),
    ensures
        next_missing_factor(Some(ext_selectors(2, e)), 2, c, None) == Some(
            ext_add(ext_mul(ext_sub(ext_one(), e), ext_sub(ext_one(), c)), ext_mul(e, c)),
        ),
{
    lemma_two_selectors(e);
    lemma_two_selectors(c);
    let x = ext_mul(ext_sub(ext_one(), e), ext_sub(ext_one(), c));
    let y = ext_mul(e, c);
    lemma_mul_is_ext(ext_sub(ext_one(), e), ext_sub(ext_one(), c));
    lemma_ext_add_zero(x);
    let se = ext_selectors(2, e);
    let sc = ext_selectors(2, c);
    assert(se[0] == ext_sub(ext_one(), e) && se[1] == e);
    assert(sc[0] == ext_sub(ext_one(), c) && sc[1] == c);
    assert(ext_dot(se, sc, 0) == ext_zero());
    assert(ext_dot(se, sc, 1) == ext_add(ext_zero(), x));
    assert(ext_dot(se, sc, 2) == ext_add(ext_dot(se, sc, 1), y));
    lemma_add_is_ext(x, y);
    lemma_ext_mul_one_zero(ext_add(x, y));
}

} // verus!
