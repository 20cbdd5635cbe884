//! The decisions of the sumcheck verifier.
//!
//! Each round the prover sends evaluations of the round polynomial on the
//! grid `{0, 1, ..., n - 1}`; the verifier checks that its sum over the
//! summation set matches the value claimed in the previous round, and then
//! evaluates it at the round's challenge. Reading the proof, sampling the
//! challenges and checking the proof of work belong to the transcript; the
//! functions here take what the transcript gave.
use vstd::prelude::*;
use vstd::arithmetic::power2::pow2;
use crate::field::{Fp, P, fp_views, lemma_fp_view_lt};
use crate::extension::{
    Ext, ext_add, ext_from_base, ext_mul, ext_one, ext_views, ext_zero, is_ext, lemma_ext_view_wf,
    lemma_ext_add_zero, lemma_ext_mul_one_zero,
};
use crate::univariate::{
    barycentric_weights_precomputed, evaluate_lagrange_basis_all, lagrange_basis, weights,
    ext_grid, ext_unit, lemma_lagrange_basis_at_grid,
};

verus! {

broadcast use {lemma_fp_view_lt, lemma_ext_view_wf};

/// `sum_{i < k} a[i] * b[i]`.
pub open spec fn ext_dot(a: Seq<Seq<nat>>, b: Seq<Seq<nat>>, k: int) -> Seq<nat>
    decreases k,
{
    if k <= 0 {
        ext_zero()
    } else {
        ext_add(ext_dot(a, b, k - 1), ext_mul(a[k - 1], b[k - 1]))
    }
}

/// The value at `x` of the polynomial of degree below `n` that takes the value
/// `ys[j]` at each grid point `j < n`, where `n` is the length of `ys`:
/// `sum_j ys[j] * L_j(x)`.
pub open spec fn interpolate(ys: Seq<Seq<nat>>, x: Seq<nat>) -> Seq<nat> {
    ext_dot(ys, lagrange_basis(ys.len(), x, weights(ys.len())), ys.len() as int)
}

/// Evaluates at `x` the polynomial that takes the value `values[j]` at each
/// grid point `j`.
pub fn interpolate_at(values: &[Ext], x: Ext) -> (r: Ext)
    requires
        values@.len() <= P,
    ensures
        r@ == interpolate(ext_views(values@), x@),
{
    let n = values.len();
    let w = barycentric_weights_precomputed(n);
    assert(w@.len() == fp_views(w@).len());
    let basis = evaluate_lagrange_basis_all(n, x, w.as_slice());
    let ghost b = lagrange_basis(n as nat, x@, weights(n as nat));
    assert(ext_views(basis@).len() == basis@.len());
    let mut acc = Ext::zero();
    for i in 0..n
        invariant
            n == values@.len(),
            ext_views(basis@) == b,
            b == lagrange_basis(n as nat, x@, weights(n as nat)),
            basis@.len() == n,
            acc@ == ext_dot(ext_views(values@), b, i as int),
    {
        assert(basis@[i as int]@ == b[i as int]);
        acc = acc.add(values[i].mul(basis[i]));
    }
    acc
}

/// Errors of the sumcheck verifier.
#[derive(Debug, Clone, Copy, PartialEq, Eq)]
pub enum SumcheckError {
    /// A round polynomial does not sum to the value claimed before it.
    InvalidRound,
}

/// An evaluation claim: the polynomial takes `value` at `point`.
#[derive(Debug)]
pub struct Evaluation {
    pub point: Vec<Ext>,
    pub value: Ext,
}

/// A round polynomial, given by its evaluations `p_evals` on the grid and,
/// for a zerocheck, multiplied by the polynomial that takes the values
/// `eq_evals` on the grid.
#[derive(Debug)]
pub struct RoundPolynomial {
    pub p_evals: Vec<Ext>,
    pub eq_evals: Vec<Ext>,
    pub times_eq: bool,
}

/// The value at `x` of the polynomial that takes the values `p` on the grid,
/// times, if `times_eq`, the polynomial that takes the values `eq` on the grid.
pub open spec fn round_poly_value(p: Seq<Seq<nat>>, eq: Seq<Seq<nat>>, times_eq: bool, x: Seq<nat>) -> Seq<nat> {
    if times_eq {
        ext_mul(interpolate(p, x), interpolate(eq, x))
    } else {
        interpolate(p, x)
    }
}

/// The value of a round polynomial at `x`.
pub open spec fn round_poly_at(pol: RoundPolynomial, x: Seq<nat>) -> Seq<nat> {
    round_poly_value(ext_views(pol.p_evals@), ext_views(pol.eq_evals@), pol.times_eq, x)
}

/// The sum of a round polynomial over the first `k` points of a set.
pub open spec fn round_poly_sum(pol: RoundPolynomial, set: Seq<Ext>, k: int) -> Seq<nat>
    decreases k,
{
    if k <= 0 {
        ext_zero()
    } else {
        ext_add(round_poly_sum(pol, set, k - 1), round_poly_at(pol, set[k - 1]@))
    }
}

/// A round polynomial may be evaluated: the grids are no larger than `p`.
pub open spec fn round_poly_wf(pol: RoundPolynomial) -> bool {
    pol.p_evals@.len() <= P && pol.eq_evals@.len() <= P
}

/// Evaluates a round polynomial.
pub fn evaluate_round_polynomial(pol: &RoundPolynomial, x: Ext) -> (r: Ext)
    requires
        round_poly_wf(*pol),
    ensures
        r@ == round_poly_at(*pol, x@),
        r@ == (if pol.times_eq {
            ext_mul(interpolate(ext_views(pol.p_evals@), x@), interpolate(ext_views(pol.eq_evals@), x@))
        } else {
            interpolate(ext_views(pol.p_evals@), x@)
        }),
{
    let p = interpolate_at(pol.p_evals.as_slice(), x);
    if pol.times_eq {
        let e = interpolate_at(pol.eq_evals.as_slice(), x);
        p.mul(e)
    } else {
        p
    }
}

/// Sums a round polynomial over a set of points.
pub fn sum_round_polynomial(pol: &RoundPolynomial, set: &[Ext]) -> (r: Ext)
    requires
        round_poly_wf(*pol),
    ensures
        r@ == round_poly_sum(*pol, set@, set@.len() as int),
{
    let mut acc = Ext::zero();
    for k in 0..set.len()
        invariant
            round_poly_wf(*pol),
            acc@ == round_poly_sum(*pol, set@, k as int),
    {
        acc = acc.add(evaluate_round_polynomial(pol, set[k]));
    }
    acc
}

/// The size `2^skips` of the first grid.
pub fn grid_size(skips: usize) -> (r: usize)
    requires
        skips <= 30,
    ensures
        r == pow2(skips as nat),
        r <= P,
{
    let mut r: usize = 1;
    let mut i: usize = 0;
    proof {
        vstd::arithmetic::power2::lemma2_to64();
    }
    while i < skips
        invariant
            i <= skips,
            skips <= 30,
            r == pow2(i as nat),
        decreases skips - i,
    {
        proof {
            vstd::arithmetic::power2::lemma_pow2_unfold((i + 1) as nat);
            vstd::arithmetic::power2::lemma2_to64();
            if i + 1 < 30 {
                vstd::arithmetic::power2::lemma_pow2_strictly_increases((i + 1) as nat, 30);
            }
        }
        r = r * 2;
        i = i + 1;
    }
    proof {
        vstd::arithmetic::power2::lemma2_to64();
        if skips < 30 {
            vstd::arithmetic::power2::lemma_pow2_strictly_increases(skips as nat, 30);
        }
    }
    r
}

/// The number of evaluations the prover sends in a round: `deg + 1`, or for a
/// zerocheck `deg + 2 - 2^skips`, less `2^skips` more in the first round,
/// whose first `2^skips` evaluations are known to be zero.
pub open spec fn round_proof_len(is_zerocheck: bool, first_round: bool, skips: nat, deg: nat) -> int {
    if is_zerocheck {
        if first_round {
            deg + 2 - pow2(skips) - pow2(skips)
        } else {
            deg + 2 - pow2(skips)
        }
    } else {
        deg + 1int
    }
}

/// The state of the verifier between rounds.
#[derive(Debug)]
pub struct VerifierRounds {
    pub is_zerocheck: bool,
    pub skips: usize,
    pub first_round: bool,
    pub sum: Ext,
    pub target: Ext,
    pub round: usize,
    pub challenges: Vec<Ext>,
}

impl VerifierRounds {
    /// The state before the first round.
    pub fn new(is_zerocheck: bool, skips: usize) -> (r: VerifierRounds)
        ensures
            r.is_zerocheck == is_zerocheck,
            r.skips == skips,
            r.first_round,
            r.sum@ == ext_zero(),
            r.target@ == ext_zero(),
            r.round == 0,
            r.challenges@.len() == 0,
    {
        VerifierRounds {
            is_zerocheck,
            skips,
            first_round: true,
            sum: Ext::zero(),
            target: Ext::zero(),
            round: 0,
            challenges: Vec::new(),
        }
    }

    /// How many evaluations to read from the proof for a round of degree
    /// `deg`.
    pub fn proof_len(&self, deg: usize) -> (r: usize)
        requires
            self.skips <= 30,
            round_proof_len(self.is_zerocheck, self.first_round, self.skips as nat, deg as nat) >= 0,
            deg + 2 <= usize::MAX,
        ensures
            r == round_proof_len(self.is_zerocheck, self.first_round, self.skips as nat, deg as nat),
            !self.is_zerocheck ==> r == deg + 1,
            self.is_zerocheck && !self.first_round ==> r == deg + 2 - pow2(self.skips as nat),
            self.is_zerocheck && self.first_round ==> r == deg + 2 - 2 * pow2(self.skips as nat),
    {
        let g = grid_size(self.skips);
        if self.is_zerocheck {
            if self.first_round {
                (deg + 2 - g) - g
            } else {
                deg + 2 - g
            }
        } else {
            deg + 1
        }
    }

    /// The round polynomial of the current round, from the evaluations read
    /// from the proof: for a zerocheck, the first round's polynomial is zero on
    /// the first `2^skips` grid points and is multiplied by the polynomial
    /// that takes on the grid `{0, ..., 2^skips - 1}` the values of its
    /// Lagrange basis at `eq_factor[round]`.
    pub fn round_polynomial(&self, eq_factor: Option<&[Ext]>, proof_data: &[Ext]) -> (r:
        RoundPolynomial)
        requires
            self.skips <= 30,
            (if self.is_zerocheck && self.first_round {
                (proof_data@.len() + pow2(self.skips as nat)) as int
            } else {
                proof_data@.len() as int
            }) <= P,
            self.is_zerocheck ==> (eq_factor matches Some(e) ==> self.round < e@.len()),
        ensures
            round_poly_wf(r),
            r.times_eq == self.is_zerocheck,
            ext_views(r.p_evals@) == (if self.is_zerocheck && self.first_round {
                Seq::new(pow2(self.skips as nat), |i: int| ext_zero()) + ext_views(proof_data@)
            } else {
                ext_views(proof_data@)
            }),
            ext_views(r.eq_evals@) == (if self.is_zerocheck {
                match eq_factor {
                    Some(e) => lagrange_basis(
                        pow2(self.skips as nat),
                        e@[self.round as int]@,
                        weights(pow2(self.skips as nat)),
                    ),
                    None => Seq::empty(),
                }
            } else {
                Seq::empty()
            }),
    {
        let g = grid_size(self.skips);
        let mut p_evals: Vec<Ext> = Vec::new();
        if self.is_zerocheck && self.first_round {
            for i in 0..g
                invariant
                    p_evals@.len() == i,
                    forall|t: int| 0 <= t < i ==> #[trigger] p_evals@[t]@ == ext_zero(),
            {
                p_evals.push(Ext::zero());
            }
        }
        let start = p_evals.len();
        for j in 0..proof_data.len()
            invariant
                p_evals@.len() == start + j,
                forall|t: int| 0 <= t < start ==> #[trigger] p_evals@[t]@ == ext_zero(),
                forall|t: int| 0 <= t < j ==> #[trigger] p_evals@[start + t]@ == proof_data@[t]@,
        {
            p_evals.push(proof_data[j]);
        }
        let mut eq_evals: Vec<Ext> = Vec::new();
        if self.is_zerocheck {
            match eq_factor {
                Some(e) => {
                    let w = barycentric_weights_precomputed(g);
                    assert(w@.len() == fp_views(w@).len());
                    eq_evals = evaluate_lagrange_basis_all(g, e[self.round], w.as_slice());
                },
                None => {},
            }
        }
        assert(start == (if self.is_zerocheck && self.first_round { g } else { 0 }));
        assert forall|k: int| 0 <= k < p_evals@.len() implies #[trigger] p_evals@[k]@ == (if k < start {
            ext_zero()
        } else {
            proof_data@[k - start]@
        }) by {
            if k >= start {
                let t = k - start;
                assert(p_evals@[start + t]@ == proof_data@[t]@);
            }
        }
        let r = RoundPolynomial { p_evals, eq_evals, times_eq: self.is_zerocheck };
        proof {
            if self.is_zerocheck && self.first_round {
                assert(ext_views(r.p_evals@) =~= Seq::new(pow2(self.skips as nat), |i: int| ext_zero())
                    + ext_views(proof_data@));
            } else {
                assert(ext_views(r.p_evals@) =~= ext_views(proof_data@));
            }
            if !self.is_zerocheck || eq_factor is None {
                assert(ext_views(r.eq_evals@) =~= Seq::empty());
            }
            assert(ext_views(r.eq_evals@).len() == r.eq_evals@.len());
        }
        r
    }

    /// Checks the round polynomial against the claim: in the first round its
    /// sum over the summation set becomes the claimed sum; in a later round it
    /// must equal the value the previous round polynomial took at the
    /// challenge, else the round is invalid and the state is unchanged.
    pub fn check_round(&mut self, pol: &RoundPolynomial, sumation_set: &[Ext]) -> (r: Result<
        (),
        SumcheckError,
    >)
        requires
            round_poly_wf(*pol),
        ensures
            r is Err <==> !old(self).first_round && old(self).target@ != round_poly_sum(
                *pol,
                sumation_set@,
                sumation_set@.len() as int,
            ),
            r matches Err(e) ==> e == SumcheckError::InvalidRound && *final(self) == *old(self),
            r is Ok ==> final(self).sum@ == (if old(self).first_round {
                round_poly_sum(*pol, sumation_set@, sumation_set@.len() as int)
            } else {
                old(self).sum@
            }),
            r is Ok ==> !final(self).first_round,
            final(self).is_zerocheck == old(self).is_zerocheck,
            final(self).skips == old(self).skips,
            final(self).target == old(self).target,
            final(self).round == old(self).round,
            final(self).challenges == old(self).challenges,
    {
        let computed_sum = sum_round_polynomial(pol, sumation_set);
        if self.first_round {
            self.first_round = false;
            self.sum = computed_sum;
            Ok(())
        } else if self.target != computed_sum {
            Err(SumcheckError::InvalidRound)
        } else {
            Ok(())
        }
    }

    /// Ends a round with its challenge: the next claim is the round
    /// polynomial's value at the challenge, and later rounds fold one
    /// variable each.
    pub fn finish_round(&mut self, pol: &RoundPolynomial, challenge: Ext)
        requires
            round_poly_wf(*pol),
            old(self).round < usize::MAX,
        ensures
            final(self).target@ == round_poly_at(*pol, challenge@),
            final(self).target@ == (if pol.times_eq {
                ext_mul(interpolate(ext_views(pol.p_evals@), challenge@), interpolate(ext_views(pol.eq_evals@), challenge@))
            } else {
                interpolate(ext_views(pol.p_evals@), challenge@)
            }),
            final(self).challenges@ == old(self).challenges@.push(challenge),
            final(self).skips == 1,
            final(self).round == old(self).round + 1,
            final(self).is_zerocheck == old(self).is_zerocheck,
            final(self).first_round == old(self).first_round,
            final(self).sum == old(self).sum,
    {
        self.target = evaluate_round_polynomial(pol, challenge);
        self.challenges.push(challenge);
        self.skips = 1;
        self.round = self.round + 1;
    }

    /// The claimed sum and the final evaluation claim.
    pub fn into_result(self) -> (r: (Ext, Evaluation))
        ensures
            r.0 == self.sum,
            r.1.point@ == self.challenges@,
            r.1.value == self.target,
    {
        (self.sum, Evaluation { point: self.challenges, value: self.target })
    }
}


proof fn lemma_dot_unit(ys: Seq<Seq<nat>>, k: int, j: int)
    requires
        forall|i: int| 0 <= i < ys.len() ==> #[trigger] is_ext(ys[i]),
        0 <= k < ys.len(),
        0 <= j <= ys.len(),
    ensures
        ext_dot(ys, ext_unit(ys.len(), k), j) == (if j > k { ys[k] } else { ext_zero() }),
    decreases j,
{
    if j > 0 {
        lemma_dot_unit(ys, k, j - 1);
        let prev = ext_dot(ys, ext_unit(ys.len(), k), j - 1);
        lemma_ext_mul_one_zero(ys[j - 1]);
        if j - 1 == k {
            lemma_ext_add_zero(ys[k]);
        } else if j - 1 > k {
            lemma_ext_add_zero(ys[k]);
        } else {
            lemma_ext_add_zero(ext_zero());
        }
    }
}

/// The interpolating polynomial takes at each grid point `k` the value given
/// for it.
pub proof fn lemma_interpolate_at_grid(ys: Seq<Seq<nat>>, k: nat)
    requires
        forall|i: int| 0 <= i < ys.len() ==> #[trigger] is_ext(ys[i]),
        k < ys.len(),
        ys.len() <= P,
    ensures
        interpolate(ys, ext_grid(k as int)) == ys[k as int],
{
    lemma_lagrange_basis_at_grid(ys.len(), k, weights(ys.len()));
    lemma_dot_unit(ys, k as int, ys.len() as int);
}

/// A round polynomial takes at each grid point `k` the value sent for it,
/// times, for a zerocheck, the value of the `eq` polynomial there.
pub proof fn lemma_round_poly_at_grid(pol: RoundPolynomial, k: nat)
    requires
        round_poly_wf(pol),
        k < pol.p_evals@.len(),
        pol.times_eq ==> k < pol.eq_evals@.len(),
    ensures
        round_poly_at(pol, ext_grid(k as int)) == (if pol.times_eq {
            ext_mul(pol.p_evals@[k as int]@, pol.eq_evals@[k as int]@)
        } else {
            pol.p_evals@[k as int]@
        }),
{
    lemma_interpolate_at_grid(ext_views(pol.p_evals@), k);
    if pol.times_eq {
        lemma_interpolate_at_grid(ext_views(pol.eq_evals@), k);
    }
}

/// Over the summation set `{0, 1}`, a round polynomial sent by its values
/// `h(0), h(1), ...` sums to `h(0) + h(1)`.
pub proof fn lemma_round_sum_on_boolean_set(pol: RoundPolynomial, set: Seq<Ext>)
    requires
        round_poly_wf(pol),
        !pol.times_eq,
        pol.p_evals@.len() >= 2,
        set.len() == 2,
        set[0]@ == ext_grid(0),
        set[1]@ == ext_grid(1),
    ensures
        round_poly_sum(pol, set, 2) == ext_add(pol.p_evals@[0]@, pol.p_evals@[1]@),
{
    lemma_round_poly_at_grid(pol, 0);
    lemma_round_poly_at_grid(pol, 1);
    lemma_ext_add_zero(pol.p_evals@[0]@);
    assert(round_poly_sum(pol, set, 0) == ext_zero());
    assert(round_poly_sum(pol, set, 1) == pol.p_evals@[0]@);
}


/// The grid `{0, ..., n - 1}` of the extension.
pub open spec fn grid_set(n: nat) -> Seq<Seq<nat>> {
    Seq::new(n, |i: int| ext_grid(i))
}

/// The points `0, 1, ..., n - 1` of the extension.
pub fn grid_points(n: usize) -> (r: Vec<Ext>)
    ensures
        ext_views(r@) == grid_set(n as nat),
{
    let mut out: Vec<Ext> = Vec::new();
    for i in 0..n
        invariant
            out@.len() == i,
            forall|t: int| 0 <= t < i ==> #[trigger] out@[t]@ == ext_grid(t),
    {
        out.push(Ext::from_usize(i));
    }
    assert(ext_views(out@) =~= grid_set(n as nat));
    out
}

/// The degree bounds and summation sets of the rounds of a sumcheck over
/// `n_vars` variables: every round has degree `degree` and sums over `{0, 1}`.
pub fn verify_plan(n_vars: usize, degree: usize) -> (r: (Vec<usize>, Vec<Vec<Ext>>))
    ensures
        r.0@ == Seq::new(n_vars as nat, |i: int| degree),
        r.1@.len() == n_vars,
        forall|i: int| 0 <= i < n_vars ==> #[trigger] ext_views(r.1@[i]@) == grid_set(2),
{
    let mut degrees: Vec<usize> = Vec::new();
    let mut sets: Vec<Vec<Ext>> = Vec::new();
    for i in 0..n_vars
        invariant
            degrees@ == Seq::new(i as nat, |t: int| degree),
            sets@.len() == i,
            forall|t: int| 0 <= t < i ==> #[trigger] ext_views(sets@[t]@) == grid_set(2),
    {
        degrees.push(degree);
        sets.push(grid_points(2));
        assert(degrees@ =~= Seq::new((i + 1) as nat, |t: int| degree));
    }
    (degrees, sets)
}

/// The degree bounds and summation sets of a sumcheck whose first round skips
/// `skips` variables: the first round has degree `degree * (2^skips - 1)` and
/// sums over `{0, ..., 2^skips - 1}`; the `n_vars - skips` others have degree
/// `degree` and sum over `{0, 1}`.
pub fn verify_with_univariate_skip_plan(degree: usize, n_vars: usize, skips: usize) -> (r: (
    Vec<usize>,
    Vec<Vec<Ext>>,
))
    requires
        skips <= n_vars,
        skips <= 30,
        degree * (pow2(skips as nat) - 1) <= usize::MAX,
    ensures
        r.0@ == seq![(degree * (pow2(skips as nat) - 1)) as usize] + Seq::new(
            (n_vars - skips) as nat,
            |i: int| degree,
        ),
        r.1@.len() == n_vars - skips + 1,
        ext_views(r.1@[0]@) == grid_set(pow2(skips as nat)),
        forall|i: int| 1 <= i < r.1@.len() ==> #[trigger] ext_views(r.1@[i]@) == grid_set(2),
{
    let g = grid_size(skips);
    proof {
        vstd::arithmetic::power2::lemma_pow2_pos(skips as nat);
    }
    let mut degrees: Vec<usize> = Vec::new();
    degrees.push(degree * (g - 1));
    let mut sets: Vec<Vec<Ext>> = Vec::new();
    sets.push(grid_points(g));
    for i in 0..n_vars - skips
        invariant
            degrees@ == seq![(degree * (pow2(skips as nat) - 1)) as usize] + Seq::new(
                i as nat,
                |t: int| degree,
            ),
            sets@.len() == i + 1,
            ext_views(sets@[0]@) == grid_set(pow2(skips as nat)),
            forall|t: int| 1 <= t < i + 1 ==> #[trigger] ext_views(sets@[t]@) == grid_set(2),
    {
        degrees.push(degree);
        sets.push(grid_points(2));
        assert(degrees@ =~= seq![(degree * (pow2(skips as nat) - 1)) as usize] + Seq::new(
            (i + 1) as nat,
            |t: int| degree,
        ));
    }
    (degrees, sets)
}

/// For a zerocheck, the round polynomial at any point `x`, on the grid or
/// not, is the polynomial through the values sent at `x` times the `eq`
/// polynomial at `x`: the same round without the `eq` factor, times the
/// interpolated `eq` values.
pub proof fn lemma_zerocheck_round_value(pol: RoundPolynomial, x: Seq<nat>)
    requires
        pol.times_eq,
    ensures
        round_poly_at(pol, x) == ext_mul(
            round_poly_at(RoundPolynomial { p_evals: pol.p_evals, eq_evals: pol.eq_evals, times_eq: false }, x),
            interpolate(ext_views(pol.eq_evals@), x),
        ),
        round_poly_at(pol, x) == ext_mul(interpolate(ext_views(pol.p_evals@), x), interpolate(ext_views(pol.eq_evals@), x)),
{
}

/// Without zerocheck, every round reads `deg + 1` evaluations, the first as
/// the later ones; with zerocheck, the first round reads `2^skips` fewer than
/// a later round of the same degree, as its first `2^skips` values are known
/// to be zero.
pub proof fn lemma_round_proof_lengths(skips: nat, deg: nat)
    ensures
        round_proof_len(false, true, skips, deg) == deg + 1,
        round_proof_len(false, false, skips, deg) == deg + 1,
        round_proof_len(false, true, skips, deg) == round_proof_len(false, false, skips, deg),
        round_proof_len(true, true, skips, deg) == round_proof_len(true, false, skips, deg) - pow2(skips),
        round_proof_len(true, false, skips, deg) == deg + 2 - pow2(skips),
{
}

} // verus!
