//! Lists of evaluations of a multilinear polynomial over the boolean hypercube.
use vstd::prelude::*;
use vstd::arithmetic::power2::{pow2, lemma_pow2_pos, lemma_pow2_unfold, lemma_pow2_subtracts, lemma_pow2_strictly_increases};

verus! {

/// `n` is a power of two.
pub open spec fn is_power_of_two(n: nat) -> bool {
    exists|k: nat| pow2(k) == n
}

/// A power of two divided by a smaller power of two is a power of two, and the
/// division is exact.
pub proof fn lemma_pow2_div(a: nat, b: nat)
    requires
        is_power_of_two(a),
        is_power_of_two(b),
        b <= a,
    ensures
        is_power_of_two(a / b),
        (a / b) * b == a,
        b > 0,
{
    let ka = choose|k: nat| pow2(k) == a;
    let kb = choose|k: nat| pow2(k) == b;
    lemma_pow2_pos(kb);
    if kb > ka {
        lemma_pow2_strictly_increases(ka, kb);
    }
    lemma_pow2_subtracts(kb, ka);
    let q = (ka - kb) as nat;
    vstd::arithmetic::power2::lemma_pow2_adds(q, kb);
    assert(q + kb == ka);
    assert(pow2(q) == a / b);
}

/// Half of a power of two that is at least two is a power of two.
pub proof fn lemma_pow2_half(a: nat)
    requires
        is_power_of_two(a),
        a >= 2,
    ensures
        is_power_of_two(a / 2),
        (a / 2) * 2 == a,
{
    vstd::arithmetic::power2::lemma2_to64();
    assert(pow2(1) == 2);
    lemma_pow2_div(a, 2);
}

/// The evaluations of a multilinear polynomial in `n` variables: a list whose
/// length is `2^n`.
#[derive(Debug)]
pub struct EvaluationsList<T> {
    evals: Vec<T>,
}

impl<T> View for EvaluationsList<T> {
    type V = Seq<T>;

    closed spec fn view(&self) -> Seq<T> {
        self.evals@
    }
}

impl<T> EvaluationsList<T> {
    #[verifier::type_invariant]
    closed spec fn inv(self) -> bool {
        is_power_of_two(self.evals@.len())
    }

    /// Wraps a list whose length is a power of two.
    pub fn new(evals: Vec<T>) -> (r: EvaluationsList<T>)
        requires
            is_power_of_two(evals@.len()),
        ensures
            r@ == evals@,
    {
        EvaluationsList { evals }
    }

    /// The number of evaluations, a power of two.
    pub fn num_evals(&self) -> (n: usize)
        ensures
            n == self@.len(),
            is_power_of_two(n as nat),
    {
        proof {
            use_type_invariant(self);
        }
        self.evals.len()
    }

    /// The number of variables `n`, with `2^n` evaluations.
    pub fn num_variables(&self) -> (k: usize)
        ensures
            pow2(k as nat) == self@.len(),
    {
        proof {
            use_type_invariant(self);
            vstd::arithmetic::power2::lemma2_to64();
        }
        let len = self.evals.len();
        let mut k: usize = 0;
        let mut p: usize = 1;
        let ghost e = choose|e: nat| pow2(e) == len;
        while p < len
            invariant
                p == pow2(k as nat),
                pow2(e) == len,
                k <= e,
                len <= usize::MAX,
            decreases len - p,
        {
            proof {
                vstd::arithmetic::power2::lemma2_to64();
                if k >= 64 {
                    if k > 64 {
                        lemma_pow2_strictly_increases(64, k as nat);
                    }
                    assert(false);
                }
                lemma_pow2_unfold((k + 1) as nat);
                if k == e {
                    assert(p == len);
                }
                if k + 1 > e {
                    assert(k == e);
                }
                if k + 1 < e {
                    lemma_pow2_strictly_increases((k + 1) as nat, e);
                }
                lemma_pow2_pos(k as nat);
            }
            p = p * 2;
            k = k + 1;
        }
        proof {
            if k < e {
                lemma_pow2_strictly_increases(k as nat, e);
            }
        }
        k
    }

    /// The evaluations.
    pub fn evals(&self) -> (r: &[T])
        ensures
            r@ == self@,
    {
        self.evals.as_slice()
    }

    /// The evaluations, by value.
    pub fn into_evals(self) -> (r: Vec<T>)
        ensures
            r@ == self@,
    {
        self.evals
    }
}

} // verus!
