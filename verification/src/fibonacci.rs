//! Fibonacci numbers in the field, the value the Fibonacci example's table
//! ends with.
use vstd::prelude::*;
use crate::field::{Fp, fadd, lemma_fp_view_lt};

verus! {

broadcast use lemma_fp_view_lt;

/// `F_n mod p`, with `F_0 = 0` and `F_1 = 1`.
pub open spec fn fib(n: nat) -> nat
    decreases n,
{
    if n == 0 {
        0
    } else if n == 1 {
        1
    } else {
        fadd(fib((n - 2) as nat) as int, fib((n - 1) as nat) as int)
    }
}

/// `F_n` in the field.
pub fn fibonacci(n: usize) -> (r: Fp)
    ensures
        r@ == fib(n as nat),
{
    let mut a = Fp::zero();
    let mut b = Fp::one();
    for i in 0..n
        invariant
            a@ == fib(i as nat),
            b@ == fib((i + 1) as nat),
    {
        let next = a.add(b);
        a = b;
        b = next;
    }
    a
}

} // verus!
