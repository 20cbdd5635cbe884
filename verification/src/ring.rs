//! The ring laws of the product of the extension: it is commutative and
//! associative.
//!
//! Each coordinate of a product is, mod `p`, a sum over the integers of
//! products of coordinates weighted by powers of `W`; the laws are proved on
//! those integer sums and carried back through the reduction mod `p`.
use vstd::prelude::*;
use crate::field::P;
use crate::extension::{ext_add, ext_sub, ext_inv, ext_mul, ext_mul_coeff, ext_mul_term, ext_one, is_ext, lemma_ext_mul_one_zero, EXT_W};

verus! {

/// `f(0) + ... + f(7)`.
#[verifier::opaque]
spec fn sum8(f: spec_fn(int) -> int) -> int {
    f(0) + f(1) + f(2) + f(3) + f(4) + f(5) + f(6) + f(7)
}

proof fn lemma_sum8_congr(f: spec_fn(int) -> int, g: spec_fn(int) -> int)
    requires
        forall|i: int| 0 <= i < 8 ==> #[trigger] f(i) == g(i),
    ensures
        sum8(f) == sum8(g),
{
    reveal(sum8);
    assert(f(0) == g(0) && f(1) == g(1) && f(2) == g(2) && f(3) == g(3));
    assert(f(4) == g(4) && f(5) == g(5) && f(6) == g(6) && f(7) == g(7));
}

proof fn lemma_sum8_scale(f: spec_fn(int) -> int, y: int)
    ensures
        sum8(|i: int| f(i) * y) == sum8(f) * y,
{
    reveal(sum8);
    let (x0, x1, x2, x3, x4, x5, x6, x7) = (f(0), f(1), f(2), f(3), f(4), f(5), f(6), f(7));
    assert((x0 + x1 + x2 + x3 + x4 + x5 + x6 + x7) * y == x0 * y + x1 * y + x2 * y + x3 * y + x4 * y + x5 * y
        + x6 * y + x7 * y) by (nonlinear_arith);
}

proof fn lemma_sum8_add(f: spec_fn(int) -> int, g: spec_fn(int) -> int)
    ensures
        sum8(|i: int| f(i) + g(i)) == sum8(f) + sum8(g),
{
    reveal(sum8);
}

proof fn lemma_sum8_swap(g: spec_fn(int, int) -> int)
    ensures
        sum8(|i: int| sum8(|j: int| g(i, j))) == sum8(|j: int| sum8(|i: int| g(i, j))),
{
    reveal(sum8);
}

proof fn lemma_sum8_single(f: spec_fn(int) -> int, m: int)
    requires
        0 <= m < 8,
        forall|i: int| 0 <= i < 8 && i != m ==> #[trigger] f(i) == 0,
    ensures
        sum8(f) == f(m),
{
    reveal(sum8);
    assert(f(0) == 0 || m == 0);
    assert(f(1) == 0 || m == 1);
    assert(f(2) == 0 || m == 2);
    assert(f(3) == 0 || m == 3);
    assert(f(4) == 0 || m == 4);
    assert(f(5) == 0 || m == 5);
    assert(f(6) == 0 || m == 6);
    assert(f(7) == 0 || m == 7);
}

/// The weight of `X^i * X^j` on `X^k` in `F_p[X] / (X^8 - W)`.
spec fn wt(i: int, j: int, k: int) -> int {
    if i + j == k {
        1
    } else if i + j == k + 8 {
        EXT_W as int
    } else {
        0
    }
}

/// Row `i` of coordinate `k` of the product: `sum_j a_i b_j wt(i, j, k)`.
spec fn row(a: Seq<int>, b: Seq<int>, k: int, i: int) -> int {
    sum8(|j: int| a[i] * b[j] * wt(i, j, k))
}

/// Coordinate `k` of the product, computed over the integers.
spec fn conv(a: Seq<int>, b: Seq<int>, k: int) -> int {
    sum8(|i: int| row(a, b, k, i))
}

/// Column `j` of coordinate `k` of the product: `sum_i a_i b_j wt(i, j, k)`.
spec fn col(a: Seq<int>, b: Seq<int>, k: int, j: int) -> int {
    sum8(|i: int| a[i] * b[j] * wt(i, j, k))
}

proof fn lemma_conv_commutes(a: Seq<int>, b: Seq<int>, k: int)
    ensures
        conv(a, b, k) == conv(b, a, k),
{
    let g = |i: int, j: int| a[i] * b[j] * wt(i, j, k);
    lemma_sum8_swap(g);
    assert forall|i: int| 0 <= i < 8 implies #[trigger] row(a, b, k, i) == sum8(|j: int| g(i, j)) by {
        lemma_sum8_congr(|j: int| a[i] * b[j] * wt(i, j, k), |j: int| g(i, j));
    }
    lemma_sum8_congr(|i: int| row(a, b, k, i), |i: int| sum8(|j: int| g(i, j)));
    assert forall|j: int| 0 <= j < 8 implies #[trigger] col(a, b, k, j) == row(b, a, k, j) && sum8(|i: int| g(i, j)) == col(a, b, k, j) by {
        assert forall|i: int| 0 <= i < 8 implies #[trigger] g(i, j) == b[j] * a[i] * wt(j, i, k) by {
            assert(a[i] * b[j] == b[j] * a[i]) by (nonlinear_arith);
        }
        lemma_sum8_congr(|i: int| g(i, j), |i: int| b[j] * a[i] * wt(j, i, k));
        lemma_sum8_congr(|i: int| g(i, j), |i: int| a[i] * b[j] * wt(i, j, k));
    }
    lemma_sum8_congr(|j: int| sum8(|i: int| g(i, j)), |j: int| col(a, b, k, j));
    lemma_sum8_congr(|j: int| col(a, b, k, j), |j: int| row(b, a, k, j));
}

/// The coordinates of an extension element as integers.
spec fn ints(a: Seq<nat>) -> Seq<int> {
    Seq::new(8, |i: int| a[i] as int)
}

proof fn lemma_row_value(a: Seq<int>, b: Seq<int>, k: int, i: int)
    requires
        0 <= k < 8,
        0 <= i < 8,
    ensures
        row(a, b, k, i) == if i <= k {
            a[i] * b[k - i]
        } else {
            EXT_W as int * a[i] * b[k + 8 - i]
        },
{
    let j0 = if i <= k { k - i } else { k + 8 - i };
    let f = |j: int| a[i] * b[j] * wt(i, j, k);
    assert forall|j: int| 0 <= j < 8 && j != j0 implies #[trigger] f(j) == 0 by {
        assert(wt(i, j, k) == 0);
    }
    lemma_sum8_single(f, j0);
    if i > k {
        assert(a[i] * b[j0] * 3 == 3 * a[i] * b[j0]) by (nonlinear_arith);
    }
}

/// The first `n` rows of coordinate `k` of the product.
spec fn rows_upto(a: Seq<int>, b: Seq<int>, k: int, n: int) -> int
    decreases n,
{
    if n <= 0 {
        0
    } else {
        rows_upto(a, b, k, n - 1) + row(a, b, k, n - 1)
    }
}

proof fn lemma_coeff_rows(a: Seq<nat>, b: Seq<nat>, k: int, n: int)
    requires
        0 <= k < 8,
        0 <= n <= 8,
    ensures
        ext_mul_coeff(a, b, k, n) == rows_upto(ints(a), ints(b), k, n) % (P as int),
    decreases n,
{
    let p = P as int;
    if n > 0 {
        lemma_coeff_rows(a, b, k, n - 1);
        let i = n - 1;
        let r = rows_upto(ints(a), ints(b), k, n - 1);
        lemma_row_value(ints(a), ints(b), k, i);
        let t = ext_mul_term(a, b, k, i);
        let ti: int = if i <= k { (a[i] * b[k - i]) as int } else { (3 * a[i] * b[k + 8 - i]) as int };
        assert(t == ti % p) by {
            if i > k {
                vstd::arithmetic::div_mod::lemma_mul_mod_noop_left(3 * a[i] as int, b[k + 8 - i] as int, p);
            }
        }
        assert(row(ints(a), ints(b), k, i) == ti);
        vstd::arithmetic::div_mod::lemma_add_mod_noop(r, ti, p);
        vstd::arithmetic::div_mod::lemma_mod_twice(r, p);
        vstd::arithmetic::div_mod::lemma_mod_twice(ti, p);
    }
}

proof fn lemma_rows_conv(a: Seq<int>, b: Seq<int>, k: int)
    ensures
        rows_upto(a, b, k, 8) == conv(a, b, k),
{
    reveal(sum8);
    reveal_with_fuel(rows_upto, 9);
}

/// Coordinate `k` of a product is the integer coordinate reduced mod `p`.
proof fn lemma_ext_mul_conv(a: Seq<nat>, b: Seq<nat>, k: int)
    requires
        0 <= k < 8,
    ensures
        ext_mul(a, b)[k] == conv(ints(a), ints(b), k) % (P as int),
{
    lemma_coeff_rows(a, b, k, 8);
    lemma_rows_conv(ints(a), ints(b), k);
}

/// `sum_j c_j wt(i, j, k)`: row `i` of the product, less its factor `a_i`.
spec fn rcol(c: Seq<int>, k: int, i: int) -> int {
    sum8(|j: int| c[j] * wt(i, j, k))
}

proof fn lemma_row_factor(x: Seq<int>, c: Seq<int>, k: int, i: int)
    ensures
        row(x, c, k, i) == x[i] * rcol(c, k, i),
{
    let f = |j: int| c[j] * wt(i, j, k);
    assert forall|j: int| 0 <= j < 8 implies #[trigger] (x[i] * c[j] * wt(i, j, k)) == f(j) * x[i] by {
        let (u, v, w) = (x[i], c[j], wt(i, j, k));
        assert(u * v * w == (v * w) * u) by (nonlinear_arith);
    }
    lemma_sum8_congr(|j: int| x[i] * c[j] * wt(i, j, k), |j: int| f(j) * x[i]);
    lemma_sum8_scale(f, x[i]);
    assert(sum8(f) * x[i] == x[i] * sum8(f)) by (nonlinear_arith);
}

/// Coordinates congruent mod `p` give congruent integer products.
proof fn lemma_conv_congruent(x: Seq<int>, y: Seq<int>, c: Seq<int>, k: int)
    requires
        forall|m: int| 0 <= m < 8 ==> #[trigger] x[m] % (P as int) == y[m] % (P as int),
    ensures
        conv(x, c, k) % (P as int) == conv(y, c, k) % (P as int),
{
    let p = P as int;
    let q = |i: int| x[i] / p - y[i] / p;
    let fy = |i: int| y[i] * rcol(c, k, i);
    let fq = |i: int| q(i) * rcol(c, k, i);
    let g = |i: int| fq(i) * p;
    assert forall|i: int| 0 <= i < 8 implies #[trigger] row(x, c, k, i) == fy(i) + g(i) by {
        lemma_row_factor(x, c, k, i);
        vstd::arithmetic::div_mod::lemma_fundamental_div_mod(x[i], p);
        vstd::arithmetic::div_mod::lemma_fundamental_div_mod(y[i], p);
        assert(x[i] % p == y[i] % p);
        let (xi, yi, qi, r) = (x[i], y[i], q(i), rcol(c, k, i));
        assert(xi == yi + p * qi);
        assert(xi * r == yi * r + (qi * r) * p) by (nonlinear_arith)
            requires
                xi == yi + p * qi,
        ;
    }
    lemma_sum8_congr(|i: int| row(x, c, k, i), |i: int| fy(i) + g(i));
    lemma_sum8_add(fy, g);
    lemma_sum8_scale(fq, p);
    assert forall|i: int| 0 <= i < 8 implies #[trigger] row(y, c, k, i) == fy(i) by {
        lemma_row_factor(y, c, k, i);
    }
    lemma_sum8_congr(|i: int| row(y, c, k, i), fy);
    vstd::arithmetic::div_mod::lemma_mod_multiples_vanish(sum8(fq), sum8(fy), p);
    assert(sum8(fq) * p == p * sum8(fq)) by (nonlinear_arith);
}

/// The weight of `X^s` on `X^k` for `s < 24`: `W^(s / 8)` where `s % 8 == k`.
spec fn wt3(s: int, k: int) -> int {
    if s == k {
        1
    } else if s == k + 8 {
        EXT_W as int
    } else if s == k + 16 {
        (EXT_W * EXT_W) as int
    } else {
        0
    }
}

proof fn lemma_weights_left(i: int, j: int, l: int, k: int)
    requires
        0 <= i < 8,
        0 <= j < 8,
        0 <= l < 8,
        0 <= k < 8,
    ensures
        sum8(|m: int| wt(i, j, m) * wt(m, l, k)) == wt3(i + j + l, k),
{
    let m0 = if i + j < 8 { i + j } else { i + j - 8 };
    let f = |m: int| wt(i, j, m) * wt(m, l, k);
    assert forall|m: int| 0 <= m < 8 && m != m0 implies #[trigger] f(m) == 0 by {
        assert(wt(i, j, m) == 0);
    }
    lemma_sum8_single(f, m0);
}

proof fn lemma_weights_right(i: int, j: int, l: int, k: int)
    requires
        0 <= i < 8,
        0 <= j < 8,
        0 <= l < 8,
        0 <= k < 8,
    ensures
        sum8(|n: int| wt(j, l, n) * wt(i, n, k)) == wt3(i + j + l, k),
{
    let n0 = if j + l < 8 { j + l } else { j + l - 8 };
    let f = |n: int| wt(j, l, n) * wt(i, n, k);
    assert forall|n: int| 0 <= n < 8 && n != n0 implies #[trigger] f(n) == 0 by {
        assert(wt(j, l, n) == 0);
    }
    lemma_sum8_single(f, n0);
}

/// The coordinates of the product, over the integers.
spec fn prod_seq(a: Seq<int>, b: Seq<int>) -> Seq<int> {
    Seq::new(8, |m: int| conv(a, b, m))
}

/// The term `a_i b_j c_l` of `((a b) c)_k` that goes through `X^m`.
spec fn t4(a: Seq<int>, b: Seq<int>, c: Seq<int>, k: int, i: int, j: int, l: int, m: int) -> int {
    a[i] * b[j] * c[l] * (wt(i, j, m) * wt(m, l, k))
}

/// The term `a_i b_j c_l` of `(a (b c))_k` that goes through `X^n`.
spec fn u4(a: Seq<int>, b: Seq<int>, c: Seq<int>, k: int, i: int, j: int, l: int, n: int) -> int {
    a[i] * b[j] * c[l] * (wt(j, l, n) * wt(i, n, k))
}

/// The term `a_i b_j c_l` of either product, all paths summed.
spec fn e3(a: Seq<int>, b: Seq<int>, c: Seq<int>, k: int, i: int, j: int, l: int) -> int {
    a[i] * b[j] * c[l] * wt3(i + j + l, k)
}

/// `sum_j t4(.., i, j, l, m)`.
spec fn t_j(a: Seq<int>, b: Seq<int>, c: Seq<int>, k: int, i: int, l: int, m: int) -> int {
    sum8(|j: int| t4(a, b, c, k, i, j, l, m))
}

/// `sum_i sum_j t4(.., i, j, l, m)`: the part of `(a b)_m c_l` on `X^k`.
spec fn t_ij(a: Seq<int>, b: Seq<int>, c: Seq<int>, k: int, l: int, m: int) -> int {
    sum8(|i: int| t_j(a, b, c, k, i, l, m))
}

proof fn lemma_left_term(a: Seq<int>, b: Seq<int>, c: Seq<int>, k: int, l: int, m: int)
    requires
        0 <= m < 8,
    ensures
        prod_seq(a, b)[m] * c[l] * wt(m, l, k) == t_ij(a, b, c, k, l, m),
{
    let y = c[l] * wt(m, l, k);
    let x = conv(a, b, m);
    assert(prod_seq(a, b)[m] == x);
    assert(x * c[l] * wt(m, l, k) == x * y) by (nonlinear_arith)
        requires
            y == c[l] * wt(m, l, k),
    ;
    let f = |i: int| row(a, b, m, i);
    lemma_sum8_scale(f, y);
    assert forall|i: int| 0 <= i < 8 implies #[trigger] f(i) * y == t_j(a, b, c, k, i, l, m) by {
        let h = |j: int| a[i] * b[j] * wt(i, j, m);
        lemma_sum8_scale(h, y);
        assert forall|j: int| 0 <= j < 8 implies #[trigger] h(j) * y == t4(a, b, c, k, i, j, l, m) by {
            let (u, v, w1, cl, w2) = (a[i], b[j], wt(i, j, m), c[l], wt(m, l, k));
            assert(u * v * w1 * (cl * w2) == u * v * cl * (w1 * w2)) by (nonlinear_arith);
        }
        lemma_sum8_congr(|j: int| h(j) * y, |j: int| t4(a, b, c, k, i, j, l, m));
    }
    lemma_sum8_congr(|i: int| f(i) * y, |i: int| t_j(a, b, c, k, i, l, m));
}

/// `sum_l sum_i sum_j t4(.., i, j, l, m)`.
spec fn ls_m(a: Seq<int>, b: Seq<int>, c: Seq<int>, k: int, m: int) -> int {
    sum8(|l: int| t_ij(a, b, c, k, l, m))
}

/// `sum_m sum_i sum_j t4(.., i, j, l, m)`.
spec fn ms_l(a: Seq<int>, b: Seq<int>, c: Seq<int>, k: int, l: int) -> int {
    sum8(|m: int| t_ij(a, b, c, k, l, m))
}

/// `sum_m sum_j t4(.., i, j, l, m)`.
spec fn mi(a: Seq<int>, b: Seq<int>, c: Seq<int>, k: int, i: int, l: int) -> int {
    sum8(|m: int| t_j(a, b, c, k, i, l, m))
}

/// `sum_m t4(.., i, j, l, m)`.
spec fn mj(a: Seq<int>, b: Seq<int>, c: Seq<int>, k: int, i: int, j: int, l: int) -> int {
    sum8(|m: int| t4(a, b, c, k, i, j, l, m))
}

/// `sum_j e3(.., i, j, l)`.
spec fn ej(a: Seq<int>, b: Seq<int>, c: Seq<int>, k: int, i: int, l: int) -> int {
    sum8(|j: int| e3(a, b, c, k, i, j, l))
}

/// `sum_i sum_j e3(.., i, j, l)`.
spec fn eij(a: Seq<int>, b: Seq<int>, c: Seq<int>, k: int, l: int) -> int {
    sum8(|i: int| ej(a, b, c, k, i, l))
}

/// `sum_l e3(.., i, j, l)`.
spec fn el(a: Seq<int>, b: Seq<int>, c: Seq<int>, k: int, i: int, j: int) -> int {
    sum8(|l: int| e3(a, b, c, k, i, j, l))
}

/// `sum_j sum_l e3(.., i, j, l)`.
spec fn elj(a: Seq<int>, b: Seq<int>, c: Seq<int>, k: int, i: int) -> int {
    sum8(|j: int| el(a, b, c, k, i, j))
}

/// `sum_{i, j, l} a_i b_j c_l W(i + j + l, k)`: coordinate `k` of the
/// product of three, over the integers.
spec fn triple(a: Seq<int>, b: Seq<int>, c: Seq<int>, k: int) -> int {
    sum8(|i: int| elj(a, b, c, k, i))
}

proof fn lemma_mj_value(a: Seq<int>, b: Seq<int>, c: Seq<int>, k: int, i: int, j: int, l: int)
    requires
        0 <= i < 8,
        0 <= j < 8,
        0 <= l < 8,
        0 <= k < 8,
    ensures
        mj(a, b, c, k, i, j, l) == e3(a, b, c, k, i, j, l),
{
    let x = a[i] * b[j] * c[l];
    let f = |m: int| wt(i, j, m) * wt(m, l, k);
    lemma_weights_left(i, j, l, k);
    lemma_sum8_scale(f, x);
    assert forall|m: int| 0 <= m < 8 implies #[trigger] t4(a, b, c, k, i, j, l, m) == f(m) * x by {
        let w = f(m);
        assert(x * w == w * x) by (nonlinear_arith);
    }
    lemma_sum8_congr(|m: int| t4(a, b, c, k, i, j, l, m), |m: int| f(m) * x);
    assert(sum8(f) * x == x * sum8(f)) by (nonlinear_arith);
}

proof fn lemma_mi_value(a: Seq<int>, b: Seq<int>, c: Seq<int>, k: int, i: int, l: int)
    requires
        0 <= i < 8,
        0 <= l < 8,
        0 <= k < 8,
    ensures
        mi(a, b, c, k, i, l) == ej(a, b, c, k, i, l),
{
    let g = |m: int, j: int| t4(a, b, c, k, i, j, l, m);
    lemma_sum8_swap(g);
    assert forall|m: int| 0 <= m < 8 implies #[trigger] t_j(a, b, c, k, i, l, m) == sum8(|j: int| g(m, j)) by {
        lemma_sum8_congr(|j: int| t4(a, b, c, k, i, j, l, m), |j: int| g(m, j));
    }
    lemma_sum8_congr(|m: int| t_j(a, b, c, k, i, l, m), |m: int| sum8(|j: int| g(m, j)));
    assert forall|j: int| 0 <= j < 8 implies #[trigger] mj(a, b, c, k, i, j, l) == sum8(|m: int| g(m, j)) by {
        lemma_sum8_congr(|m: int| t4(a, b, c, k, i, j, l, m), |m: int| g(m, j));
    }
    lemma_sum8_congr(|j: int| sum8(|m: int| g(m, j)), |j: int| mj(a, b, c, k, i, j, l));
    assert forall|j: int| 0 <= j < 8 implies #[trigger] mj(a, b, c, k, i, j, l) == e3(a, b, c, k, i, j, l) by {
        lemma_mj_value(a, b, c, k, i, j, l);
    }
    lemma_sum8_congr(|j: int| mj(a, b, c, k, i, j, l), |j: int| e3(a, b, c, k, i, j, l));
}

proof fn lemma_ms_value(a: Seq<int>, b: Seq<int>, c: Seq<int>, k: int, l: int)
    requires
        0 <= l < 8,
        0 <= k < 8,
    ensures
        ms_l(a, b, c, k, l) == eij(a, b, c, k, l),
{
    let g = |m: int, i: int| t_j(a, b, c, k, i, l, m);
    lemma_sum8_swap(g);
    assert forall|m: int| 0 <= m < 8 implies #[trigger] t_ij(a, b, c, k, l, m) == sum8(|i: int| g(m, i)) by {
        lemma_sum8_congr(|i: int| t_j(a, b, c, k, i, l, m), |i: int| g(m, i));
    }
    lemma_sum8_congr(|m: int| t_ij(a, b, c, k, l, m), |m: int| sum8(|i: int| g(m, i)));
    assert forall|i: int| 0 <= i < 8 implies #[trigger] mi(a, b, c, k, i, l) == sum8(|m: int| g(m, i)) by {
        lemma_sum8_congr(|m: int| t_j(a, b, c, k, i, l, m), |m: int| g(m, i));
    }
    lemma_sum8_congr(|i: int| sum8(|m: int| g(m, i)), |i: int| mi(a, b, c, k, i, l));
    assert forall|i: int| 0 <= i < 8 implies #[trigger] mi(a, b, c, k, i, l) == ej(a, b, c, k, i, l) by {
        lemma_mi_value(a, b, c, k, i, l);
    }
    lemma_sum8_congr(|i: int| mi(a, b, c, k, i, l), |i: int| ej(a, b, c, k, i, l));
}

proof fn lemma_eij_triple(a: Seq<int>, b: Seq<int>, c: Seq<int>, k: int)
    ensures
        sum8(|l: int| eij(a, b, c, k, l)) == triple(a, b, c, k),
{
    let g = |l: int, i: int| ej(a, b, c, k, i, l);
    lemma_sum8_swap(g);
    assert forall|l: int| 0 <= l < 8 implies #[trigger] eij(a, b, c, k, l) == sum8(|i: int| g(l, i)) by {
        lemma_sum8_congr(|i: int| ej(a, b, c, k, i, l), |i: int| g(l, i));
    }
    lemma_sum8_congr(|l: int| eij(a, b, c, k, l), |l: int| sum8(|i: int| g(l, i)));
    assert forall|i: int| 0 <= i < 8 implies #[trigger] elj(a, b, c, k, i) == sum8(|l: int| g(l, i)) by {
        let h = |l: int, j: int| e3(a, b, c, k, i, j, l);
        lemma_sum8_swap(h);
        assert forall|l: int| 0 <= l < 8 implies #[trigger] ej(a, b, c, k, i, l) == sum8(|j: int| h(l, j)) by {
            lemma_sum8_congr(|j: int| e3(a, b, c, k, i, j, l), |j: int| h(l, j));
        }
        lemma_sum8_congr(|l: int| g(l, i), |l: int| sum8(|j: int| h(l, j)));
        assert forall|j: int| 0 <= j < 8 implies #[trigger] el(a, b, c, k, i, j) == sum8(|l: int| h(l, j)) by {
            lemma_sum8_congr(|l: int| e3(a, b, c, k, i, j, l), |l: int| h(l, j));
        }
        lemma_sum8_congr(|j: int| el(a, b, c, k, i, j), |j: int| sum8(|l: int| h(l, j)));
    }
    lemma_sum8_congr(|i: int| sum8(|l: int| g(l, i)), |i: int| elj(a, b, c, k, i));
}

/// `((a b) c)_k`, over the integers, is the triple sum.
proof fn lemma_left_triple(a: Seq<int>, b: Seq<int>, c: Seq<int>, k: int)
    requires
        0 <= k < 8,
    ensures
        conv(prod_seq(a, b), c, k) == triple(a, b, c, k),
{
    let ab = prod_seq(a, b);
    assert forall|m: int| 0 <= m < 8 implies #[trigger] row(ab, c, k, m) == ls_m(a, b, c, k, m) by {
        assert forall|l: int| 0 <= l < 8 implies #[trigger] (ab[m] * c[l] * wt(m, l, k)) == t_ij(a, b, c, k, l, m) by {
            lemma_left_term(a, b, c, k, l, m);
        }
        lemma_sum8_congr(|l: int| ab[m] * c[l] * wt(m, l, k), |l: int| t_ij(a, b, c, k, l, m));
    }
    lemma_sum8_congr(|m: int| row(ab, c, k, m), |m: int| ls_m(a, b, c, k, m));
    let g = |m: int, l: int| t_ij(a, b, c, k, l, m);
    lemma_sum8_swap(g);
    assert forall|m: int| 0 <= m < 8 implies #[trigger] ls_m(a, b, c, k, m) == sum8(|l: int| g(m, l)) by {
        lemma_sum8_congr(|l: int| t_ij(a, b, c, k, l, m), |l: int| g(m, l));
    }
    lemma_sum8_congr(|m: int| ls_m(a, b, c, k, m), |m: int| sum8(|l: int| g(m, l)));
    assert forall|l: int| 0 <= l < 8 implies sum8(|m: int| g(m, l)) == #[trigger] eij(a, b, c, k, l) by {
        lemma_sum8_congr(|m: int| t_ij(a, b, c, k, l, m), |m: int| g(m, l));
        lemma_ms_value(a, b, c, k, l);
    }
    lemma_sum8_congr(|l: int| sum8(|m: int| g(m, l)), |l: int| eij(a, b, c, k, l));
    lemma_eij_triple(a, b, c, k);
}

/// `sum_l u4(.., i, j, l, n)`.
spec fn u_l(a: Seq<int>, b: Seq<int>, c: Seq<int>, k: int, i: int, j: int, n: int) -> int {
    sum8(|l: int| u4(a, b, c, k, i, j, l, n))
}

/// `sum_j sum_l u4(.., i, j, l, n)`: the part of `a_i (b c)_n` on `X^k`.
spec fn u_jl(a: Seq<int>, b: Seq<int>, c: Seq<int>, k: int, i: int, n: int) -> int {
    sum8(|j: int| u_l(a, b, c, k, i, j, n))
}

/// `sum_n sum_l u4(.., i, j, l, n)`.
spec fn nj(a: Seq<int>, b: Seq<int>, c: Seq<int>, k: int, i: int, j: int) -> int {
    sum8(|n: int| u_l(a, b, c, k, i, j, n))
}

proof fn lemma_right_term(a: Seq<int>, b: Seq<int>, c: Seq<int>, k: int, i: int, n: int)
    requires
        0 <= n < 8,
    ensures
        a[i] * prod_seq(b, c)[n] * wt(i, n, k) == u_jl(a, b, c, k, i, n),
{
    let x = a[i] * wt(i, n, k);
    let y = conv(b, c, n);
    assert(prod_seq(b, c)[n] == y);
    assert(a[i] * y * wt(i, n, k) == y * x) by (nonlinear_arith)
        requires
            x == a[i] * wt(i, n, k),
    ;
    let f = |j: int| row(b, c, n, j);
    lemma_sum8_scale(f, x);
    assert forall|j: int| 0 <= j < 8 implies #[trigger] f(j) * x == u_l(a, b, c, k, i, j, n) by {
        let h = |l: int| b[j] * c[l] * wt(j, l, n);
        lemma_sum8_scale(h, x);
        assert forall|l: int| 0 <= l < 8 implies #[trigger] h(l) * x == u4(a, b, c, k, i, j, l, n) by {
            let (ai, bj, cl, w1, w2) = (a[i], b[j], c[l], wt(j, l, n), wt(i, n, k));
            assert(bj * cl * w1 * (ai * w2) == ai * bj * cl * (w1 * w2)) by (nonlinear_arith);
        }
        lemma_sum8_congr(|l: int| h(l) * x, |l: int| u4(a, b, c, k, i, j, l, n));
    }
    lemma_sum8_congr(|j: int| f(j) * x, |j: int| u_l(a, b, c, k, i, j, n));
}

proof fn lemma_nj_value(a: Seq<int>, b: Seq<int>, c: Seq<int>, k: int, i: int, j: int)
    requires
        0 <= i < 8,
        0 <= j < 8,
        0 <= k < 8,
    ensures
        nj(a, b, c, k, i, j) == el(a, b, c, k, i, j),
{
    let g = |n: int, l: int| u4(a, b, c, k, i, j, l, n);
    lemma_sum8_swap(g);
    assert forall|n: int| 0 <= n < 8 implies #[trigger] u_l(a, b, c, k, i, j, n) == sum8(|l: int| g(n, l)) by {
        lemma_sum8_congr(|l: int| u4(a, b, c, k, i, j, l, n), |l: int| g(n, l));
    }
    lemma_sum8_congr(|n: int| u_l(a, b, c, k, i, j, n), |n: int| sum8(|l: int| g(n, l)));
    assert forall|l: int| 0 <= l < 8 implies sum8(|n: int| g(n, l)) == #[trigger] e3(a, b, c, k, i, j, l) by {
        lemma_sum8_congr(|n: int| g(n, l), |n: int| u4(a, b, c, k, i, j, l, n));
        let x = a[i] * b[j] * c[l];
        let f = |n: int| wt(j, l, n) * wt(i, n, k);
        lemma_weights_right(i, j, l, k);
        lemma_sum8_scale(f, x);
        assert forall|n: int| 0 <= n < 8 implies #[trigger] u4(a, b, c, k, i, j, l, n) == f(n) * x by {
            let w = f(n);
            assert(x * w == w * x) by (nonlinear_arith);
        }
        lemma_sum8_congr(|n: int| u4(a, b, c, k, i, j, l, n), |n: int| f(n) * x);
        assert(sum8(f) * x == x * sum8(f)) by (nonlinear_arith);
    }
    lemma_sum8_congr(|l: int| sum8(|n: int| g(n, l)), |l: int| e3(a, b, c, k, i, j, l));
}

/// `(a (b c))_k`, over the integers, is the triple sum.
proof fn lemma_right_triple(a: Seq<int>, b: Seq<int>, c: Seq<int>, k: int)
    requires
        0 <= k < 8,
    ensures
        conv(a, prod_seq(b, c), k) == triple(a, b, c, k),
{
    let bc = prod_seq(b, c);
    assert forall|i: int| 0 <= i < 8 implies #[trigger] row(a, bc, k, i) == elj(a, b, c, k, i) by {
        assert forall|n: int| 0 <= n < 8 implies #[trigger] (a[i] * bc[n] * wt(i, n, k)) == u_jl(a, b, c, k, i, n) by {
            lemma_right_term(a, b, c, k, i, n);
        }
        lemma_sum8_congr(|n: int| a[i] * bc[n] * wt(i, n, k), |n: int| u_jl(a, b, c, k, i, n));
        let g = |n: int, j: int| u_l(a, b, c, k, i, j, n);
        lemma_sum8_swap(g);
        assert forall|n: int| 0 <= n < 8 implies #[trigger] u_jl(a, b, c, k, i, n) == sum8(|j: int| g(n, j)) by {
            lemma_sum8_congr(|j: int| u_l(a, b, c, k, i, j, n), |j: int| g(n, j));
        }
        lemma_sum8_congr(|n: int| u_jl(a, b, c, k, i, n), |n: int| sum8(|j: int| g(n, j)));
        assert forall|j: int| 0 <= j < 8 implies sum8(|n: int| g(n, j)) == #[trigger] el(a, b, c, k, i, j) by {
            lemma_sum8_congr(|n: int| g(n, j), |n: int| u_l(a, b, c, k, i, j, n));
            lemma_nj_value(a, b, c, k, i, j);
        }
        lemma_sum8_congr(|j: int| sum8(|n: int| g(n, j)), |j: int| el(a, b, c, k, i, j));
    }
    lemma_sum8_congr(|i: int| row(a, bc, k, i), |i: int| elj(a, b, c, k, i));
}

/// The product of the extension is commutative.
pub proof fn lemma_ext_mul_commutative(a: Seq<nat>, b: Seq<nat>)
    ensures
        ext_mul(a, b) == ext_mul(b, a),
{
    assert forall|k: int| 0 <= k < 8 implies #[trigger] ext_mul(a, b)[k] == ext_mul(b, a)[k] by {
        lemma_ext_mul_conv(a, b, k);
        lemma_ext_mul_conv(b, a, k);
        lemma_conv_commutes(ints(a), ints(b), k);
    }
    assert(ext_mul(a, b) =~= ext_mul(b, a));
}

proof fn lemma_product_congruent(a: Seq<nat>, b: Seq<nat>)
    ensures
        forall|m: int| 0 <= m < 8 ==> #[trigger] ints(ext_mul(a, b))[m] % (P as int) == prod_seq(ints(a), ints(b))[m] % (P as int),
{
    assert forall|m: int| 0 <= m < 8 implies #[trigger] ints(ext_mul(a, b))[m] % (P as int) == prod_seq(ints(a), ints(b))[m] % (P as int) by {
        lemma_ext_mul_conv(a, b, m);
        vstd::arithmetic::div_mod::lemma_mod_twice(conv(ints(a), ints(b), m), P as int);
    }
}

/// The product of the extension is associative.
pub proof fn lemma_ext_mul_associative(a: Seq<nat>, b: Seq<nat>, c: Seq<nat>)
    ensures
        ext_mul(ext_mul(a, b), c) == ext_mul(a, ext_mul(b, c)),
{
    let p = P as int;
    let (ia, ib, ic) = (ints(a), ints(b), ints(c));
    lemma_product_congruent(a, b);
    lemma_product_congruent(b, c);
    assert forall|k: int| 0 <= k < 8 implies #[trigger] ext_mul(ext_mul(a, b), c)[k] == ext_mul(a, ext_mul(b, c))[k] by {
        lemma_ext_mul_conv(ext_mul(a, b), c, k);
        lemma_ext_mul_conv(a, ext_mul(b, c), k);
        lemma_conv_congruent(ints(ext_mul(a, b)), prod_seq(ia, ib), ic, k);
        lemma_left_triple(ia, ib, ic, k);
        lemma_conv_commutes(ia, ints(ext_mul(b, c)), k);
        lemma_conv_congruent(ints(ext_mul(b, c)), prod_seq(ib, ic), ia, k);
        lemma_conv_commutes(prod_seq(ib, ic), ia, k);
        lemma_right_triple(ia, ib, ic, k);
    }
    assert(ext_mul(ext_mul(a, b), c) =~= ext_mul(a, ext_mul(b, c)));
}

/// Multiplying by an inverse and then by the element gives back what was
/// multiplied: if `s * inv == 1` then `(x * inv) * s == x`.
pub proof fn lemma_ext_mul_inverse_cancel(x: Seq<nat>, s: Seq<nat>, inv: Seq<nat>)
    requires
        is_ext(x),
        ext_mul(s, inv) == ext_one(),
    ensures
        ext_mul(ext_mul(x, inv), s) == x,
{
    lemma_ext_mul_associative(x, inv, s);
    lemma_ext_mul_commutative(inv, s);
    lemma_ext_mul_one_zero(x);
}

/// An inverse is unique: if `a * b == 1` then `b` is the inverse of `a`.
pub proof fn lemma_ext_inv_unique(a: Seq<nat>, b: Seq<nat>)
    requires
        is_ext(b),
        ext_mul(a, b) == ext_one(),
    ensures
        ext_inv(a) == b,
{
    reveal(ext_inv);
    let c = choose|c: Seq<nat>| is_ext(c) && #[trigger] ext_mul(a, c) == ext_one();
    assert(is_ext(c) && ext_mul(a, c) == ext_one());
    // b = b (a c) = (b a) c = (a b) c = c
    lemma_ext_mul_one_zero(b);
    lemma_ext_mul_associative(b, a, c);
    lemma_ext_mul_commutative(b, a);
    lemma_ext_mul_commutative(ext_one(), c);
    lemma_ext_mul_one_zero(c);
}

/// The pointwise sum and difference of integer coordinates.
spec fn seq_add(y: Seq<int>, z: Seq<int>) -> Seq<int> {
    Seq::new(8, |j: int| y[j] + z[j])
}

spec fn seq_sub(y: Seq<int>, z: Seq<int>) -> Seq<int> {
    Seq::new(8, |j: int| y[j] - z[j])
}

proof fn lemma_row_add_sub(x: Seq<int>, y: Seq<int>, z: Seq<int>, k: int, i: int)
    ensures
        row(x, seq_add(y, z), k, i) == row(x, y, k, i) + row(x, z, k, i),
        row(x, seq_sub(y, z), k, i) == row(x, y, k, i) - row(x, z, k, i),
{
    let f = |j: int| x[i] * y[j] * wt(i, j, k);
    let g = |j: int| x[i] * z[j] * wt(i, j, k);
    let ng = |j: int| g(j) * -1;
    lemma_sum8_add(f, g);
    lemma_sum8_add(f, ng);
    lemma_sum8_scale(g, -1);
    assert forall|j: int| 0 <= j < 8 implies #[trigger] (x[i] * seq_add(y, z)[j] * wt(i, j, k)) == f(j) + g(j) by {
        let (a, b, c, w) = (x[i], y[j], z[j], wt(i, j, k));
        assert(a * (b + c) * w == a * b * w + a * c * w) by (nonlinear_arith);
    }
    assert forall|j: int| 0 <= j < 8 implies #[trigger] (x[i] * seq_sub(y, z)[j] * wt(i, j, k)) == f(j) + ng(j) by {
        let (a, b, c, w) = (x[i], y[j], z[j], wt(i, j, k));
        assert(a * (b - c) * w == a * b * w + (a * c * w) * -1) by (nonlinear_arith);
    }
    lemma_sum8_congr(|j: int| x[i] * seq_add(y, z)[j] * wt(i, j, k), |j: int| f(j) + g(j));
    lemma_sum8_congr(|j: int| x[i] * seq_sub(y, z)[j] * wt(i, j, k), |j: int| f(j) + ng(j));
}

proof fn lemma_conv_add_sub(x: Seq<int>, y: Seq<int>, z: Seq<int>, k: int)
    ensures
        conv(x, seq_add(y, z), k) == conv(x, y, k) + conv(x, z, k),
        conv(x, seq_sub(y, z), k) == conv(x, y, k) - conv(x, z, k),
{
    let r1 = |i: int| row(x, y, k, i);
    let r2 = |i: int| row(x, z, k, i);
    let n2 = |i: int| r2(i) * -1;
    assert forall|i: int| 0 <= i < 8 implies #[trigger] row(x, seq_add(y, z), k, i) == r1(i) + r2(i) by {
        lemma_row_add_sub(x, y, z, k, i);
    }
    assert forall|i: int| 0 <= i < 8 implies #[trigger] row(x, seq_sub(y, z), k, i) == r1(i) + n2(i) by {
        lemma_row_add_sub(x, y, z, k, i);
    }
    lemma_sum8_add(r1, r2);
    lemma_sum8_add(r1, n2);
    lemma_sum8_scale(r2, -1);
    lemma_sum8_congr(|i: int| row(x, seq_add(y, z), k, i), |i: int| r1(i) + r2(i));
    lemma_sum8_congr(|i: int| row(x, seq_sub(y, z), k, i), |i: int| r1(i) + n2(i));
}

/// Congruent right factors give congruent integer products.
proof fn lemma_conv_congruent_right(a: Seq<int>, x: Seq<int>, y: Seq<int>, k: int)
    requires
        forall|m: int| 0 <= m < 8 ==> #[trigger] x[m] % (P as int) == y[m] % (P as int),
    ensures
        conv(a, x, k) % (P as int) == conv(a, y, k) % (P as int),
{
    lemma_conv_commutes(a, x, k);
    lemma_conv_commutes(a, y, k);
    lemma_conv_congruent(x, y, a, k);
}

/// The product distributes over sums and differences:
/// `a (b + c) == a b + a c` and `a (b - c) == a b - a c`.
pub proof fn lemma_ext_mul_distributes(a: Seq<nat>, b: Seq<nat>, c: Seq<nat>)
    ensures
        ext_mul(a, ext_add(b, c)) == ext_add(ext_mul(a, b), ext_mul(a, c)),
        ext_mul(a, ext_sub(b, c)) == ext_sub(ext_mul(a, b), ext_mul(a, c)),
{
    let p = P as int;
    let (ia, ib, ic) = (ints(a), ints(b), ints(c));
    assert forall|m: int| 0 <= m < 8 implies #[trigger] ints(ext_add(b, c))[m] % p == seq_add(ib, ic)[m] % p && ints(
        ext_sub(b, c),
    )[m] % p == seq_sub(ib, ic)[m] % p by {
        vstd::arithmetic::div_mod::lemma_mod_twice((b[m] + c[m]) as int, p);
        vstd::arithmetic::div_mod::lemma_mod_twice(b[m] - c[m], p);
    }
    assert forall|k: int| 0 <= k < 8 implies #[trigger] ext_mul(a, ext_add(b, c))[k] == ext_add(ext_mul(a, b), ext_mul(a, c))[k] by {
        lemma_ext_mul_conv(a, ext_add(b, c), k);
        lemma_ext_mul_conv(a, ext_sub(b, c), k);
        lemma_ext_mul_conv(a, b, k);
        lemma_ext_mul_conv(a, c, k);
        lemma_conv_congruent_right(ia, ints(ext_add(b, c)), seq_add(ib, ic), k);
        lemma_conv_congruent_right(ia, ints(ext_sub(b, c)), seq_sub(ib, ic), k);
        lemma_conv_add_sub(ia, ib, ic, k);
        vstd::arithmetic::div_mod::lemma_add_mod_noop(conv(ia, ib, k), conv(ia, ic, k), p);
        vstd::arithmetic::div_mod::lemma_sub_mod_noop(conv(ia, ib, k), conv(ia, ic, k), p);
    }
    assert forall|k: int| 0 <= k < 8 implies #[trigger] ext_mul(a, ext_sub(b, c))[k] == ext_sub(ext_mul(a, b), ext_mul(a, c))[k] by {
        lemma_ext_mul_conv(a, ext_add(b, c), k);
        lemma_ext_mul_conv(a, ext_sub(b, c), k);
        lemma_ext_mul_conv(a, b, k);
        lemma_ext_mul_conv(a, c, k);
        lemma_conv_congruent_right(ia, ints(ext_add(b, c)), seq_add(ib, ic), k);
        lemma_conv_congruent_right(ia, ints(ext_sub(b, c)), seq_sub(ib, ic), k);
        lemma_conv_add_sub(ia, ib, ic, k);
        vstd::arithmetic::div_mod::lemma_add_mod_noop(conv(ia, ib, k), conv(ia, ic, k), p);
        vstd::arithmetic::div_mod::lemma_sub_mod_noop(conv(ia, ib, k), conv(ia, ic, k), p);
    }
    assert(ext_mul(a, ext_add(b, c)) =~= ext_add(ext_mul(a, b), ext_mul(a, c)));
    assert(ext_mul(a, ext_sub(b, c)) =~= ext_sub(ext_mul(a, b), ext_mul(a, c)));
}

} // verus!
