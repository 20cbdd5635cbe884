//! Lagrange interpolation on the grid `{0, 1, ..., m - 1}` by barycentric
//! weights.
use vstd::prelude::*;
use crate::field::{Fp, P, fadd, fmul, fsub, finv, modp, fp_views, lemma_fp_view_lt, lemma_finv_unique, lemma_finv_zero, lemma_finv_lt};
use crate::extension::{
    Ext, ext_from_base, ext_mul, ext_one, ext_scale, ext_sub, ext_views, ext_zero, is_ext,
    lemma_ext_view_wf, lemma_ext_mul_base, lemma_ext_scale_from_base, lemma_ext_sub_base,
    lemma_ext_mul_one_zero, ext_mul_coeff, lemma_ext_mul_from_base,
};
use crate::ring::{lemma_ext_mul_associative, lemma_ext_mul_commutative};

verus! {

broadcast use {lemma_fp_view_lt, lemma_ext_view_wf};

/// `i!` modulo `p`.
pub open spec fn fact(i: nat) -> nat
    decreases i,
{
    if i == 0 {
        1
    } else {
        fmul(fact((i - 1) as nat) as int, modp(i as int) as int)
    }
}

/// `(-1)^(m - 1 - i)` in the field.
pub open spec fn weight_sign(m: nat, i: nat) -> nat {
    if (m - 1 - i) % 2 == 0 {
        1
    } else {
        (P - 1) as nat
    }
}

/// The barycentric weight of point `i` of the grid `{0, ..., m - 1}`:
/// `(-1)^(m - 1 - i) / (i! * (m - 1 - i)!)`.
pub open spec fn weight(m: nat, i: nat) -> nat {
    fmul(
        weight_sign(m, i) as int,
        finv(fmul(fact(i) as int, fact((m - 1 - i) as nat) as int) as int) as int,
    )
}

/// All barycentric weights of the grid `{0, ..., m - 1}`.
pub open spec fn weights(m: nat) -> Seq<nat> {
    Seq::new(m, |i: int| weight(m, i as nat))
}

/// The precomputed weights for `m` in `{2, 4, 8, 16}`.
pub open spec fn weight_table(m: nat) -> Seq<nat> {
    if m == 0 {
        seq![]
    } else if m == 2 {
        seq![2130706432nat, 1nat]
    } else if m == 4 {
        seq![1775588694nat, 1065353217nat, 1065353216nat, 355117739nat]
    } else if m == 8 {
        seq![413035751nat, 1370162609nat, 150925039nat, 458693746nat, 1672012687nat, 1979781394nat, 760543824nat, 1717670682nat]
    } else if m == 16 {
        seq![1296489123nat, 1859727485nat, 1896852636nat, 303130976nat, 1221313505nat, 1574523155nat, 926972130nat, 938885123nat, 1191821310nat, 1203734303nat, 556183278nat, 909392928nat, 1827575457nat, 233853797nat, 270978948nat, 834217310nat]
    } else {
        seq![]
    }
}

proof fn lemma_fact_values()
    ensures
        fact(0) == 1,
        fact(1) == 1,
        fact(2) == 2,
        fact(3) == 6,
        fact(4) == 24,
        fact(5) == 120,
        fact(6) == 720,
        fact(7) == 5040,
        fact(8) == 40320,
        fact(9) == 362880,
        fact(10) == 3628800,
        fact(11) == 39916800,
        fact(12) == 479001600,
        fact(13) == 1965607934,
        fact(14) == 1950033880,
        fact(15) == 1551324571,
{
    assert(fact(0) == 1);
    assert(modp(1) == 1);
    assert(fmul(1, 1) == 1);
    assert(fact(1) == 1);
    assert(fact(2) == 2);
    assert(fact(3) == 6);
    assert(fact(4) == 24);
    assert(fact(5) == 120);
    assert(fact(6) == 720);
    assert(fact(7) == 5040);
    assert(fact(8) == 40320);
    assert(fact(9) == 362880);
    assert(fact(10) == 3628800);
    assert(fact(11) == 39916800);
    assert(fact(12) == 479001600);
    assert(fact(13) == 1965607934);
    assert(fact(14) == 1950033880);
    assert(fact(15) == 1551324571);
}

proof fn lemma_weight_entry(m: nat, i: nat, fi: nat, fj: nat, d: nat, u: nat, sg: nat, t: nat)
    requires
        i < m,
        u < P,
        fact(i) == fi,
        fact((m - 1 - i) as nat) == fj,
        fmul(fi as int, fj as int) == d,
        fmul(d as int, u as int) == 1,
        weight_sign(m, i) == sg,
        fmul(sg as int, u as int) == t,
    ensures
        weight(m, i) == t,
{
    lemma_finv_unique(fmul(fact(i) as int, fact((m - 1 - i) as nat) as int) as int, u);
}

proof fn lemma_weight_table_2()
    ensures
        weight_table(2) == weights(2),
{
    lemma_fact_values();
    lemma_weight_entry(2, 0, 1, 1, 1, 1, 2130706432, 2130706432);
    lemma_weight_entry(2, 1, 1, 1, 1, 1, 1, 1);
    assert(weight_table(2) =~= weights(2));
}

proof fn lemma_weight_table_4()
    ensures
        weight_table(4) == weights(4),
{
    lemma_fact_values();
    lemma_weight_entry(4, 0, 1, 6, 6, 355117739, 2130706432, 1775588694);
    lemma_weight_entry(4, 1, 1, 2, 2, 1065353217, 1, 1065353217);
    lemma_weight_entry(4, 2, 2, 1, 2, 1065353217, 2130706432, 1065353216);
    lemma_weight_entry(4, 3, 6, 1, 6, 355117739, 1, 355117739);
    assert(weight_table(4) =~= weights(4));
}

proof fn lemma_weight_table_8()
    ensures
        weight_table(8) == weights(8),
{
    lemma_fact_values();
    lemma_weight_entry(8, 0, 1, 5040, 5040, 1717670682, 2130706432, 413035751);
    lemma_weight_entry(8, 1, 1, 720, 720, 1370162609, 1, 1370162609);
    lemma_weight_entry(8, 2, 2, 120, 240, 1979781394, 2130706432, 150925039);
    lemma_weight_entry(8, 3, 6, 24, 144, 458693746, 1, 458693746);
    lemma_weight_entry(8, 4, 24, 6, 144, 458693746, 2130706432, 1672012687);
    lemma_weight_entry(8, 5, 120, 2, 240, 1979781394, 1, 1979781394);
    lemma_weight_entry(8, 6, 720, 1, 720, 1370162609, 2130706432, 760543824);
    lemma_weight_entry(8, 7, 5040, 1, 5040, 1717670682, 1, 1717670682);
    assert(weight_table(8) =~= weights(8));
}

proof fn lemma_weight_table_16()
    ensures
        weight_table(16) == weights(16),
{
    lemma_fact_values();
    lemma_weight_entry(16, 0, 1, 1551324571, 1551324571, 834217310, 2130706432, 1296489123);
    lemma_weight_entry(16, 1, 1, 1950033880, 1950033880, 1859727485, 1, 1859727485);
    lemma_weight_entry(16, 2, 2, 1965607934, 1800509435, 233853797, 2130706432, 1896852636);
    lemma_weight_entry(16, 3, 6, 479001600, 743303167, 303130976, 1, 303130976);
    lemma_weight_entry(16, 4, 24, 39916800, 958003200, 909392928, 2130706432, 1221313505);
    lemma_weight_entry(16, 5, 120, 3628800, 435456000, 1574523155, 1, 1574523155);
    lemma_weight_entry(16, 6, 720, 362880, 261273600, 1203734303, 2130706432, 926972130);
    lemma_weight_entry(16, 7, 5040, 40320, 203212800, 938885123, 1, 938885123);
    lemma_weight_entry(16, 8, 40320, 5040, 203212800, 938885123, 2130706432, 1191821310);
    lemma_weight_entry(16, 9, 362880, 720, 261273600, 1203734303, 1, 1203734303);
    lemma_weight_entry(16, 10, 3628800, 120, 435456000, 1574523155, 2130706432, 556183278);
    lemma_weight_entry(16, 11, 39916800, 24, 958003200, 909392928, 1, 909392928);
    lemma_weight_entry(16, 12, 479001600, 6, 743303167, 303130976, 2130706432, 1827575457);
    lemma_weight_entry(16, 13, 1965607934, 2, 1800509435, 233853797, 1, 233853797);
    lemma_weight_entry(16, 14, 1950033880, 1, 1950033880, 1859727485, 2130706432, 270978948);
    lemma_weight_entry(16, 15, 1551324571, 1, 1551324571, 834217310, 1, 834217310);
    assert(weight_table(16) =~= weights(16));
}

/// The precomputed weights are the barycentric weights.
pub proof fn lemma_weight_table(m: nat)
    requires
        m == 2 || m == 4 || m == 8 || m == 16,
    ensures
        weight_table(m) == weights(m),
{
    if m == 2 {
        lemma_weight_table_2();
    } else if m == 4 {
        lemma_weight_table_4();
    } else if m == 8 {
        lemma_weight_table_8();
    } else {
        lemma_weight_table_16();
    }
}

/// `prod_{j < n, j != i} (i - j)` in the base field: the denominator of the
/// Lagrange basis polynomial of point `i` of the grid `{0, ..., n - 1}`.
pub open spec fn grid_denominator(i: nat, n: nat) -> nat
    decreases n,
{
    if n == 0 {
        1
    } else if n - 1 == i {
        grid_denominator(i, (n - 1) as nat)
    } else {
        fmul(grid_denominator(i, (n - 1) as nat) as int, i - (n - 1))
    }
}

proof fn lemma_grid_denominator_lt(i: nat, n: nat)
    ensures
        grid_denominator(i, n) < P,
    decreases n,
{
    if n > 0 && n - 1 == i {
        lemma_grid_denominator_lt(i, (n - 1) as nat);
    }
}

proof fn lemma_fact_lt(i: nat)
    ensures
        fact(i) < P,
{
}

/// Below `i`, the denominator is a falling factorial:
/// `prod_{j < n} (i - j) * (i - n)! == i!`.
proof fn lemma_grid_denominator_low(i: nat, n: nat)
    requires
        n <= i,
    ensures
        fmul(grid_denominator(i, n) as int, fact((i - n) as nat) as int) == fact(i),
    decreases n,
{
    let p = P as int;
    lemma_fact_lt(i);
    if n == 0 {
        let f = fact(i) as int;
        assert(1 * f == f) by (nonlinear_arith);
        vstd::arithmetic::div_mod::lemma_small_mod(fact(i), P as nat);
        assert(grid_denominator(i, 0) == 1);
    } else {
        lemma_grid_denominator_low(i, (n - 1) as nat);
        let g = grid_denominator(i, (n - 1) as nat) as int;
        let c = i - (n - 1);
        let f = fact((i - n) as nat) as int;
        // fact(i - n + 1) == fmul(f, c)
        assert(fact((i - (n - 1)) as nat) == fmul(f, modp(c) as int));
        vstd::arithmetic::div_mod::lemma_mul_mod_noop_right(f, c, p);
        // (g * c % p) * f % p == g * (f * c % p) % p
        vstd::arithmetic::div_mod::lemma_mul_mod_noop_left(g * c, f, p);
        vstd::arithmetic::div_mod::lemma_mul_mod_noop_right(g, f * c, p);
        assert(g * c * f == g * (f * c)) by (nonlinear_arith);
    }
}

/// The sign `(-1)^(m - 1 - i)` flips when `m` grows by one.
proof fn lemma_sign_step(m: nat, i: nat)
    requires
        i < m,
    ensures
        weight_sign(m + 1, i) == fmul(weight_sign(m, i) as int, -1),
{
    assert(((m + 1 - 1 - i) as int) % 2 != ((m - 1 - i) as int) % 2);
}

proof fn lemma_grid_denominator_at(i: nat)
    ensures
        grid_denominator(i, i + 1) == fmul(fmul(weight_sign(i + 1, i) as int, fact(i) as int) as int, fact(0) as int),
{
    lemma_grid_denominator_low(i, i);
    lemma_grid_denominator_lt(i, i);
    lemma_fact_lt(i);
    vstd::arithmetic::div_mod::lemma_small_mod(grid_denominator(i, i), P as nat);
    vstd::arithmetic::div_mod::lemma_small_mod(fact(i), P as nat);
    let g = grid_denominator(i, i) as int;
    let f = fact(i) as int;
    let sg = weight_sign(i + 1, i) as int;
    let f0 = fact(0) as int;
    assert(sg == 1);
    assert(f0 == 1);
    assert(g * f0 == g && sg * f == f && f * f0 == f) by (nonlinear_arith)
        requires
            sg == 1,
            f0 == 1,
    ;
}

/// Above `i`, `prod_{j < n, j != i} (i - j) == (-1)^(n - 1 - i) * i! * (n - 1 - i)!`.
proof fn lemma_grid_denominator_high(i: nat, n: nat)
    requires
        i < n,
    ensures
        grid_denominator(i, n) == fmul(fmul(weight_sign(n, i) as int, fact(i) as int) as int, fact((n - 1 - i) as nat) as int),
    decreases n,
{
    let p = P as int;
    lemma_fact_lt(i);
    if n == i + 1 {
        lemma_grid_denominator_at(i);
    } else {
        let n0 = (n - 1) as nat;
        lemma_grid_denominator_high(i, n0);
        lemma_sign_step(n0, i);
        let s0 = weight_sign(n0, i) as int;
        let fi = fact(i) as int;
        let t: int = n0 - 1 - i;
        let ft = fact(t as nat) as int;
        let d = i - n0;
        assert(d == -(t + 1));
        assert(fact((t + 1) as nat) == fmul(ft, modp(t + 1) as int));
        assert((n - 1 - i) as nat == (t + 1) as nat);
        // Both sides are s0 * fi * ft * d modulo p.
        let lhs_int = s0 * fi * ft * d;
        vstd::arithmetic::div_mod::lemma_mul_mod_noop_left(s0 * fi, ft, p);
        vstd::arithmetic::div_mod::lemma_mul_mod_noop_left(s0 * fi * ft, d, p);
        assert(grid_denominator(i, n) == lhs_int % p);
        let s1 = weight_sign(n, i) as int;
        vstd::arithmetic::div_mod::lemma_mul_mod_noop_right(s0, -1, p);
        assert(s1 == (s0 * -1) % p);
        vstd::arithmetic::div_mod::lemma_mul_mod_noop_right(ft, t + 1, p);
        vstd::arithmetic::div_mod::lemma_mul_mod_noop_left(s1 * fi, ft * (t + 1), p);
        vstd::arithmetic::div_mod::lemma_mul_mod_noop_right((s1 * fi) % p, ft * (t + 1), p);
        vstd::arithmetic::div_mod::lemma_mul_mod_noop_left(s0 * -1, fi * (ft * (t + 1)), p);
        assert((s1 * fi) * (ft * (t + 1)) == s1 * (fi * (ft * (t + 1)))) by (nonlinear_arith);
        vstd::arithmetic::div_mod::lemma_mul_mod_noop_left(s1, fi * (ft * (t + 1)), p);
        assert((s0 * -1) * (fi * (ft * (t + 1))) == lhs_int) by (nonlinear_arith)
            requires
                lhs_int == s0 * fi * ft * d,
                d == -(t + 1),
        ;
        assert(((s1 * fi) * (ft * (t + 1))) % p == (s1 * (fi * (ft * (t + 1)))) % p);
        assert((s1 * (fi * (ft * (t + 1)))) % p == ((s0 * -1) * (fi * (ft * (t + 1)))) % p);
    }
}

/// The weight of a point is the inverse of its denominator:
/// `w_i = 1 / prod_{j != i} (i - j)`, as the barycentric formula
/// `L_i(x) = w_i * prod_{j != i} (x - j)` needs.
pub proof fn lemma_weight_is_inverse_denominator(m: nat, i: nat)
    requires
        i < m,
    ensures
        weight(m, i) == finv(grid_denominator(i, m) as int),
{
    let p = P as int;
    let sg = weight_sign(m, i) as int;
    let fi = fact(i) as int;
    let ft = fact((m - 1 - i) as nat) as int;
    let d = fmul(fi, ft) as int;
    lemma_grid_denominator_high(i, m);
    // grid_denominator(i, m) == fmul(sg, d)
    vstd::arithmetic::div_mod::lemma_mul_mod_noop_left(sg * fi, ft, p);
    vstd::arithmetic::div_mod::lemma_mul_mod_noop_right(sg, fi * ft, p);
    assert(sg * fi * ft == sg * (fi * ft)) by (nonlinear_arith);
    assert(grid_denominator(i, m) == fmul(sg, d));
    lemma_finv_of_signed(sg, d);
}

/// `1 / (s * d) == s * (1 / d)` for a sign `s`, also where `d` has no inverse.
proof fn lemma_finv_of_signed(s: int, d: int)
    requires
        s == 1 || s == P - 1,
        0 <= d < P,
    ensures
        finv(fmul(s, d) as int) == fmul(s, finv(d) as int),
{
    let p = P as int;
    lemma_finv_lt(d);
    if s == 1 {
        vstd::arithmetic::div_mod::lemma_small_mod(d as nat, P as nat);
        vstd::arithmetic::div_mod::lemma_small_mod(finv(d), P as nat);
    } else {
        let nd = fmul(s, d) as int;
        if exists|b: nat| b < P && #[trigger] fmul(d, b as int) == 1 {
            let u = choose|b: nat| b < P && #[trigger] fmul(d, b as int) == 1;
            lemma_finv_unique(d, u);
            let v = fmul(s, u as int);
            // nd * v == d * u (mod p), since s * s == 1 (mod p)
            vstd::arithmetic::div_mod::lemma_mul_mod_noop_left(s * d, v as int, p);
            vstd::arithmetic::div_mod::lemma_mul_mod_noop_right(s * d, s * u, p);
            assert((s * d) * (s * u) == (s * s) * (d * u)) by (nonlinear_arith);
            assert(s * s == (p - 2) * p + 1) by (nonlinear_arith)
                requires
                    s == p - 1,
            ;
            vstd::arithmetic::div_mod::lemma_mul_mod_noop_left(s * s, d * u, p);
            vstd::arithmetic::div_mod::lemma_mod_multiples_vanish(p - 2, 1, p);
            assert((s * s) % p == 1);
            assert((d * u) % p == 1);
            assert(((s * s) * (d * u)) % p == (1 * (d * u)) % p);
            assert(((s * d) * (s * u)) % p == 1);
            assert(((s * d) % p * ((s * u) % p)) % p == 1);
            assert(fmul(nd, v as int) == 1);
            lemma_finv_unique(nd, v);
        } else {
            reveal(finv);
            assert(finv(d) == 0);
            assert forall|b: nat| b < P implies #[trigger] fmul(nd, b as int) != 1 by {
                if fmul(nd, b as int) == 1 {
                    let v = fmul(s, b as int);
                    vstd::arithmetic::div_mod::lemma_mul_mod_noop_left(s * d, b as int, p);
                    vstd::arithmetic::div_mod::lemma_mul_mod_noop_right(d, s * b, p);
                    assert((s * d) * b == d * (s * b)) by (nonlinear_arith);
                    assert(fmul(d, v as int) == 1);
                }
            }
            assert(fmul(s, 0) == 0);
        }
    }
}

/// Barycentric weights for Lagrange interpolation on `{0, 1, ..., m - 1}`:
/// weight `i` is `(-1)^(m - 1 - i) / (i! * (m - 1 - i)!)`.
pub fn barycentric_weights(m: usize) -> (r: Vec<Fp>)
    requires
        m <= P,
    ensures
        fp_views(r@) == weights(m as nat),
{
    if m == 1 {
        proof {
            lemma_finv_unique(1, 1);
            assert(fact(0) == 1);
        }
        let r = vec![Fp::one()];
        assert(fp_views(r@) =~= weights(1));
        return r;
    }
    if m == 0 {
        let r: Vec<Fp> = Vec::new();
        assert(fp_views(r@) =~= weights(0));
        return r;
    }
    let mut factorial: Vec<Fp> = Vec::new();
    factorial.push(Fp::one());
    for i in 1..m
        invariant
            factorial@.len() == i,
            forall|j: int| 0 <= j < i ==> #[trigger] factorial@[j]@ == fact(j as nat),
    {
        let f = factorial[i - 1].mul(Fp::from_usize(i));
        factorial.push(f);
    }
    let mut out: Vec<Fp> = Vec::new();
    for i in 0..m
        invariant
            factorial@.len() == m,
            forall|j: int| 0 <= j < m ==> #[trigger] factorial@[j]@ == fact(j as nat),
            out@.len() == i,
            forall|j: int| 0 <= j < i ==> #[trigger] out@[j]@ == weight(m as nat, j as nat),
    {
        let sign = if (m - 1 - i) % 2 == 0 { Fp::one() } else { Fp::neg_one() };
        let denom = factorial[i].mul(factorial[m - 1 - i]);
        let w = match denom.try_inverse() {
            Some(inv) => sign.mul(inv),
            None => {
                proof {
                    lemma_finv_zero();
                    assert(sign@ * 0 == 0);
                }
                Fp::zero()
            },
        };
        assert(w@ == weight(m as nat, i as nat));
        out.push(w);
    }
    assert(fp_views(out@) =~= weights(m as nat));
    out
}

fn weights_from_table(t: &[u64]) -> (r: Vec<Fp>)
    requires
        forall|j: int| 0 <= j < t@.len() ==> #[trigger] t@[j] < P,
    ensures
        fp_views(r@) == t@.map_values(|x: u64| x as nat),
{
    let mut out: Vec<Fp> = Vec::new();
    for j in 0..t.len()
        invariant
            forall|j: int| 0 <= j < t@.len() ==> #[trigger] t@[j] < P,
            out@.len() == j,
            forall|u: int| 0 <= u < j ==> #[trigger] out@[u]@ == t@[u],
    {
        out.push(Fp::from_u64(t[j]));
    }
    assert(fp_views(out@) =~= t@.map_values(|x: u64| x as nat));
    out
}

/// The barycentric weights, read from precomputed tables for `m` in
/// `{2, 4, 8, 16}` and computed otherwise.
pub fn barycentric_weights_precomputed(m: usize) -> (r: Vec<Fp>)
    requires
        m <= P,
    ensures
        fp_views(r@) == weights(m as nat),
{
    if m == 2 || m == 4 || m == 8 || m == 16 {
        proof {
            lemma_weight_table(m as nat);
        }
        let t: Vec<u64> = if m == 2 {
            vec![2130706432, 1]
        } else if m == 4 {
            vec![1775588694, 1065353217, 1065353216, 355117739]
        } else if m == 8 {
            vec![413035751, 1370162609, 150925039, 458693746, 1672012687, 1979781394, 760543824, 1717670682]
        } else {
            vec![1296489123, 1859727485, 1896852636, 303130976, 1221313505, 1574523155, 926972130, 938885123, 1191821310, 1203734303, 556183278, 909392928, 1827575457, 233853797, 270978948, 834217310]
        };
        assert(t@.map_values(|x: u64| x as nat) =~= weight_table(m as nat));
        weights_from_table(t.as_slice())
    } else {
        barycentric_weights(m)
    }
}


/// The grid point `j` of the extension: the embedding of `j mod p`.
pub open spec fn ext_grid(j: int) -> Seq<nat> {
    ext_from_base(modp(j))
}

/// `prod_{j < k} (x - j)` in the extension.
pub open spec fn ext_prefix(x: Seq<nat>, k: int) -> Seq<nat>
    decreases k,
{
    if k <= 0 {
        ext_one()
    } else {
        ext_mul(ext_prefix(x, k - 1), ext_sub(x, ext_grid(k - 1)))
    }
}

/// `prod_{k <= j < m} (x - j)` in the extension, taken from the top down.
pub open spec fn ext_suffix(x: Seq<nat>, m: int, k: int) -> Seq<nat>
    decreases m - k,
{
    if k >= m {
        ext_one()
    } else {
        ext_mul(ext_suffix(x, m, k + 1), ext_sub(x, ext_grid(k)))
    }
}

/// The first `j` in `[i, m)` with `x == j`, or `m` if there is none.
pub open spec fn ext_grid_index(x: Seq<nat>, m: int, i: int) -> int
    decreases m - i,
{
    if i >= m {
        m
    } else if x == ext_grid(i) {
        i
    } else {
        ext_grid_index(x, m, i + 1)
    }
}

/// The list of length `m` with one at position `g` and zero elsewhere.
pub open spec fn ext_unit(m: nat, g: int) -> Seq<Seq<nat>> {
    Seq::new(m, |j: int| if j == g { ext_one() } else { ext_zero() })
}

/// The Lagrange basis of the grid `{0, ..., m - 1}` at `x`, given the
/// barycentric weights `w`: at a grid point the unit vector of that point,
/// elsewhere `L_i(x) = w_i * prod_{j != i} (x - j)`.
pub open spec fn lagrange_basis(m: nat, x: Seq<nat>, w: Seq<nat>) -> Seq<Seq<nat>> {
    if m == 1 {
        seq![ext_one()]
    } else if ext_grid_index(x, m as int, 0) < m {
        ext_unit(m, ext_grid_index(x, m as int, 0))
    } else {
        Seq::new(m, |i: int| ext_scale(ext_mul(ext_prefix(x, i), ext_suffix(x, m as int, i + 1)), w[i]))
    }
}

/// The grid point `j` of the base field.
pub open spec fn base_grid(j: int) -> nat {
    modp(j)
}

/// `prod_{j < k} (x - j)` in the base field.
pub open spec fn base_prefix(x: nat, k: int) -> nat
    decreases k,
{
    if k <= 0 {
        1
    } else {
        fmul(base_prefix(x, k - 1) as int, fsub(x as int, base_grid(k - 1) as int) as int)
    }
}

/// `prod_{k <= j < m} (x - j)` in the base field, taken from the top down.
pub open spec fn base_suffix(x: nat, m: int, k: int) -> nat
    decreases m - k,
{
    if k >= m {
        1
    } else {
        fmul(base_suffix(x, m, k + 1) as int, fsub(x as int, base_grid(k) as int) as int)
    }
}

/// The first `j` in `[i, m)` with `x == j mod p`, or `m` if there is none.
pub open spec fn base_grid_index(x: nat, m: int, i: int) -> int
    decreases m - i,
{
    if i >= m {
        m
    } else if x == base_grid(i) {
        i
    } else {
        base_grid_index(x, m, i + 1)
    }
}

/// The list of length `m` with one at position `g` and zero elsewhere.
pub open spec fn base_unit(m: nat, g: int) -> Seq<nat> {
    Seq::new(m, |j: int| if j == g { 1nat } else { 0nat })
}

/// The Lagrange basis of the grid `{0, ..., m - 1}` at a base-field point.
pub open spec fn lagrange_basis_base(m: nat, x: nat, w: Seq<nat>) -> Seq<nat> {
    if m == 1 {
        seq![1nat]
    } else if base_grid_index(x, m as int, 0) < m {
        base_unit(m, base_grid_index(x, m as int, 0))
    } else {
        Seq::new(
            m,
            |i: int| fmul(fmul(base_prefix(x, i) as int, base_suffix(x, m as int, i + 1) as int) as int, w[i] as int),
        )
    }
}

/// The differences `x - j`, the prefix products `prod_{j < k} (x - j)` and the
/// suffix products `prod_{j >= k} (x - j)` over the grid `{0, ..., m - 1}`.
#[allow(dead_code)]
fn compute_lagrange_products(m: usize, x: Ext) -> (r: (Vec<Ext>, Vec<Ext>, Vec<Ext>))
    requires
        m < usize::MAX,
    ensures
        r.0@.len() == m,
        forall|j: int| 0 <= j < m ==> #[trigger] r.0@[j]@ == ext_sub(x@, ext_grid(j)),
        r.1@.len() == m + 1,
        forall|k: int| 0 <= k <= m ==> #[trigger] r.1@[k]@ == ext_prefix(x@, k),
        r.2@.len() == m + 1,
        forall|k: int| 0 <= k <= m ==> #[trigger] r.2@[k]@ == ext_suffix(x@, m as int, k),
{
    let mut denom: Vec<Ext> = Vec::new();
    for j in 0..m
        invariant
            denom@.len() == j,
            forall|t: int| 0 <= t < j ==> #[trigger] denom@[t]@ == ext_sub(x@, ext_grid(t)),
    {
        denom.push(x.sub(Ext::from_usize(j)));
    }
    let (pref, suff) = prefix_suffix_from(m, x, &denom);
    (denom, pref, suff)
}

fn prefix_suffix_from(m: usize, x: Ext, denom: &Vec<Ext>) -> (r: (Vec<Ext>, Vec<Ext>))
    requires
        m < usize::MAX,
        denom@.len() == m,
        forall|j: int| 0 <= j < m ==> #[trigger] denom@[j]@ == ext_sub(x@, ext_grid(j)),
    ensures
        r.0@.len() == m + 1,
        forall|k: int| 0 <= k <= m ==> #[trigger] r.0@[k]@ == ext_prefix(x@, k),
        r.1@.len() == m + 1,
        forall|k: int| 0 <= k <= m ==> #[trigger] r.1@[k]@ == ext_suffix(x@, m as int, k),
{
    let mut pref: Vec<Ext> = Vec::new();
    pref.push(Ext::one());
    for k in 0..m
        invariant
            m < usize::MAX,
            denom@.len() == m,
            forall|j: int| 0 <= j < m ==> #[trigger] denom@[j]@ == ext_sub(x@, ext_grid(j)),
            pref@.len() == k + 1,
            forall|t: int| 0 <= t <= k ==> #[trigger] pref@[t]@ == ext_prefix(x@, t),
    {
        let next = pref[k].mul(denom[k]);
        pref.push(next);
    }
    let mut suff: Vec<Ext> = Vec::new();
    for k in 0..m + 1
        invariant
            suff@.len() == k,
            forall|t: int| 0 <= t < k ==> #[trigger] suff@[t]@ == ext_one(),
    {
        suff.push(Ext::one());
    }
    let mut k = m;
    while k > 0
        invariant
            k <= m,
            m < usize::MAX,
            denom@.len() == m,
            forall|j: int| 0 <= j < m ==> #[trigger] denom@[j]@ == ext_sub(x@, ext_grid(j)),
            suff@.len() == m + 1,
            forall|t: int| k <= t <= m ==> #[trigger] suff@[t]@ == ext_suffix(x@, m as int, t),
        decreases k,
    {
        k = k - 1;
        let next = suff[k + 1].mul(denom[k]);
        suff.set(k, next);
    }
    (pref, suff)
}

/// The prefix and suffix products of the differences `x - j` over the grid
/// `{0, ..., m - 1}`.
fn compute_prefix_suffix_products(m: usize, x: Ext) -> (r: (Vec<Ext>, Vec<Ext>))
    requires
        m < usize::MAX,
    ensures
        r.0@.len() == m + 1,
        forall|k: int| 0 <= k <= m ==> #[trigger] r.0@[k]@ == ext_prefix(x@, k),
        r.1@.len() == m + 1,
        forall|k: int| 0 <= k <= m ==> #[trigger] r.1@[k]@ == ext_suffix(x@, m as int, k),
{
    let mut denom: Vec<Ext> = Vec::new();
    for j in 0..m
        invariant
            denom@.len() == j,
            forall|t: int| 0 <= t < j ==> #[trigger] denom@[t]@ == ext_sub(x@, ext_grid(t)),
    {
        denom.push(x.sub(Ext::from_usize(j)));
    }
    prefix_suffix_from(m, x, &denom)
}

/// The prefix and suffix products of the differences `x - j` in the base field.
fn compute_prefix_suffix_products_base(m: usize, x: Fp) -> (r: (Vec<Fp>, Vec<Fp>))
    requires
        m < usize::MAX,
    ensures
        r.0@.len() == m + 1,
        forall|k: int| 0 <= k <= m ==> #[trigger] r.0@[k]@ == base_prefix(x@, k),
        r.1@.len() == m + 1,
        forall|k: int| 0 <= k <= m ==> #[trigger] r.1@[k]@ == base_suffix(x@, m as int, k),
{
    let mut denom: Vec<Fp> = Vec::new();
    for j in 0..m
        invariant
            denom@.len() == j,
            forall|t: int| 0 <= t < j ==> #[trigger] denom@[t]@ == fsub(x@ as int, base_grid(t) as int),
    {
        denom.push(x.sub(Fp::from_usize(j)));
    }
    let mut pref: Vec<Fp> = Vec::new();
    pref.push(Fp::one());
    for k in 0..m
        invariant
            m < usize::MAX,
            denom@.len() == m,
            forall|j: int| 0 <= j < m ==> #[trigger] denom@[j]@ == fsub(x@ as int, base_grid(j) as int),
            pref@.len() == k + 1,
            forall|t: int| 0 <= t <= k ==> #[trigger] pref@[t]@ == base_prefix(x@, t),
    {
        let next = pref[k].mul(denom[k]);
        pref.push(next);
    }
    let mut suff: Vec<Fp> = Vec::new();
    for k in 0..m + 1
        invariant
            suff@.len() == k,
            forall|t: int| 0 <= t < k ==> #[trigger] suff@[t]@ == 1,
    {
        suff.push(Fp::one());
    }
    let mut k = m;
    while k > 0
        invariant
            k <= m,
            m < usize::MAX,
            denom@.len() == m,
            forall|j: int| 0 <= j < m ==> #[trigger] denom@[j]@ == fsub(x@ as int, base_grid(j) as int),
            suff@.len() == m + 1,
            forall|t: int| k <= t <= m ==> #[trigger] suff@[t]@ == base_suffix(x@, m as int, t),
        decreases k,
    {
        k = k - 1;
        let next = suff[k + 1].mul(denom[k]);
        suff.set(k, next);
    }
    (pref, suff)
}

/// Evaluates all Lagrange basis polynomials of the grid `{0, ..., m - 1}` at
/// `x`: the unit vector of `x` when `x` is a grid point, and otherwise
/// `L_i(x) = w_i * prod_{j != i} (x - j)` with the weights `w`.
pub fn evaluate_lagrange_basis_all(m: usize, x: Ext, weights: &[Fp]) -> (r: Vec<Ext>)
    requires
        m < usize::MAX,
        m == 1 || ext_grid_index(x@, m as int, 0) < m || weights@.len() >= m,
    ensures
        ext_views(r@) == lagrange_basis(m as nat, x@, fp_views(weights@)),
{
    if m == 1 {
        let r = vec![Ext::one()];
        assert(ext_views(r@) =~= lagrange_basis(m as nat, x@, fp_views(weights@)));
        return r;
    }
    let mut i: usize = 0;
    while i < m
        invariant
            i <= m,
            m != 1,
            ext_grid_index(x@, m as int, 0) == ext_grid_index(x@, m as int, i as int),
        decreases m - i,
    {
        if x.equals(&Ext::from_usize(i)) {
            let mut result: Vec<Ext> = Vec::new();
            for j in 0..m
                invariant
                    result@.len() == j,
                    i < m,
                    forall|t: int| 0 <= t < j ==> #[trigger] result@[t]@ == (if t == i { ext_one() } else { ext_zero() }),
            {
                if j == i {
                    result.push(Ext::one());
                } else {
                    result.push(Ext::zero());
                }
            }
            assert(ext_views(result@) =~= lagrange_basis(m as nat, x@, fp_views(weights@)));
            return result;
        }
        i = i + 1;
    }
    let (pref, suff) = compute_prefix_suffix_products(m, x);
    let mut result: Vec<Ext> = Vec::new();
    for i in 0..m
        invariant
            m < usize::MAX,
            weights@.len() >= m,
            pref@.len() == m + 1,
            forall|k: int| 0 <= k <= m ==> #[trigger] pref@[k]@ == ext_prefix(x@, k),
            suff@.len() == m + 1,
            forall|k: int| 0 <= k <= m ==> #[trigger] suff@[k]@ == ext_suffix(x@, m as int, k),
            result@.len() == i,
            forall|t: int|
                0 <= t < i ==> #[trigger] result@[t]@ == ext_scale(
                    ext_mul(ext_prefix(x@, t), ext_suffix(x@, m as int, t + 1)),
                    weights@[t]@,
                ),
    {
        let product = pref[i].mul(suff[i + 1]);
        result.push(product.mul_base(weights[i]));
    }
    assert(ext_views(result@) =~= lagrange_basis(m as nat, x@, fp_views(weights@)));
    result
}

/// Evaluates all Lagrange basis polynomials of the grid `{0, ..., m - 1}` at a
/// base-field point `x`.
pub fn evaluate_lagrange_basis_all_base_field(m: usize, x: Fp, weights: &[Fp]) -> (r: Vec<Fp>)
    requires
        m < usize::MAX,
        m == 1 || base_grid_index(x@, m as int, 0) < m || weights@.len() >= m,
    ensures
        fp_views(r@) == lagrange_basis_base(m as nat, x@, fp_views(weights@)),
{
    if m == 1 {
        let r = vec![Fp::one()];
        assert(fp_views(r@) =~= lagrange_basis_base(m as nat, x@, fp_views(weights@)));
        return r;
    }
    let mut i: usize = 0;
    while i < m
        invariant
            i <= m,
            m != 1,
            base_grid_index(x@, m as int, 0) == base_grid_index(x@, m as int, i as int),
        decreases m - i,
    {
        if x.equals(&Fp::from_usize(i)) {
            let mut result: Vec<Fp> = Vec::new();
            for j in 0..m
                invariant
                    result@.len() == j,
                    i < m,
                    forall|t: int| 0 <= t < j ==> #[trigger] result@[t]@ == (if t == i { 1nat } else { 0nat }),
            {
                if j == i {
                    result.push(Fp::one());
                } else {
                    result.push(Fp::zero());
                }
            }
            assert(fp_views(result@) =~= lagrange_basis_base(m as nat, x@, fp_views(weights@)));
            return result;
        }
        i = i + 1;
    }
    let (pref, suff) = compute_prefix_suffix_products_base(m, x);
    let mut result: Vec<Fp> = Vec::new();
    for i in 0..m
        invariant
            m < usize::MAX,
            weights@.len() >= m,
            pref@.len() == m + 1,
            forall|k: int| 0 <= k <= m ==> #[trigger] pref@[k]@ == base_prefix(x@, k),
            suff@.len() == m + 1,
            forall|k: int| 0 <= k <= m ==> #[trigger] suff@[k]@ == base_suffix(x@, m as int, k),
            result@.len() == i,
            forall|t: int|
                0 <= t < i ==> #[trigger] result@[t]@ == fmul(
                    fmul(base_prefix(x@, t) as int, base_suffix(x@, m as int, t + 1) as int) as int,
                    weights@[t]@ as int,
                ),
    {
        let product = pref[i].mul(suff[i + 1]);
        result.push(product.mul(weights[i]));
    }
    assert(fp_views(result@) =~= lagrange_basis_base(m as nat, x@, fp_views(weights@)));
    result
}

/// Evaluates, at each point, all Lagrange basis polynomials of the grid
/// `{0, ..., m - 1}` with the barycentric weights: entry `[t][i]` is
/// `L_i(points[t])`.
pub fn evaluate_selectors_batch(m: usize, points: &[Ext]) -> (r: Vec<Vec<Ext>>)
    requires
        m <= P,
    ensures
        r@.len() == points@.len(),
        forall|t: int|
            0 <= t < points@.len() ==> #[trigger] ext_views(r@[t]@) == lagrange_basis(
                m as nat,
                points@[t]@,
                weights(m as nat),
            ),
{
    let w = barycentric_weights_precomputed(m);
    assert(w@.len() == fp_views(w@).len());
    let mut out: Vec<Vec<Ext>> = Vec::new();
    for t in 0..points.len()
        invariant
            m <= P,
            w@.len() == m,
            fp_views(w@) == weights(m as nat),
            out@.len() == t,
            forall|u: int|
                0 <= u < t ==> #[trigger] ext_views(out@[u]@) == lagrange_basis(
                    m as nat,
                    points@[u]@,
                    weights(m as nat),
                ),
    {
        out.push(evaluate_lagrange_basis_all(m, points[t], w.as_slice()));
    }
    out
}


proof fn lemma_ext_grid_index_at(m: nat, k: nat, i: int)
    requires
        k < m,
        m <= P,
        0 <= i <= k,
    ensures
        ext_grid_index(ext_grid(k as int), m as int, i) == k,
    decreases k - i,
{
    if i < k {
        assert(ext_grid(k as int)[0] == k);
        assert(ext_grid(i)[0] == i);
        lemma_ext_grid_index_at(m, k, i + 1);
    }
}

proof fn lemma_base_grid_index_at(m: nat, k: nat, i: int)
    requires
        k < m,
        m <= P,
        0 <= i <= k,
    ensures
        base_grid_index(base_grid(k as int), m as int, i) == k,
    decreases k - i,
{
    if i < k {
        lemma_base_grid_index_at(m, k, i + 1);
    }
}

/// At a grid point `k` of `{0, ..., m - 1}`, with `m <= p`, the Lagrange
/// basis is the unit vector of `k`: `L_i(k) = 1` if `i == k` and `0`
/// otherwise.
pub proof fn lemma_lagrange_basis_at_grid(m: nat, k: nat, w: Seq<nat>)
    requires
        k < m,
        m <= P,
    ensures
        lagrange_basis(m, ext_grid(k as int), w) == ext_unit(m, k as int),
{
    if m == 1 {
        assert(lagrange_basis(m, ext_grid(k as int), w) =~= ext_unit(m, k as int));
    } else {
        lemma_ext_grid_index_at(m, k, 0);
    }
}

/// The same on the base field: `L_i(k) = 1` if `i == k` and `0` otherwise.
pub proof fn lemma_lagrange_basis_base_at_grid(m: nat, k: nat, w: Seq<nat>)
    requires
        k < m,
        m <= P,
    ensures
        lagrange_basis_base(m, base_grid(k as int), w) == base_unit(m, k as int),
{
    if m == 1 {
        assert(lagrange_basis_base(m, base_grid(k as int), w) =~= base_unit(m, k as int));
    } else {
        lemma_base_grid_index_at(m, k, 0);
    }
}

proof fn lemma_grid_index_embeds(x: nat, m: int, i: int)
    requires
        x < P,
    ensures
        ext_grid_index(ext_from_base(x), m, i) == base_grid_index(x, m, i),
    decreases m - i,
{
    if i < m {
        if x == base_grid(i) {
            assert(ext_from_base(x) == ext_grid(i));
        } else {
            assert(ext_from_base(x)[0] != ext_grid(i)[0]);
        }
        lemma_grid_index_embeds(x, m, i + 1);
    }
}

proof fn lemma_prefix_embeds(x: nat, k: int)
    ensures
        ext_prefix(ext_from_base(x), k) == ext_from_base(base_prefix(x, k)),
    decreases k,
{
    if k > 0 {
        lemma_prefix_embeds(x, k - 1);
        lemma_ext_sub_base(x, modp(k - 1));
        lemma_ext_mul_from_base(base_prefix(x, k - 1), fsub(x as int, modp(k - 1) as int));
    }
}

proof fn lemma_suffix_embeds(x: nat, m: int, k: int)
    ensures
        ext_suffix(ext_from_base(x), m, k) == ext_from_base(base_suffix(x, m, k)),
    decreases m - k,
{
    if k < m {
        lemma_suffix_embeds(x, m, k + 1);
        lemma_ext_sub_base(x, modp(k));
        lemma_ext_mul_from_base(base_suffix(x, m, k + 1), fsub(x as int, modp(k) as int));
    }
}

/// At a point of the base field, the Lagrange basis in the extension is the
/// embedding of the Lagrange basis in the base field.
pub proof fn lemma_lagrange_basis_embeds(m: nat, x: nat, w: Seq<nat>)
    requires
        x < P,
    ensures
        lagrange_basis(m, ext_from_base(x), w) == Seq::new(m, |i: int| ext_from_base(lagrange_basis_base(m, x, w)[i])),
{
    let e = ext_from_base(x);
    lemma_grid_index_embeds(x, m as int, 0);
    assert(ext_zero() =~= ext_from_base(0));
    if m == 1 {
    } else if base_grid_index(x, m as int, 0) < m {
    } else {
        assert forall|i: int| 0 <= i < m implies #[trigger] lagrange_basis(m, e, w)[i] == ext_from_base(
            lagrange_basis_base(m, x, w)[i],
        ) by {
            lemma_prefix_embeds(x, i);
            lemma_suffix_embeds(x, m as int, i + 1);
            lemma_ext_mul_from_base(base_prefix(x, i), base_suffix(x, m as int, i + 1));
            lemma_ext_scale_from_base(fmul(base_prefix(x, i) as int, base_suffix(x, m as int, i + 1) as int), w[i]);
        }
    }
    assert(lagrange_basis(m, e, w) =~= Seq::new(m, |i: int| ext_from_base(lagrange_basis_base(m, x, w)[i])));
}

/// `prod_{j < n, j != i} (x - j)` in the extension, from the bottom up.
pub open spec fn ext_prod_except(x: Seq<nat>, i: int, n: int) -> Seq<nat>
    decreases n,
{
    if n <= 0 {
        ext_one()
    } else if n - 1 == i {
        ext_prod_except(x, i, n - 1)
    } else {
        ext_mul(ext_prod_except(x, i, n - 1), ext_sub(x, ext_grid(n - 1)))
    }
}

proof fn lemma_prefix_is_ext(x: Seq<nat>, k: int)
    ensures
        is_ext(ext_prefix(x, k)),
    decreases k,
{
    if k > 0 {
        let a = ext_prefix(x, k - 1);
        let b = ext_sub(x, ext_grid(k - 1));
        assert forall|j: int| 0 <= j < 8 implies #[trigger] ext_mul(a, b)[j] < P by {
            assert(ext_mul(a, b)[j] == ext_mul_coeff(a, b, j, 8));
        }
    }
}

proof fn lemma_prod_below(x: Seq<nat>, i: int, n: int)
    requires
        n <= i,
    ensures
        ext_prod_except(x, i, n) == ext_prefix(x, n),
    decreases n,
{
    if n > 0 {
        lemma_prod_below(x, i, n - 1);
    }
}

/// Growing the grid multiplies a suffix product by the new factor.
proof fn lemma_suffix_grows(x: Seq<nat>, m: int, k: int)
    requires
        k <= m,
    ensures
        ext_suffix(x, m + 1, k) == ext_mul(ext_suffix(x, m, k), ext_sub(x, ext_grid(m))),
    decreases m - k,
{
    if k < m {
        lemma_suffix_grows(x, m, k + 1);
        let s = ext_suffix(x, m, k + 1);
        let dm = ext_sub(x, ext_grid(m));
        let dk = ext_sub(x, ext_grid(k));
        lemma_ext_mul_associative(s, dm, dk);
        lemma_ext_mul_commutative(dm, dk);
        lemma_ext_mul_associative(s, dk, dm);
        assert(ext_suffix(x, m + 1, k) == ext_mul(ext_suffix(x, m + 1, k + 1), dk));
        assert(ext_suffix(x, m, k) == ext_mul(s, dk));
    } else {
        assert(ext_suffix(x, m + 1, m + 1) == ext_one());
        assert(ext_suffix(x, m, m) == ext_one());
    }
}

proof fn lemma_prod_above(x: Seq<nat>, i: int, n: int)
    requires
        0 <= i < n,
    ensures
        ext_prod_except(x, i, n) == ext_mul(ext_prefix(x, i), ext_suffix(x, n, i + 1)),
    decreases n,
{
    if n == i + 1 {
        lemma_prod_below(x, i, i);
        lemma_prefix_is_ext(x, i);
        lemma_ext_mul_one_zero(ext_prefix(x, i));
    } else {
        lemma_prod_above(x, i, n - 1);
        lemma_suffix_grows(x, n - 1, i + 1);
        lemma_ext_mul_associative(ext_prefix(x, i), ext_suffix(x, n - 1, i + 1), ext_sub(x, ext_grid(n - 1)));
    }
}

/// Off the grid, the Lagrange basis is the barycentric formula written out:
/// `L_i(x) = prod_{j != i} (x - j) / prod_{j != i} (i - j)`.
pub proof fn lemma_lagrange_basis_off_grid(m: nat, x: Seq<nat>, i: int)
    requires
        m >= 2,
        0 <= i < m,
        ext_grid_index(x, m as int, 0) >= m,
    ensures
        lagrange_basis(m, x, weights(m))[i] == ext_scale(
            ext_prod_except(x, i, m as int),
            finv(grid_denominator(i as nat, m) as int),
        ),
{
    lemma_prod_above(x, i, m as int);
    lemma_weight_is_inverse_denominator(m, i as nat);
}

} // verus!
