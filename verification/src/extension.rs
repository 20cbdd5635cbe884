//! The degree-8 binomial extension `F_p[X] / (X^8 - 3)` of the KoalaBear field.
//!
//! An element is held by its eight coordinates in the basis `1, X, ..., X^7`;
//! its model is the sequence of their residues.
use vstd::prelude::*;
use crate::field::{P, Fp, fadd, fsub, fmul, modp, lemma_fp_view_lt};
use p3_field::{BasedVectorSpace, Field, PrimeCharacteristicRing, PrimeField32};
use p3_field::extension::BinomialExtensionField;
use p3_koala_bear::KoalaBear;

verus! {

broadcast use lemma_fp_view_lt;

/// The extension degree.
pub const EXT_DEGREE: usize = 8;

/// The constant `W` of the defining relation `X^8 = W`.
pub const EXT_W: u32 = 3;

/// A model of an extension element: eight residues.
pub open spec fn is_ext(a: Seq<nat>) -> bool {
    a.len() == 8 && forall|k: int| 0 <= k < 8 ==> #[trigger] a[k] < P
}

pub open spec fn ext_zero() -> Seq<nat> {
    Seq::new(8, |k: int| 0nat)
}

pub open spec fn ext_from_base(x: nat) -> Seq<nat> {
    Seq::new(8, |k: int| if k == 0 { x } else { 0nat })
}

pub open spec fn ext_one() -> Seq<nat> {
    ext_from_base(1)
}

pub open spec fn ext_add(a: Seq<nat>, b: Seq<nat>) -> Seq<nat> {
    Seq::new(8, |k: int| fadd(a[k] as int, b[k] as int))
}

pub open spec fn ext_sub(a: Seq<nat>, b: Seq<nat>) -> Seq<nat> {
    Seq::new(8, |k: int| fsub(a[k] as int, b[k] as int))
}

/// Product of an extension element by a base-field element.
pub open spec fn ext_scale(a: Seq<nat>, s: nat) -> Seq<nat> {
    Seq::new(8, |k: int| fmul(a[k] as int, s as int))
}

/// The `i`-th term of coordinate `k` of a product: `a_i * b_{k-i}`, or
/// `W * a_i * b_{k+8-i}` when the degree wraps around `X^8 = W`.
pub open spec fn ext_mul_term(a: Seq<nat>, b: Seq<nat>, k: int, i: int) -> nat {
    if i <= k {
        fmul(a[i] as int, b[k - i] as int)
    } else {
        fmul(fmul(EXT_W as int, a[i] as int) as int, b[k + 8 - i] as int)
    }
}

/// Sum of the first `n` terms of coordinate `k` of a product.
pub open spec fn ext_mul_coeff(a: Seq<nat>, b: Seq<nat>, k: int, n: int) -> nat
    decreases n,
{
    if n <= 0 {
        0
    } else {
        fadd(ext_mul_coeff(a, b, k, n - 1) as int, ext_mul_term(a, b, k, n - 1) as int)
    }
}

pub open spec fn ext_mul(a: Seq<nat>, b: Seq<nat>) -> Seq<nat> {
    Seq::new(8, |k: int| ext_mul_coeff(a, b, k, 8))
}

/// Adding zero changes no element.
pub proof fn lemma_ext_add_zero(a: Seq<nat>)
    requires
        is_ext(a),
    ensures
        ext_add(ext_zero(), a) == a,
        ext_add(a, ext_zero()) == a,
{
    assert(ext_add(ext_zero(), a) =~= a);
    assert(ext_add(a, ext_zero()) =~= a);
}

/// Scaling by zero gives zero and scaling by one changes nothing.
pub proof fn lemma_ext_scale_zero_one(a: Seq<nat>)
    requires
        is_ext(a),
    ensures
        ext_scale(a, 0) == ext_zero(),
        ext_scale(a, 1) == a,
{
    assert(ext_scale(a, 0) =~= ext_zero());
    assert(ext_scale(a, 1) =~= a);
}

/// Scaling the embedding of `s` by `x` embeds `s * x`.
pub proof fn lemma_ext_scale_from_base(s: nat, x: nat)
    ensures
        ext_scale(ext_from_base(s), x) == ext_from_base(fmul(s as int, x as int)),
{
    assert forall|k: int| 0 <= k < 8 implies #[trigger] ext_scale(ext_from_base(s), x)[k]
        == ext_from_base(fmul(s as int, x as int))[k] by {
        if k != 0 {
            assert(0 * (x as int) == 0);
        }
    }
    assert(ext_scale(ext_from_base(s), x) =~= ext_from_base(fmul(s as int, x as int)));
}

proof fn lemma_ext_mul_coeff_one(a: Seq<nat>, k: int, n: int)
    requires
        is_ext(a),
        0 <= k < 8,
        0 <= n <= 8,
    ensures
        ext_mul_coeff(a, ext_one(), k, n) == (if n > k { a[k] } else { 0 }),
    decreases n,
{
    if n > 0 {
        lemma_ext_mul_coeff_one(a, k, n - 1);
        let i = n - 1;
        if i <= k {
            if i == k {
                assert(ext_one()[k - i] == 1);
                assert(fmul(a[i] as int, 1) == a[i]);
            } else {
                assert(ext_one()[k - i] == 0);
                assert(a[i] as int * 0 == 0);
            }
        } else {
            assert(ext_one()[k + 8 - i] == 0);
            assert(fmul(EXT_W as int, a[i] as int) as int * 0 == 0);
        }
    }
}

proof fn lemma_ext_mul_coeff_zero(a: Seq<nat>, k: int, n: int)
    requires
        0 <= k < 8,
        0 <= n <= 8,
    ensures
        ext_mul_coeff(a, ext_zero(), k, n) == 0,
    decreases n,
{
    if n > 0 {
        lemma_ext_mul_coeff_zero(a, k, n - 1);
        let i = n - 1;
        if i <= k {
            assert(a[i] as int * 0 == 0);
        } else {
            assert(fmul(EXT_W as int, a[i] as int) as int * 0 == 0);
        }
    }
}

/// Multiplying by one changes nothing and multiplying by zero gives zero.
pub proof fn lemma_ext_mul_one_zero(a: Seq<nat>)
    requires
        is_ext(a),
    ensures
        ext_mul(a, ext_one()) == a,
        ext_mul(a, ext_zero()) == ext_zero(),
{
    assert forall|k: int| 0 <= k < 8 implies #[trigger] ext_mul(a, ext_one())[k] == a[k] by {
        lemma_ext_mul_coeff_one(a, k, 8);
    }
    assert forall|k: int| 0 <= k < 8 implies #[trigger] ext_mul(a, ext_zero())[k] == 0 by {
        lemma_ext_mul_coeff_zero(a, k, 8);
    }
    assert(ext_mul(a, ext_one()) =~= a);
    assert(ext_mul(a, ext_zero()) =~= ext_zero());
}

proof fn lemma_ext_mul_coeff_base(a: Seq<nat>, x: nat, k: int, n: int)
    requires
        0 <= k < 8,
        0 <= n <= 8,
    ensures
        ext_mul_coeff(a, ext_from_base(x), k, n) == (if n > k { fmul(a[k] as int, x as int) } else { 0 }),
    decreases n,
{
    if n > 0 {
        lemma_ext_mul_coeff_base(a, x, k, n - 1);
        let i = n - 1;
        if i <= k {
            if i != k {
                assert(ext_from_base(x)[k - i] == 0);
                assert(a[i] as int * 0 == 0);
            }
        } else {
            assert(ext_from_base(x)[k + 8 - i] == 0);
            assert(fmul(EXT_W as int, a[i] as int) as int * 0 == 0);
        }
    }
}

/// Multiplying by the embedding of `x` scales by `x`.
pub proof fn lemma_ext_mul_base(a: Seq<nat>, x: nat)
    ensures
        ext_mul(a, ext_from_base(x)) == ext_scale(a, x),
{
    assert forall|k: int| 0 <= k < 8 implies #[trigger] ext_mul(a, ext_from_base(x))[k] == ext_scale(a, x)[k] by {
        lemma_ext_mul_coeff_base(a, x, k, 8);
    }
    assert(ext_mul(a, ext_from_base(x)) =~= ext_scale(a, x));
}

/// `ext_from_base(a) * ext_from_base(b) == ext_from_base(a * b)`.
pub proof fn lemma_ext_mul_from_base(a: nat, b: nat)
    ensures
        ext_mul(ext_from_base(a), ext_from_base(b)) == ext_from_base(fmul(a as int, b as int)),
{
    lemma_ext_mul_base(ext_from_base(a), b);
    lemma_ext_scale_from_base(a, b);
}

proof fn lemma_ext_mul_coeff_zero_left(b: Seq<nat>, k: int, n: int)
    requires
        0 <= k < 8,
        0 <= n <= 8,
    ensures
        ext_mul_coeff(ext_zero(), b, k, n) == 0,
    decreases n,
{
    if n > 0 {
        lemma_ext_mul_coeff_zero_left(b, k, n - 1);
        let i = n - 1;
        if i <= k {
            assert(0 * (b[k - i] as int) == 0);
        } else {
            assert((EXT_W as int) * 0 == 0);
            assert(0 * (b[k + 8 - i] as int) == 0);
        }
    }
}

/// Zero times anything is zero.
pub proof fn lemma_ext_mul_zero_left(b: Seq<nat>)
    ensures
        ext_mul(ext_zero(), b) == ext_zero(),
{
    assert forall|k: int| 0 <= k < 8 implies #[trigger] ext_mul(ext_zero(), b)[k] == 0 by {
        lemma_ext_mul_coeff_zero_left(b, k, 8);
    }
    assert(ext_mul(ext_zero(), b) =~= ext_zero());
}

/// Scaling twice scales by the product.
pub proof fn lemma_ext_scale_scale(a: Seq<nat>, x: nat, y: nat)
    ensures
        ext_scale(ext_scale(a, x), y) == ext_scale(a, fmul(x as int, y as int)),
{
    assert forall|k: int| 0 <= k < 8 implies #[trigger] ext_scale(ext_scale(a, x), y)[k] == ext_scale(
        a,
        fmul(x as int, y as int),
    )[k] by {
        let p = P as int;
        vstd::arithmetic::div_mod::lemma_mul_mod_noop_left((a[k] * x) as int, y as int, p);
        vstd::arithmetic::div_mod::lemma_mul_mod_noop_right(a[k] as int, (x * y) as int, p);
        assert((a[k] * x) * y == a[k] * (x * y)) by (nonlinear_arith);
    }
    assert(ext_scale(ext_scale(a, x), y) =~= ext_scale(a, fmul(x as int, y as int)));
}

/// The difference of embeddings embeds the difference.
pub proof fn lemma_ext_sub_base(a: nat, b: nat)
    ensures
        ext_sub(ext_from_base(a), ext_from_base(b)) == ext_from_base(fsub(a as int, b as int)),
{
    assert(ext_sub(ext_from_base(a), ext_from_base(b)) =~= ext_from_base(fsub(a as int, b as int)));
}

/// Zero is the embedding of zero, and subtracting zero changes nothing.
pub proof fn lemma_ext_zero_facts(a: Seq<nat>)
    requires
        is_ext(a),
    ensures
        ext_zero() == ext_from_base(0),
        ext_sub(a, ext_zero()) == a,
{
    assert(ext_zero() =~= ext_from_base(0));
    assert(ext_sub(a, ext_zero()) =~= a);
}

/// Adding back what was subtracted: `b + (a - b) == a`.
pub proof fn lemma_ext_add_sub_cancel(a: Seq<nat>, b: Seq<nat>)
    requires
        is_ext(a),
        is_ext(b),
    ensures
        ext_add(b, ext_sub(a, b)) == a,
{
    assert forall|k: int| 0 <= k < 8 implies #[trigger] ext_add(b, ext_sub(a, b))[k] == a[k] by {
        vstd::arithmetic::div_mod::lemma_add_mod_noop_right(b[k] as int, a[k] - b[k], P as int);
        vstd::arithmetic::div_mod::lemma_small_mod(a[k], P as nat);
    }
    assert(ext_add(b, ext_sub(a, b)) =~= a);
}

/// The models of a sequence of extension elements.
pub open spec fn ext_views(s: Seq<Ext>) -> Seq<Seq<nat>> {
    s.map_values(|x: Ext| x@)
}

/// An element of the degree-8 extension.
#[derive(Clone, Copy, Debug)]
pub struct Ext {
    c: [Fp; 8],
}

impl View for Ext {
    type V = Seq<nat>;

    closed spec fn view(&self) -> Seq<nat> {
        self.c@.map_values(|x: Fp| x@)
    }
}

/// The model of an extension element is eight residues.
pub broadcast proof fn lemma_ext_view_wf(x: Ext)
    ensures
        #[trigger] is_ext(x@),
{
}

impl Ext {
    /// The element with the given coordinates.
    pub fn new(c: [Fp; 8]) -> (r: Ext)
        ensures
            r@ == c@.map_values(|x: Fp| x@),
    {
        Ext { c }
    }

    /// The coordinates.
    pub fn coeffs(&self) -> (r: [Fp; 8])
        ensures
            r@.map_values(|x: Fp| x@) == self@,
    {
        self.c
    }

    pub fn zero() -> (r: Ext)
        ensures
            r@ == ext_zero(),
    {
        let r = Ext { c: [Fp::zero(); 8] };
        assert(r@ =~= ext_zero());
        r
    }

    pub fn one() -> (r: Ext)
        ensures
            r@ == ext_one(),
    {
        let r = Ext::from_base(Fp::one());
        r
    }

    /// The embedding of a base-field element.
    pub fn from_base(x: Fp) -> (r: Ext)
        ensures
            r@ == ext_from_base(x@),
    {
        let z = Fp::zero();
        let r = Ext { c: [x, z, z, z, z, z, z, z] };
        assert(r@ =~= ext_from_base(x@));
        r
    }

    /// The image of an integer.
    pub fn from_usize(n: usize) -> (r: Ext)
        ensures
            r@ == ext_from_base(modp(n as int)),
    {
        Ext::from_base(Fp::from_usize(n))
    }

    pub fn add(self, o: Ext) -> (r: Ext)
        ensures
            r@ == ext_add(self@, o@),
    {
        let r = Ext { c: [self.c[0].add(o.c[0]), self.c[1].add(o.c[1]), self.c[2].add(o.c[2]), self.c[3].add(o.c[3]), self.c[4].add(o.c[4]), self.c[5].add(o.c[5]), self.c[6].add(o.c[6]), self.c[7].add(o.c[7])] };
        assert(r@ =~= ext_add(self@, o@));
        r
    }

    pub fn sub(self, o: Ext) -> (r: Ext)
        ensures
            r@ == ext_sub(self@, o@),
    {
        let r = Ext { c: [self.c[0].sub(o.c[0]), self.c[1].sub(o.c[1]), self.c[2].sub(o.c[2]), self.c[3].sub(o.c[3]), self.c[4].sub(o.c[4]), self.c[5].sub(o.c[5]), self.c[6].sub(o.c[6]), self.c[7].sub(o.c[7])] };
        assert(r@ =~= ext_sub(self@, o@));
        r
    }

    /// Product by a base-field element.
    pub fn mul_base(self, s: Fp) -> (r: Ext)
        ensures
            r@ == ext_scale(self@, s@),
    {
        let r = Ext { c: [self.c[0].mul(s), self.c[1].mul(s), self.c[2].mul(s), self.c[3].mul(s), self.c[4].mul(s), self.c[5].mul(s), self.c[6].mul(s), self.c[7].mul(s)] };
        assert(r@ =~= ext_scale(self@, s@));
        r
    }

    fn mul_coeff(&self, o: &Ext, k: usize) -> (r: Fp)
        requires
            k < 8,
        ensures
            r@ == ext_mul_coeff(self@, o@, k as int, 8),
    {
        let w = Fp::new(EXT_W);
        let mut acc = Fp::zero();
        let mut i: usize = 0;
        while i < 8
            invariant
                i <= 8,
                k < 8,
                w@ == EXT_W,
                acc@ == ext_mul_coeff(self@, o@, k as int, i as int),
            decreases 8 - i,
        {
            let t = if i <= k {
                self.c[i].mul(o.c[k - i])
            } else {
                w.mul(self.c[i]).mul(o.c[k + 8 - i])
            };
            acc = acc.add(t);
            i = i + 1;
        }
        acc
    }

    pub fn mul(self, o: Ext) -> (r: Ext)
        ensures
            r@ == ext_mul(self@, o@),
    {
        let r = Ext { c: [self.mul_coeff(&o, 0), self.mul_coeff(&o, 1), self.mul_coeff(&o, 2), self.mul_coeff(&o, 3), self.mul_coeff(&o, 4), self.mul_coeff(&o, 5), self.mul_coeff(&o, 6), self.mul_coeff(&o, 7)] };
        assert(r@ =~= ext_mul(self@, o@));
        r
    }

    pub fn square(self) -> (r: Ext)
        ensures
            r@ == ext_mul(self@, self@),
    {
        self.mul(self)
    }

    /// Compares the models.
    pub fn equals(&self, o: &Ext) -> (r: bool)
        ensures
            r == (self@ == o@),
    {
        let mut k: usize = 0;
        while k < 8
            invariant
                k <= 8,
                forall|j: int| 0 <= j < k ==> self@[j] == o@[j],
            decreases 8 - k,
        {
            if !self.c[k].equals(&o.c[k]) {
                assert(self@[k as int] != o@[k as int]);
                return false;
            }
            k = k + 1;
        }
        assert(self@ =~= o@);
        true
    }

    /// The multiplicative inverse, or `None` for zero.
    pub fn try_inverse(self) -> (r: Option<Ext>)
        ensures
            r is Some <==> self@ != ext_zero(),
            r matches Some(x) ==> ext_mul(self@, x@) == ext_one() && x@ == ext_inv(self@),
    {
        let mut a: [u32; 8] = [0u32; 8];
        let mut k: usize = 0;
        while k < 8
            invariant
                k <= 8,
                forall|j: int| 0 <= j < k ==> a@[j] == self@[j],
                forall|j: int| 0 <= j < 8 ==> a@[j] < P,
            decreases 8 - k,
        {
            a[k] = self.c[k].value();
            k = k + 1;
        }
        assert(a@.map_values(|x: u32| x as nat) =~= self@);
        assert(self@ != ext_zero() <==> a@.map_values(|x: u32| x as nat) != ext_zero()) ;
        match octic_try_inverse(a) {
            Some(b) => {
                let c = [Fp::new(b[0]), Fp::new(b[1]), Fp::new(b[2]), Fp::new(b[3]), Fp::new(b[4]), Fp::new(b[5]), Fp::new(b[6]), Fp::new(b[7])];
                let x = Ext { c };
                assert(x@ =~= b@.map_values(|y: u32| y as nat));
                proof {
                    crate::ring::lemma_ext_inv_unique(self@, x@);
                }
                Some(x)
            },
            None => None,
        }
    }
}

/// The multiplicative inverse of `a` in the extension, and zero where there is
/// none.
#[verifier::opaque]
pub open spec fn ext_inv(a: Seq<nat>) -> Seq<nat> {
    if exists|b: Seq<nat>| is_ext(b) && #[trigger] ext_mul(a, b) == ext_one() {
        choose|b: Seq<nat>| is_ext(b) && #[trigger] ext_mul(a, b) == ext_one()
    } else {
        ext_zero()
    }
}

/// Calls `Field::try_inverse` of `BinomialExtensionField<KoalaBear, 8>` on the
/// element with canonical coordinates `a`: `None` for zero, otherwise the
/// canonical coordinates of the inverse, whose product with `a` is one.
#[verifier::external_body]
fn octic_try_inverse(a: [u32; 8]) -> (r: Option<[u32; 8]>)
    requires
        forall|j: int| 0 <= j < 8 ==> a@[j] < P,
    ensures
        r is Some <==> a@.map_values(|x: u32| x as nat) != ext_zero(),
        r matches Some(b) ==> (forall|j: int| 0 <= j < 8 ==> b@[j] < P) && ext_mul(
            a@.map_values(|x: u32| x as nat),
            b@.map_values(|x: u32| x as nat),
        ) == ext_one(),
{
    let x = BinomialExtensionField::<KoalaBear, 8>::new(a.map(KoalaBear::from_u32));
    x.try_inverse().map(|y| {
        let s = <BinomialExtensionField<KoalaBear, 8> as BasedVectorSpace<KoalaBear>>::as_basis_coefficients_slice(&y);
        core::array::from_fn(|j| s[j].as_canonical_u32())
    })
}

impl PartialEq for Ext {
    fn eq(&self, other: &Ext) -> (r: bool) {
        self.equals(other)
    }
}

impl vstd::std_specs::cmp::PartialEqSpecImpl for Ext {
    open spec fn obeys_eq_spec() -> bool {
        true
    }

    open spec fn eq_spec(&self, other: &Ext) -> bool {
        self@ == other@
    }
}

impl Eq for Ext {}

} // verus!
