//! The KoalaBear prime field `F_p` with `p = 2^31 - 2^24 + 1`.
//!
//! Elements are held as canonical `u32` values; the mathematical model of an
//! element is its residue in `[0, p)`, given by the view.
use vstd::prelude::*;
use vstd::arithmetic::div_mod::*;
use p3_field::{Field, PrimeCharacteristicRing, PrimeField32};

verus! {

/// The KoalaBear prime `2^31 - 2^24 + 1`.
pub const P: u32 = 2130706433;

/// `(p + 1) / 2`, the inverse of two.
pub const HALF: u32 = 1065353217;

/// Residue of an integer modulo `p`.
pub open spec fn modp(x: int) -> nat {
    (x % (P as int)) as nat
}

pub open spec fn fadd(a: int, b: int) -> nat {
    modp(a + b)
}

pub open spec fn fsub(a: int, b: int) -> nat {
    modp(a - b)
}

pub open spec fn fmul(a: int, b: int) -> nat {
    modp(a * b)
}

pub open spec fn fneg(a: int) -> nat {
    modp(-a)
}

/// The multiplicative inverse modulo `p`, and `0` where there is none.
#[verifier::opaque]
pub open spec fn finv(a: int) -> nat {
    if exists|b: nat| b < P && #[trigger] fmul(a, b as int) == 1 {
        choose|b: nat| b < P && #[trigger] fmul(a, b as int) == 1
    } else {
        0
    }
}

/// The residues of a sequence of field elements.
pub open spec fn fp_views(s: Seq<Fp>) -> Seq<nat> {
    s.map_values(|x: Fp| x@)
}

/// An element of the KoalaBear field.
#[derive(Clone, Copy, Debug)]
pub struct Fp {
    v: u32,
}

impl View for Fp {
    type V = nat;

    closed spec fn view(&self) -> nat {
        modp(self.v as int)
    }
}

/// Zero has no inverse.
pub proof fn lemma_finv_zero()
    ensures
        finv(0) == 0,
{
    reveal(finv);
    assert forall|b: nat| b < P implies #[trigger] fmul(0, b as int) != 1 by {
        assert(0 * (b as int) == 0);
    }
}

/// The view of a field element is a residue.
pub broadcast proof fn lemma_fp_view_lt(x: Fp)
    ensures
        #[trigger] x@ < P,
{
}

/// Two inverses of one residue are equal, and equal `finv`.
/// An inverse is a residue.
pub proof fn lemma_finv_lt(a: int)
    ensures
        finv(a) < P,
{
    reveal(finv);
}

pub proof fn lemma_finv_unique(a: int, r: nat)
    requires
        r < P,
        fmul(a, r as int) == 1,
    ensures
        finv(a) == r,
{
    reveal(finv);
    let b = choose|b: nat| b < P && #[trigger] fmul(a, b as int) == 1;
    assert(fmul(a, r as int) == 1);
    assert(b < P && fmul(a, b as int) == 1);
    let p = P as int;
    // b = b * (a * r) = (b * a) * r = r  (mod p)
    lemma_mul_mod_noop_right(b as int, a * r, p);
    lemma_mul_is_associative_local(b as int, a, r as int);
    lemma_mul_mod_noop_left(b * a, r as int, p);
    assert(b * a == a * b) by (nonlinear_arith);
    lemma_small_mod(b, P as nat);
    lemma_small_mod(r, P as nat);
}

proof fn lemma_mul_is_associative_local(x: int, y: int, z: int)
    ensures
        x * (y * z) == (x * y) * z,
{
    assert(x * (y * z) == (x * y) * z) by (nonlinear_arith);
}

impl Fp {
    /// The element `v mod p`.
    pub fn new(v: u32) -> (r: Fp)
        ensures
            r@ == modp(v as int),
    {
        Fp { v: v % P }
    }

    pub fn zero() -> (r: Fp)
        ensures
            r@ == 0,
    {
        Fp { v: 0 }
    }

    pub fn one() -> (r: Fp)
        ensures
            r@ == 1,
    {
        Fp { v: 1 }
    }

    /// The element `-1`.
    pub fn neg_one() -> (r: Fp)
        ensures
            r@ == P - 1,
    {
        Fp { v: P - 1 }
    }

    /// The image of an integer in the field.
    pub fn from_usize(n: usize) -> (r: Fp)
        ensures
            r@ == modp(n as int),
    {
        let v = (n % (P as usize)) as u32;
        Fp { v }
    }

    /// The image of a 64-bit integer in the field.
    pub fn from_u64(n: u64) -> (r: Fp)
        ensures
            r@ == modp(n as int),
    {
        let v = (n % (P as u64)) as u32;
        Fp { v }
    }

    /// The canonical representative in `[0, p)`.
    pub fn value(&self) -> (r: u32)
        ensures
            r == self@,
    {
        self.v % P
    }

    pub fn add(self, other: Fp) -> (r: Fp)
        ensures
            r@ == fadd(self@ as int, other@ as int),
    {
        let a = self.v % P;
        let b = other.v % P;
        let s = a + b;
        let v = if s >= P { s - P } else { s };
        proof {
            lemma_add_mod_noop(self.v as int, other.v as int, P as int);
        }
        Fp { v }
    }

    pub fn sub(self, other: Fp) -> (r: Fp)
        ensures
            r@ == fsub(self@ as int, other@ as int),
    {
        let a = self.v % P;
        let b = other.v % P;
        let v = if a >= b { a - b } else { a + (P - b) };
        proof {
            lemma_sub_mod_noop(self.v as int, other.v as int, P as int);
            if a < b {
                lemma_mod_add_multiples_vanish(a as int - b as int, P as int);
            }
        }
        Fp { v }
    }

    pub fn neg(self) -> (r: Fp)
        ensures
            r@ == fneg(self@ as int),
    {
        let a = self.v % P;
        let v = if a == 0 { 0 } else { P - a };
        proof {
            lemma_sub_mod_noop(0, self.v as int, P as int);
            if a != 0 {
                lemma_mod_add_multiples_vanish(0 - a as int, P as int);
            }
        }
        Fp { v }
    }

    pub fn mul(self, other: Fp) -> (r: Fp)
        ensures
            r@ == fmul(self@ as int, other@ as int),
    {
        let a = (self.v % P) as u64;
        let b = (other.v % P) as u64;
        assert(a * b < 0x1_0000_0000_0000_0000) by (nonlinear_arith)
            requires
                a < 0x1_0000_0000,
                b < 0x1_0000_0000,
        ;
        let v = ((a * b) % (P as u64)) as u32;
        proof {
            lemma_mul_mod_noop(self.v as int, other.v as int, P as int);
        }
        Fp { v }
    }

    /// Half of the element, that is `self * (p + 1) / 2`.
    pub fn halve(self) -> (r: Fp)
        ensures
            r@ == fmul(self@ as int, HALF as int),
    {
        self.mul(Fp { v: HALF })
    }

    pub fn square(self) -> (r: Fp)
        ensures
            r@ == fmul(self@ as int, self@ as int),
    {
        self.mul(self)
    }

    /// Compares the residues.
    pub fn equals(&self, other: &Fp) -> (r: bool)
        ensures
            r == (self@ == other@),
    {
        self.v % P == other.v % P
    }

    /// The multiplicative inverse, or `None` for zero.
    pub fn try_inverse(self) -> (r: Option<Fp>)
        ensures
            r is Some <==> self@ != 0,
            r matches Some(x) ==> fmul(self@ as int, x@ as int) == 1 && x@ == finv(self@ as int),
    {
        let r = koala_bear_try_inverse(self.value());
        match r {
            Some(x) => {
                proof {
                    lemma_small_mod(x as nat, P as nat);
                    lemma_finv_unique(self@ as int, x as nat);
                }
                Some(Fp { v: x })
            },
            None => None,
        }
    }
}

/// Calls `Field::try_inverse` of `p3_koala_bear::KoalaBear` on the canonical
/// value `a`: `None` for zero, otherwise the canonical value of the inverse,
/// whose product with `a` is one modulo `p`.
#[verifier::external_body]
fn koala_bear_try_inverse(a: u32) -> (r: Option<u32>)
    requires
        a < P,
    ensures
        r is Some <==> a != 0,
        r matches Some(x) ==> x < P && fmul(a as int, x as int) == 1,
{
    p3_koala_bear::KoalaBear::from_u32(a).try_inverse().map(|x| x.as_canonical_u32())
}

impl PartialEq for Fp {
    fn eq(&self, other: &Fp) -> (r: bool) {
        self.v % P == other.v % P
    }
}

impl vstd::std_specs::cmp::PartialEqSpecImpl for Fp {
    open spec fn obeys_eq_spec() -> bool {
        true
    }

    open spec fn eq_spec(&self, other: &Fp) -> bool {
        self@ == other@
    }
}

impl Eq for Fp {}

} // verus!
