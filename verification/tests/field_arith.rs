use p3_field::extension::BinomialExtensionField;
use p3_field::{BasedVectorSpace, Field, PrimeCharacteristicRing, PrimeField32};
use p3_koala_bear::KoalaBear;
use sumcheck_utils::extension::Ext;
use sumcheck_utils::field::{Fp, P};

type EF = BinomialExtensionField<KoalaBear, 8>;

fn ext(c: [u32; 8]) -> Ext {
    Ext::new(c.map(Fp::new))
}

fn to_p3(x: &Ext) -> EF {
    EF::new(x.coeffs().map(|c| KoalaBear::from_u32(c.value())))
}

fn from_p3(x: &EF) -> [u32; 8] {
    let s = <EF as BasedVectorSpace<KoalaBear>>::as_basis_coefficients_slice(x);
    core::array::from_fn(|j| s[j].as_canonical_u32())
}

#[test]
fn base_field_operations() {
    let a = Fp::new(P - 1);
    let b = Fp::new(5);
    assert_eq!(a.add(b).value(), 4);
    assert_eq!(b.sub(a).value(), 6);
    assert_eq!(b.neg().value(), P - 5);
    assert_eq!(a.mul(a).value(), 1);
    assert_eq!(Fp::new(P + 7).value(), 7);
    assert_eq!(Fp::from_usize(2 * P as usize + 3).value(), 3);
    assert_eq!(Fp::one().halve().mul(Fp::new(2)).value(), 1);
    assert!(Fp::new(3) == Fp::new(P + 3));
}

#[test]
fn base_field_inverse() {
    assert!(Fp::zero().try_inverse().is_none());
    for v in [1u32, 2, 3, 12345, P - 1] {
        let x = Fp::new(v);
        let inv = x.try_inverse().unwrap();
        assert_eq!(x.mul(inv).value(), 1);
        assert_eq!(inv.value(), KoalaBear::from_u32(v).inverse().as_canonical_u32());
    }
}

#[test]
fn extension_product_matches_p3() {
    let a = ext([1, 2, 3, 4, 5, 6, 7, 8]);
    let b = ext([P - 1, 9, 0, 11, 123456789, 0, 0, 2]);
    let expected = to_p3(&a) * to_p3(&b);
    let got = a.mul(b);
    assert_eq!(got.coeffs().map(|c| c.value()), from_p3(&expected));
    let x = ext([0, 1, 0, 0, 0, 0, 0, 0]);
    let x8 = x.square().square().square();
    assert_eq!(x8.coeffs().map(|c| c.value()), [3, 0, 0, 0, 0, 0, 0, 0]);
}

#[test]
fn extension_sum_difference_and_scaling() {
    let a = ext([1, 2, 3, 4, 5, 6, 7, 8]);
    let b = ext([P - 1, 9, 0, 11, 12, 0, 0, 2]);
    assert_eq!(a.add(b).coeffs().map(|c| c.value()), [0, 11, 3, 15, 17, 6, 7, 10]);
    assert_eq!(a.sub(b).coeffs().map(|c| c.value()), [2, P - 7, 3, P - 7, P - 7, 6, 7, 6]);
    assert_eq!(a.mul_base(Fp::new(2)).coeffs().map(|c| c.value()), [2, 4, 6, 8, 10, 12, 14, 16]);
    assert!(Ext::from_usize(5) == ext([5, 0, 0, 0, 0, 0, 0, 0]));
    assert!(!(Ext::from_usize(5) == Ext::from_usize(6)));
}

#[test]
fn extension_inverse() {
    assert!(Ext::zero().try_inverse().is_none());
    let a = ext([1, 2, 3, 4, 5, 6, 7, 8]);
    let inv = a.try_inverse().unwrap();
    assert!(a.mul(inv) == Ext::one());
    assert_eq!(inv.coeffs().map(|c| c.value()), from_p3(&to_p3(&a).inverse()));
}

#[test]
fn extension_product_commutes_and_associates() {
    let a = ext([3, 1, 4, 1, 5, 9, 2, 6]);
    let b = ext([P - 1, 7, 0, 2, 8, 1, 8, 2]);
    let c = ext([11, 0, 0, 0, 0, 0, 0, P - 3]);
    assert!(a.mul(b) == b.mul(a));
    assert!(a.mul(b).mul(c) == a.mul(b.mul(c)));
    let inv = b.try_inverse().unwrap();
    assert!(a.mul(inv).mul(b) == a);
}
