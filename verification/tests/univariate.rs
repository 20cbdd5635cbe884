use sumcheck_utils::extension::Ext;
use sumcheck_utils::field::{Fp, P};
use sumcheck_utils::univariate::{
    barycentric_weights, barycentric_weights_precomputed, evaluate_lagrange_basis_all,
    evaluate_lagrange_basis_all_base_field, evaluate_selectors_batch,
};

// Test to generate precomputed barycentric weights
#[test]
fn print_precomputed_barycentric_weights() {
    println!("\n=== BARYCENTRIC WEIGHTS FOR KOALABEAR ===");

    for skips in 1..=4 {
        let m = 1usize << skips;
        let weights = barycentric_weights(m);

        println!(
            "\n// For skips={}, m={}: weights for {{0, 1, ..., {}}}",
            skips,
            m,
            m - 1
        );
        let mut line = format!("const BARYCENTRIC_WEIGHTS_{}: [u64; {}] = [", m, m);

        for (i, weight) in weights.iter().enumerate() {
            if i > 0 {
                line.push_str(", ");
            }
            if i % 8 == 0 && m > 8 {
                line.push_str("\n    ");
            }
            line.push_str(&format!("{}", weight.value() as u64));
        }

        if m > 8 {
            println!("{}\n];", line);
        } else {
            println!("{}];", line);
        }

        println!("// Verification: (skipped for now - trait issues)")
    }
}

// Test to verify barycentric evaluation matches polynomial evaluation
#[test]
fn verify_barycentric_vs_polynomial_evaluation() {
    println!("\n=== VERIFICATION: BARYCENTRIC vs POLYNOMIAL ===");

    for skips in 1..=4 {
        let m = 1usize << skips;
        println!("\nTesting skips={}, m={}", skips, m);

        println!("// Comparison test: (skipped for now - trait issues)")
    }
}

fn values(v: &[Fp]) -> Vec<u32> {
    v.iter().map(|x| x.value()).collect()
}

#[test]
fn weights_of_small_grids() {
    assert_eq!(values(&barycentric_weights(1)), vec![1]);
    assert_eq!(values(&barycentric_weights(2)), vec![P - 1, 1]);
    assert_eq!(values(&barycentric_weights(4)), vec![1775588694, 1065353217, 1065353216, 355117739]);
    assert!(barycentric_weights(0).is_empty());
}

#[test]
fn precomputed_weights_equal_computed_weights() {
    for m in 1..=17usize {
        assert_eq!(values(&barycentric_weights_precomputed(m)), values(&barycentric_weights(m)));
    }
    assert_eq!(
        values(&barycentric_weights_precomputed(16)),
        vec![
            1296489123, 1859727485, 1896852636, 303130976, 1221313505, 1574523155, 926972130, 938885123,
            1191821310, 1203734303, 556183278, 909392928, 1827575457, 233853797, 270978948, 834217310,
        ]
    );
}

#[test]
fn weight_times_denominator_is_sign() {
    // w_i * i! * (m-1-i)! = (-1)^(m-1-i)
    let m = 7usize;
    let w = barycentric_weights(m);
    let fact = |n: usize| (1..=n).fold(Fp::one(), |acc, k| acc.mul(Fp::from_usize(k)));
    for i in 0..m {
        let d = w[i].mul(fact(i)).mul(fact(m - 1 - i));
        let sign = if (m - 1 - i) % 2 == 0 { 1 } else { P - 1 };
        assert_eq!(d.value(), sign);
    }
}

#[test]
fn weight_is_inverse_of_grid_denominator() {
    // w_i * prod_{j != i} (i - j) = 1
    let m = 6usize;
    let w = barycentric_weights(m);
    for i in 0..m {
        let mut d = Fp::one();
        for j in 0..m {
            if j != i {
                d = d.mul(Fp::from_usize(i).sub(Fp::from_usize(j)));
            }
        }
        assert_eq!(w[i].mul(d).value(), 1);
    }
}

#[test]
fn lagrange_basis_at_grid_points_is_unit() {
    let m = 8usize;
    let w = barycentric_weights_precomputed(m);
    for k in 0..m {
        let l = evaluate_lagrange_basis_all(m, Ext::from_usize(k), &w);
        for i in 0..m {
            assert!(l[i] == if i == k { Ext::one() } else { Ext::zero() });
        }
        let lb = evaluate_lagrange_basis_all_base_field(m, Fp::from_usize(k), &w);
        assert_eq!(values(&lb), (0..m).map(|i| (i == k) as u32).collect::<Vec<_>>());
    }
}

#[test]
fn lagrange_basis_off_grid() {
    // L_i(x) sum to one and interpolate x^2 exactly.
    let m = 4usize;
    let w = barycentric_weights_precomputed(m);
    let x = Fp::from_usize(10);
    let l = evaluate_lagrange_basis_all_base_field(m, x, &w);
    let total = l.iter().fold(Fp::zero(), |acc, v| acc.add(*v));
    assert_eq!(total.value(), 1);
    let sq = l
        .iter()
        .enumerate()
        .fold(Fp::zero(), |acc, (i, v)| acc.add(v.mul(Fp::from_usize(i * i))));
    assert_eq!(sq.value(), 100);
    // L_0(10) = w_0 * (10-1)(10-2)(10-3) = -1/6 * 504 = -84
    assert_eq!(l[0].value(), P - 84);
    let le = evaluate_lagrange_basis_all(m, Ext::from_usize(10), &w);
    for i in 0..m {
        assert!(le[i] == Ext::from_base(l[i]));
    }
    assert_eq!(values(&evaluate_lagrange_basis_all_base_field(1, x, &[])), vec![1]);
}

#[test]
fn selectors_batch() {
    let pts = [Ext::from_usize(0), Ext::from_usize(3), Ext::from_usize(10)];
    let r = evaluate_selectors_batch(2, &pts);
    assert_eq!(r.len(), 3);
    assert!(r[0][0] == Ext::one() && r[0][1] == Ext::zero());
    // over {0, 1}: L_0(x) = 1 - x, L_1(x) = x
    assert!(r[1][0] == Ext::from_base(Fp::new(P - 2)) && r[1][1] == Ext::from_usize(3));
    assert!(r[2][1] == Ext::from_usize(10));
}

#[test]
fn base_field_basis_is_the_extension_basis_at_embedded_points() {
    for m in [2usize, 4, 5, 8] {
        let w = barycentric_weights(m);
        for v in [0u32, 3, 17, P - 1] {
            let x = Fp::new(v);
            let base = evaluate_lagrange_basis_all_base_field(m, x, &w);
            let ext = evaluate_lagrange_basis_all(m, Ext::from_base(x), &w);
            assert_eq!(base.len(), ext.len());
            for i in 0..m {
                assert!(Ext::from_base(base[i]) == ext[i]);
            }
        }
    }
}

#[test]
fn basis_off_grid_is_the_product_formula() {
    // L_i(x) = prod_{j != i} (x - j) / prod_{j != i} (i - j)
    let m = 4usize;
    let x = Fp::new(10);
    let basis = evaluate_lagrange_basis_all_base_field(m, x, &barycentric_weights(m));
    for i in 0..m {
        let mut num = Fp::one();
        let mut den = Fp::one();
        for j in 0..m {
            if j != i {
                num = num.mul(x.sub(Fp::from_usize(j)));
                den = den.mul(Fp::from_usize(i).sub(Fp::from_usize(j)));
            }
        }
        assert!(basis[i] == num.mul(den.try_inverse().unwrap()));
    }
}
