use sumcheck_utils::evals::EvaluationsList;
use sumcheck_utils::extension::Ext;
use sumcheck_utils::field::{Fp, P};
use sumcheck_utils::multilinear::{
    add_multilinears, batch_fold_multilinear_in_extension, batch_fold_multilinear_in_large_field,
    batch_fold_multilinear_in_large_field_no_skip, batch_fold_multilinear_in_small_field,
    batch_fold_multilinear_in_small_field_no_skip, fold_multilinear_in_extension,
    fold_multilinear_in_large_field, fold_multilinear_in_large_field_no_skip,
    fold_multilinear_in_small_field, fold_multilinear_in_small_field_no_skip,
    fold_multilinear_packed, lift_multilinear, multilinears_linear_combination, next_power_of_two,
    packed_multilinear,
};
use sumcheck_utils::univariate::{barycentric_weights_precomputed, evaluate_lagrange_basis_all_base_field};

fn fps(v: &[u32]) -> Vec<Fp> {
    v.iter().map(|&x| Fp::new(x)).collect()
}

fn exts(v: &[u32]) -> Vec<Ext> {
    v.iter().map(|&x| Ext::from_usize(x as usize)).collect()
}

fn vals(v: &[Fp]) -> Vec<u32> {
    v.iter().map(|x| x.value()).collect()
}

fn ext_eq(a: &[Ext], b: &[Ext]) -> bool {
    a.len() == b.len() && a.iter().zip(b.iter()).all(|(x, y)| x == y)
}

#[test]
fn evaluations_list_shape() {
    let m = EvaluationsList::new(fps(&[1, 2, 3, 4, 5, 6, 7, 8]));
    assert_eq!(m.num_evals(), 8);
    assert_eq!(m.num_variables(), 3);
    assert_eq!(vals(m.evals()), vec![1, 2, 3, 4, 5, 6, 7, 8]);
    assert_eq!(EvaluationsList::new(fps(&[9])).num_variables(), 0);
}

#[test]
fn packed_fold_by_four_scalars() {
    let m = EvaluationsList::new(fps(&[1, 2, 3, 4, 5, 6, 7, 8]));
    let r = fold_multilinear_packed(&m, &fps(&[1, 10, 100, 1000]));
    // new_size = 2: r[i] = m[i] + 10 m[i+2] + 100 m[i+4] + 1000 m[i+6]
    assert_eq!(vals(r.evals()), vec![1 + 30 + 500 + 7000, 2 + 40 + 600 + 8000]);
    let r1 = fold_multilinear_packed(&m, &fps(&[P - 1]));
    assert_eq!(vals(r1.evals()), (1..=8).map(|v| P - v).collect::<Vec<_>>());
}

#[test]
fn small_and_large_field_folds() {
    let me = EvaluationsList::new(exts(&[1, 2, 3, 4]));
    let r = fold_multilinear_in_small_field(&me, &fps(&[2, 3]));
    assert!(ext_eq(r.evals(), &exts(&[2 + 9, 4 + 12])));
    let rn = fold_multilinear_in_small_field_no_skip(&me, &fps(&[2, 3]));
    assert!(ext_eq(rn.evals(), r.evals()));

    let mf = EvaluationsList::new(fps(&[1, 2, 3, 4]));
    let s = exts(&[5, 7]);
    let r = fold_multilinear_in_large_field(&mf, &s);
    assert!(ext_eq(r.evals(), &exts(&[5 + 21, 10 + 28])));
    let rn = fold_multilinear_in_large_field_no_skip(&mf, &s);
    assert!(ext_eq(rn.evals(), r.evals()));

    let re = fold_multilinear_in_extension(&me, &s);
    assert!(ext_eq(re.evals(), &exts(&[5 + 21, 10 + 28])));
}

#[test]
fn batch_folds_fold_each_list() {
    let a = EvaluationsList::new(fps(&[1, 2, 3, 4]));
    let b = EvaluationsList::new(fps(&[5, 6, 7, 8]));
    let s = exts(&[1, 2]);
    let r = batch_fold_multilinear_in_large_field(&[&a, &b], &s);
    assert_eq!(r.len(), 2);
    assert!(ext_eq(r[1].evals(), &exts(&[5 + 14, 6 + 16])));
    let rn = batch_fold_multilinear_in_large_field_no_skip(&[&a, &b], &s);
    assert!(ext_eq(rn[0].evals(), r[0].evals()));

    let ea = EvaluationsList::new(exts(&[1, 2, 3, 4]));
    let sf = fps(&[1, 2]);
    let r = batch_fold_multilinear_in_small_field(&[&ea], &sf);
    assert!(ext_eq(r[0].evals(), &exts(&[7, 10])));
    let rn = batch_fold_multilinear_in_small_field_no_skip(&[&ea], &sf);
    assert!(ext_eq(rn[0].evals(), r[0].evals()));
    let re = batch_fold_multilinear_in_extension(&[&ea], &s);
    assert!(ext_eq(re[0].evals(), &exts(&[7, 10])));
}

#[test]
fn folding_at_a_grid_point_keeps_a_block() {
    let m = EvaluationsList::new(exts(&[1, 2, 3, 4, 5, 6, 7, 8]));
    let w = barycentric_weights_precomputed(4);
    let sel = evaluate_lagrange_basis_all_base_field(4, Fp::from_usize(2), &w);
    let r = fold_multilinear_in_small_field(&m, &sel);
    assert!(ext_eq(r.evals(), &exts(&[5, 6])));
}

#[test]
fn linear_combination_of_lists() {
    let a = EvaluationsList::new(fps(&[1, 2]));
    let b = EvaluationsList::new(fps(&[3, 4]));
    let r = multilinears_linear_combination(&[a, b], &exts(&[10, 100]));
    assert!(ext_eq(r.evals(), &exts(&[310, 420])));
}

#[test]
fn packing_pads_to_a_power_of_two() {
    let a = EvaluationsList::new(fps(&[1, 2]));
    let b = EvaluationsList::new(fps(&[3, 4]));
    let c = EvaluationsList::new(fps(&[5, 6]));
    let r = packed_multilinear(&[a, b, c]);
    assert_eq!(vals(r.evals()), vec![1, 2, 3, 4, 5, 6, 0, 0]);
    assert_eq!(next_power_of_two(5), 8);
    assert_eq!(next_power_of_two(8), 8);
    assert_eq!(next_power_of_two(1), 1);
    assert_eq!(next_power_of_two(0), 1);
}

#[test]
fn adding_lists() {
    let a = EvaluationsList::new(exts(&[1, 2]));
    let b = EvaluationsList::new(exts(&[3, 4]));
    let r = add_multilinears(&a, &b);
    assert!(ext_eq(r.evals(), &exts(&[4, 6])));
}

#[test]
fn folding_a_lifted_multilinear_is_folding_in_the_large_field() {
    let m = EvaluationsList::new(fps(&[1, 2, 3, 4, 5, 6, 7, P - 1]));
    let s = exts(&[3, 11]);
    let lifted = fold_multilinear_in_extension(&lift_multilinear(&m), &s);
    let direct = fold_multilinear_in_large_field(&m, &s);
    assert_eq!(lifted.evals().len(), 4);
    for i in 0..4 {
        assert!(lifted.evals()[i] == direct.evals()[i]);
    }
}
