use sumcheck_utils::evals::EvaluationsList;
use sumcheck_utils::extension::Ext;
use sumcheck_utils::field::{Fp, P};
use sumcheck_utils::prove::{
    compute_over_hypercube, eval_sumcheck_computation, evaluate_quadratic, prover_plan,
    sc_round_evaluations,
    sc_round_finish, selectors_at_base, selectors_at_ext, RoundMessage,
};
use sumcheck_utils::fibonacci::fibonacci;
use sumcheck_utils::multilinear::fold_multilinear_in_extension;
use sumcheck_utils::verify::{
    grid_points, grid_size, interpolate_at, sum_round_polynomial, verify_plan,
    verify_with_univariate_skip_plan, RoundPolynomial, SumcheckError, VerifierRounds,
};

fn e(v: usize) -> Ext {
    Ext::from_usize(v)
}

fn exts(v: &[usize]) -> Vec<Ext> {
    v.iter().map(|&x| e(x)).collect()
}

fn neg(v: usize) -> Ext {
    Ext::zero().sub(e(v))
}

use sumcheck_utils::prove::ProductComputation;

#[test]
fn interpolation_through_grid_values() {
    // x^2 + 1 on {0, 1, 2}
    let ys = exts(&[1, 2, 5]);
    assert!(interpolate_at(&ys, e(10)) == e(101));
    assert!(interpolate_at(&ys, e(1)) == e(2));
    assert!(interpolate_at(&[], e(3)) == Ext::zero());
}

#[test]
fn verifier_accepts_consistent_rounds() {
    let mut v = VerifierRounds::new(false, 1);
    assert_eq!(v.proof_len(2), 3);
    let set = grid_points(2);
    let h = v.round_polynomial(None, &exts(&[1, 2, 5]));
    assert_eq!(v.check_round(&h, &set), Ok(()));
    assert!(v.sum == e(3));
    v.finish_round(&h, e(10));
    assert!(v.target == e(101));
    let g = v.round_polynomial(None, &exts(&[50, 51, 52]));
    assert_eq!(v.check_round(&g, &set), Ok(()));
    v.finish_round(&g, e(2));
    let (sum, eval) = v.into_result();
    assert!(sum == e(3));
    assert_eq!(eval.point.len(), 2);
    assert!(eval.point[0] == e(10) && eval.point[1] == e(2));
    assert!(eval.value == e(52));
}

#[test]
fn verifier_rejects_an_inconsistent_round() {
    let mut v = VerifierRounds::new(false, 1);
    let set = grid_points(2);
    let h = v.round_polynomial(None, &exts(&[1, 2, 5]));
    assert_eq!(v.check_round(&h, &set), Ok(()));
    v.finish_round(&h, e(10));
    let bad = v.round_polynomial(None, &exts(&[50, 52, 54]));
    assert_eq!(v.check_round(&bad, &set), Err(SumcheckError::InvalidRound));
    assert!(v.target == e(101));
    assert_eq!(v.round, 1);
}

#[test]
fn zerocheck_first_round_shape() {
    let v = VerifierRounds::new(true, 2);
    // deg + 2 - 4 - 4 evaluations for degree 9
    assert_eq!(v.proof_len(9), 3);
    let eq_point = [e(7)];
    let pol = v.round_polynomial(Some(&eq_point), &exts(&[1, 2, 3]));
    assert_eq!(pol.p_evals.len(), 7);
    assert!(pol.p_evals[0] == Ext::zero() && pol.p_evals[3] == Ext::zero() && pol.p_evals[4] == e(1));
    assert_eq!(pol.eq_evals.len(), 4);
    assert!(pol.times_eq);
    let later = VerifierRounds { first_round: false, skips: 1, ..VerifierRounds::new(true, 1) };
    assert_eq!(later.proof_len(3), 3);
}

#[test]
fn verification_plans() {
    let (degrees, sets) = verify_plan(3, 2);
    assert_eq!(degrees, vec![2, 2, 2]);
    assert_eq!(sets.len(), 3);
    assert!(sets[2][1] == e(1));
    let (degrees, sets) = verify_with_univariate_skip_plan(2, 5, 2);
    assert_eq!(degrees, vec![6, 2, 2, 2]);
    assert_eq!(sets[0].len(), 4);
    assert!(sets[0][3] == e(3));
    assert_eq!(sets[1].len(), 2);
    assert_eq!(grid_size(4), 16);
}

#[test]
fn computation_over_the_hypercube() {
    let a = EvaluationsList::new(exts(&[1, 2, 3, 4]));
    let b = EvaluationsList::new(exts(&[5, 6, 7, 8]));
    let one = [Ext::one()];
    assert!(compute_over_hypercube(&[a, b], &ProductComputation, &one, None) == e(70));
    let a = EvaluationsList::new(exts(&[1, 2, 3, 4]));
    let b = EvaluationsList::new(exts(&[5, 6, 7, 8]));
    let eq = EvaluationsList::new(exts(&[1, 0, 0, 1]));
    assert!(compute_over_hypercube(&[a, b], &ProductComputation, &one, Some(&eq)) == e(37));
    assert!(eval_sumcheck_computation(&ProductComputation, &[e(2)], &exts(&[3, 4]), Some(e(5))) == e(120));
}

#[test]
fn classic_prover_round() {
    let a = EvaluationsList::new(exts(&[1, 2, 3, 4]));
    let b = EvaluationsList::new(exts(&[5, 6, 7, 8]));
    let ms = [&a, &b];
    let one = [Ext::one()];
    let msg = sc_round_evaluations(1, &ms, &ProductComputation, None, None, &one, false, 2, e(70), 0, None);
    match &msg {
        RoundMessage::Classic { h0, h1, h_half } => {
            assert!(*h0 == e(17));
            assert!(*h1 == e(53));
            assert!(*h_half == e(33));
        }
        RoundMessage::General { .. } => panic!("expected a classic round"),
    }
    let (sum, factor, folded) = sc_round_finish(1, &ms, None, 0, &msg, e(3), None);
    assert!(sum == e(173));
    assert!(factor.is_none());
    assert!(folded[0].evals()[0] == e(7) && folded[0].evals()[1] == e(8));
    assert!(folded[1].evals()[0] == e(11) && folded[1].evals()[1] == e(12));
}

#[test]
fn general_prover_round() {
    let a = EvaluationsList::new(exts(&[1, 2, 3, 4]));
    let b = EvaluationsList::new(exts(&[5, 6, 7, 8]));
    let ms = [&a, &b];
    let one = [Ext::one()];
    let msg = sc_round_evaluations(1, &ms, &ProductComputation, None, None, &one, false, 3, e(70), 0, None);
    match &msg {
        RoundMessage::General { p_evals } => {
            assert_eq!(p_evals.len(), 4);
            assert!(p_evals[0] == e(17) && p_evals[1] == e(53));
            assert!(p_evals[2] == e(105) && p_evals[3] == e(173));
        }
        RoundMessage::Classic { .. } => panic!("expected a general round"),
    }
    let (sum, _, _) = sc_round_finish(1, &ms, None, 0, &msg, e(10), None);
    assert!(sum == e(1097));
    let zero_msg = sc_round_evaluations(1, &ms, &ProductComputation, None, None, &one, true, 3, e(0), 0, None);
    match &zero_msg {
        RoundMessage::General { p_evals } => {
            assert_eq!(p_evals.len(), 4);
            assert!(p_evals[0] == Ext::zero() && p_evals[1] == Ext::zero() && p_evals[2] == e(105));
        }
        RoundMessage::Classic { .. } => panic!("expected a general round"),
    }
}

#[test]
fn prover_round_with_eq_point() {
    let a = EvaluationsList::new(exts(&[1, 2, 3, 4]));
    let b = EvaluationsList::new(exts(&[5, 6, 7, 8]));
    let ms = [&a, &b];
    let one = [Ext::one()];
    let eq_point = [e(2)];
    let msg = sc_round_evaluations(1, &ms, &ProductComputation, Some(&eq_point), None, &one, false, 3, e(70), 0, None);
    match &msg {
        RoundMessage::General { p_evals } => {
            // (70 - 17 * (1 - 2)) / 2 = 87 / 2
            assert!(p_evals[1].mul(e(2)) == e(87));
        }
        RoundMessage::Classic { .. } => panic!("expected a general round"),
    }
    let (_, factor, _) = sc_round_finish(1, &ms, Some(&eq_point), 0, &msg, e(3), None);
    // (1 - 2)(1 - 3) + 2 * 3 = 8
    assert!(factor.unwrap() == e(8));
}

#[test]
fn quadratic_and_selectors() {
    assert!(evaluate_quadratic(e(17), e(53), e(33), e(3)) == e(173));
    assert!(evaluate_quadratic(e(17), e(53), e(33), Ext::zero()) == e(17));
    let s = selectors_at_base(2, 3);
    assert_eq!(s[0].value(), P - 2);
    assert_eq!(s[1].value(), 3);
    let se = selectors_at_ext(2, e(3));
    assert!(se[0] == neg(2) && se[1] == e(3));
    let _ = Fp::zero();
}

#[test]
fn prover_round_is_accepted_by_the_verifier_check() {
    let a = EvaluationsList::new(exts(&[1, 2, 3, 4]));
    let b = EvaluationsList::new(exts(&[5, 6, 7, 8]));
    let ms = [&a, &b];
    let one = [Ext::one()];
    let msg = sc_round_evaluations(1, &ms, &ProductComputation, None, None, &one, false, 3, e(70), 0, None);
    let p_evals = match msg {
        RoundMessage::General { p_evals } => p_evals,
        RoundMessage::Classic { .. } => panic!("expected a general round"),
    };
    let pol = RoundPolynomial { p_evals, eq_evals: Vec::new(), times_eq: false };
    assert!(sum_round_polynomial(&pol, &grid_points(2)) == e(70));
}

#[test]
fn quadratic_passes_through_its_points() {
    let half = Ext::from_base(Fp::one().halve());
    assert!(evaluate_quadratic(e(17), e(53), e(33), Ext::one()) == e(53));
    assert!(evaluate_quadratic(e(17), e(53), e(33), half) == e(33));
}

#[test]
fn fibonacci_in_the_field() {
    assert_eq!(fibonacci(0).value(), 0);
    assert_eq!(fibonacci(1).value(), 1);
    assert_eq!(fibonacci(10).value(), 55);
    // F_47 = 2971215073 exceeds p
    assert_eq!(fibonacci(47).value(), (2971215073u64 % P as u64) as u32);
}

#[test]
fn eq_round_is_accepted_by_the_verifier_check() {
    let a = EvaluationsList::new(exts(&[1, 2, 3, 4]));
    let b = EvaluationsList::new(exts(&[5, 6, 7, 8]));
    let ms = [&a, &b];
    let one = [Ext::one()];
    let eq_point = [e(2)];
    let msg = sc_round_evaluations(1, &ms, &ProductComputation, Some(&eq_point), None, &one, false, 3, e(70), 0, None);
    let p_evals = match msg {
        RoundMessage::General { p_evals } => p_evals,
        RoundMessage::Classic { .. } => panic!("expected a general round"),
    };
    let sel = selectors_at_ext(2, e(2));
    // p(0) * S_0(2) + p(1) * S_1(2) is the claimed sum
    assert!(p_evals[0].mul(sel[0]).add(p_evals[1].mul(sel[1])) == e(70));
    let pol = RoundPolynomial { p_evals, eq_evals: sel, times_eq: true };
    assert!(sum_round_polynomial(&pol, &grid_points(2)) == e(70));
}

#[test]
fn prover_round_schedule() {
    let plan = prover_plan(5, 3, None, Some(3), true).unwrap();
    assert_eq!(plan, vec![(3, true), (1, false), (1, false)]);
    assert_eq!(prover_plan(5, 3, Some(1), None, false).unwrap(), vec![(3, false)]);
    assert_eq!(prover_plan(5, 3, Some(0), None, false).unwrap(), vec![(3, false)]);
    assert!(prover_plan(2, 3, None, None, false).is_none());
    assert!(prover_plan(5, 3, None, Some(2), false).is_none());
    assert!(prover_plan(5, 3, Some(4), None, false).is_none());
}

#[test]
fn classic_half_value_is_the_value_at_one_half() {
    let a = EvaluationsList::new(exts(&[1, 2, 3, 4]));
    let b = EvaluationsList::new(exts(&[5, 6, 7, 8]));
    let ms = [&a, &b];
    let one = [Ext::one()];
    let msg = sc_round_evaluations(1, &ms, &ProductComputation, None, None, &one, false, 2, e(70), 0, None);
    let half = Ext::from_base(Fp::one().halve());
    let fa = fold_multilinear_in_extension(&a, &[half, half]);
    let fb = fold_multilinear_in_extension(&b, &[half, half]);
    let direct = compute_over_hypercube(&[fa, fb], &ProductComputation, &one, None);
    match msg {
        RoundMessage::Classic { h_half, .. } => assert!(h_half == direct),
        RoundMessage::General { .. } => panic!("expected a classic round"),
    }
}

#[test]
fn classic_round_keeps_the_claim() {
    let a = EvaluationsList::new(exts(&[1, 2, 3, 4]));
    let b = EvaluationsList::new(exts(&[5, 6, 7, 8]));
    let ms = [&a, &b];
    let one = [Ext::one()];
    // 1*5 + 2*6 + 3*7 + 4*8
    let msg = sc_round_evaluations(1, &ms, &ProductComputation, None, None, &one, false, 2, e(70), 0, None);
    for c in [3usize, 2, 17] {
        let (new_sum, _, folded) = sc_round_finish(1, &ms, None, 0, &msg, e(c), None);
        assert!(new_sum == compute_over_hypercube(&folded, &ProductComputation, &one, None));
    }
}

#[test]
fn quadratic_is_determined_by_three_values() {
    // q(z) = 1 + 2 z + 3 z^2: q(0) = 1, q(1) = 6, q(1/2) = 11/4, q(2) = 17
    let quarter = Ext::from_base(Fp::one().halve().halve());
    let q_half = e(11).mul(quarter);
    assert!(evaluate_quadratic(e(1), e(6), q_half, e(2)) == e(17));
    assert!(evaluate_quadratic(e(1), e(6), q_half, e(5)) == e(86));
}
