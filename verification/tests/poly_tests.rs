//! Polynomial representation and field tests: evaluation, conversion in both
//! directions, folding, and the protocol parameters.

use core::str::FromStr;

use whir::field::{Fp, HALF, MODULUS};
use whir::parameters::{MultivariateParameters, SoundnessType, WhirParameters};
use whir::poly_utils::coeffs::CoefficientList;
use whir::poly_utils::evals::EvaluationsList;
use whir::poly_utils::MultilinearPoint;
use whir::whir::Statement;

#[test]
fn test_evaluation() {
    let evaluations_vec = vec![Fp::zero(), Fp::one(), Fp::zero(), Fp::one()];
    let evals = EvaluationsList::new(evaluations_vec.clone());

    for i in 0..4u64 {
        assert_eq!(
            evaluations_vec[i as usize],
            evals.evaluate(&MultilinearPoint::from_binary_hypercube_point(i, 2))
        );
    }
}

#[test]
fn test_field_arithmetic() {
    let max = Fp::from_u64(MODULUS - 1);
    // Wrap-around of addition at the modulus.
    assert_eq!(max.add(Fp::one()), Fp::zero());
    // Subtraction below zero wraps to the top.
    assert_eq!(Fp::zero().sub(Fp::one()), max);
    // HALF is the inverse of two.
    assert_eq!(Fp::from_u64(2).mul(Fp::from_u64(HALF)), Fp::one());
    // from_u64 reduces.
    assert_eq!(Fp::from_u64(MODULUS), Fp::zero());
    // An exact product.
    assert_eq!(Fp::from_u64(6).mul(Fp::from_u64(7)), Fp::from_u64(42));
}

#[test]
fn test_coefficient_evaluation() {
    // p(x0, x1) = 1 + 5*x1 + 10*x0 + 14*x0*x1 at (2, 3):
    // 1 + 15 + 20 + 84 = 120.
    let p = CoefficientList::new(vec![
        Fp::from_u64(1),
        Fp::from_u64(5),
        Fp::from_u64(10),
        Fp::from_u64(14),
    ]);
    let at = MultilinearPoint(vec![Fp::from_u64(2), Fp::from_u64(3)]);
    assert_eq!(p.evaluate(&at), Fp::from_u64(120));
}

#[test]
fn test_evaluations_match_coefficients() {
    // The butterfly table holds exactly the evaluations on the hypercube.
    let coeffs = vec![
        Fp::from_u64(1),
        Fp::from_u64(5),
        Fp::from_u64(10),
        Fp::from_u64(14),
    ];
    let p = CoefficientList::new(coeffs.clone());
    let evals = CoefficientList::new(coeffs).to_evaluations();
    for i in 0..4u64 {
        let at = MultilinearPoint::from_binary_hypercube_point(i, 2);
        assert_eq!(evals.index(i as usize), p.evaluate(&at));
    }
}

#[test]
fn test_evaluation_round_trip() {
    // CoefficientList -> EvaluationsList -> CoefficientList is the identity.
    let coeffs = vec![
        Fp::from_u64(1),
        Fp::from_u64(5),
        Fp::from_u64(10),
        Fp::from_u64(14),
        Fp::from_u64(0),
        Fp::from_u64(3),
        Fp::from_u64(9),
        Fp::from_u64(1000),
    ];
    let p = CoefficientList::new(coeffs.clone());
    let back = p.to_evaluations().to_coefficients();
    for i in 0..8u64 {
        let unit = MultilinearPoint::from_binary_hypercube_point(i, 3);
        let q = CoefficientList::new(coeffs.clone());
        assert_eq!(back.evaluate(&unit), q.evaluate(&unit));
    }
    assert_eq!(back.num_coeffs(), 8);
}

#[test]
fn test_fold_commutes_with_evaluation() {
    // fold(p, r).evaluate(x) == p.evaluate(r ++ x).
    let p = CoefficientList::new(vec![
        Fp::from_u64(4),
        Fp::from_u64(0),
        Fp::from_u64(8),
        Fp::from_u64(3),
        Fp::from_u64(1),
        Fp::from_u64(17),
        Fp::from_u64(2),
        Fp::from_u64(6),
    ]);
    let r = MultilinearPoint(vec![Fp::from_u64(500)]);
    let x = MultilinearPoint(vec![Fp::from_u64(42), Fp::from_u64(9001)]);
    let rx = MultilinearPoint(vec![
        Fp::from_u64(500),
        Fp::from_u64(42),
        Fp::from_u64(9001),
    ]);
    let folded = p.fold(&r);
    assert_eq!(folded.num_variables(), 2);
    assert_eq!(folded.evaluate(&x), p.evaluate(&rx));
}

#[test]
fn test_from_binary_hypercube_point() {
    let point = MultilinearPoint::from_binary_hypercube_point(0b101, 3);
    assert_eq!(point.0, vec![Fp::one(), Fp::zero(), Fp::one()]);
}

#[test]
fn test_soundness_type_names() {
    assert_eq!(SoundnessType::ProvableList.name(), "ProvableList");
    assert_eq!(SoundnessType::ConjectureList.name(), "ConjectureList");
    assert_eq!(SoundnessType::UniqueDecoding.name(), "UniqueDecoding");
    assert_eq!(
        SoundnessType::from_str("UniqueDecoding"),
        Ok(SoundnessType::UniqueDecoding)
    );
    assert!(SoundnessType::from_str("Other").is_err());
}

#[test]
fn test_parameters() {
    let mv = MultivariateParameters::new(6);
    assert_eq!(mv.num_variables, 6);
    let params = WhirParameters {
        starting_log_inv_rate: 1,
        folding_factor: 2,
        soundness_type: SoundnessType::UniqueDecoding,
        security_level: 100,
        protocol_security_level: 100,
    };
    assert_eq!(params.folding_factor, 2);
}

#[test]
fn test_statement() {
    let point = MultilinearPoint(vec![Fp::from_u64(3), Fp::from_u64(5)]);
    let p = CoefficientList::new(vec![
        Fp::from_u64(1),
        Fp::from_u64(5),
        Fp::from_u64(10),
        Fp::from_u64(14),
    ]);
    let value = p.evaluate(&point);
    let statement = Statement { points: vec![point], evaluations: vec![value] };
    assert_eq!(statement.num_claims(), 1);
}

#[test]
fn test_extension_matches_coefficients() {
    // The multilinear extension of the evaluation table agrees with the
    // coefficient form at a point far off the hypercube.
    let coeffs = vec![
        Fp::from_u64(3),
        Fp::from_u64(1),
        Fp::from_u64(4),
        Fp::from_u64(1),
        Fp::from_u64(5),
        Fp::from_u64(9),
        Fp::from_u64(2),
        Fp::from_u64(6),
    ];
    let p = CoefficientList::new(coeffs.clone());
    let e = CoefficientList::new(coeffs).to_evaluations();
    let at = MultilinearPoint(vec![
        Fp::from_u64(123456),
        Fp::from_u64(789),
        Fp::from_u64(31337),
    ]);
    assert_eq!(e.evaluate(&at), p.evaluate(&at));
}
