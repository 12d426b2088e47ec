//! Sumcheck engine tests: the round polynomial, compression, and the
//! equality table.

use whir::field::Fp;
use whir::poly_utils::coeffs::CoefficientList;
use whir::poly_utils::MultilinearPoint;
use whir::sumcheck::prover_single::SumcheckSingle;

#[test]
fn test_sumcheck_folding_factor_1() {
    let eval_point = MultilinearPoint(vec![Fp::from_u64(10), Fp::from_u64(11)]);
    let polynomial = CoefficientList::new(vec![
        Fp::from_u64(1),
        Fp::from_u64(5),
        Fp::from_u64(10),
        Fp::from_u64(14),
    ]);

    let claimed_value = polynomial.evaluate(&eval_point);

    let eval = polynomial.evaluate(&eval_point);
    let mut prover =
        SumcheckSingle::new(polynomial, &vec![eval_point], &vec![Fp::from_u64(1)], &vec![eval]);

    let poly_1 = prover.compute_sumcheck_polynomial();

    // The first round polynomial must sum to the claimed value over {0,1}
    assert_eq!(poly_1.sum_over_hypercube(), claimed_value);

    let combination_randomness = Fp::from_u64(100101);
    let folding_randomness = MultilinearPoint(vec![Fp::from_u64(4999)]);

    prover.compress(combination_randomness, &folding_randomness, &poly_1);

    let poly_2 = prover.compute_sumcheck_polynomial();

    assert_eq!(
        poly_2.sum_over_hypercube(),
        combination_randomness.mul(poly_1.evaluate_at_point(&folding_randomness))
    );
}

#[test]
fn test_eval_eq() {
    let eval = vec![Fp::from_u64(3), Fp::from_u64(5)];
    let mut out = vec![Fp::zero(); 4];
    SumcheckSingle::eval_eq(&eval, &mut out, Fp::one());

    // The four Lagrange weights of (3, 5) over {0,1}^2, first coordinate on
    // the high bit of the index.
    let one = Fp::one();
    let z0 = Fp::from_u64(3);
    let z1 = Fp::from_u64(5);
    let expected = vec![
        one.sub(z0).mul(one.sub(z1)),
        one.sub(z0).mul(z1),
        z0.mul(one.sub(z1)),
        z0.mul(z1),
    ];

    assert_eq!(&out, &expected);
}

#[test]
fn test_eval_eq_accumulates() {
    // Two constraints added one after the other give the sum of the two
    // single-constraint tables.
    let za = vec![Fp::from_u64(3), Fp::from_u64(5)];
    let zb = vec![Fp::from_u64(7), Fp::from_u64(2)];
    let ra = Fp::from_u64(11);
    let rb = Fp::from_u64(13);

    let mut both = vec![Fp::zero(); 4];
    SumcheckSingle::eval_eq(&za, &mut both, ra);
    SumcheckSingle::eval_eq(&zb, &mut both, rb);

    let mut only_a = vec![Fp::zero(); 4];
    SumcheckSingle::eval_eq(&za, &mut only_a, ra);
    let mut only_b = vec![Fp::zero(); 4];
    SumcheckSingle::eval_eq(&zb, &mut only_b, rb);

    for i in 0..4usize {
        assert_eq!(both[i], only_a[i].add(only_b[i]));
    }
}

#[test]
fn test_round_polynomial_sums_to_claim() {
    // The emitted round polynomial always satisfies g(0) + g(1) = claim.
    let point = MultilinearPoint(vec![Fp::from_u64(2), Fp::from_u64(9), Fp::from_u64(31)]);
    let polynomial = CoefficientList::new(vec![
        Fp::from_u64(4),
        Fp::from_u64(0),
        Fp::from_u64(8),
        Fp::from_u64(3),
        Fp::from_u64(1),
        Fp::from_u64(17),
        Fp::from_u64(2),
        Fp::from_u64(6),
    ]);
    let value = polynomial.evaluate(&point);
    let prover =
        SumcheckSingle::new(polynomial, &vec![point], &vec![Fp::from_u64(21)], &vec![value]);

    let g = prover.compute_sumcheck_polynomial();
    assert_eq!(g.sum_over_hypercube(), Fp::from_u64(21).mul(value));
}

#[test]
fn test_new_with_no_constraints() {
    // Zero statement points: the claimed sum starts at zero and the weight
    // table is all zeros.
    let polynomial = CoefficientList::new(vec![Fp::from_u64(5), Fp::from_u64(9)]);
    let prover = SumcheckSingle::new(polynomial, &vec![], &vec![], &vec![]);
    let g = prover.compute_sumcheck_polynomial();
    assert_eq!(g.sum_over_hypercube(), Fp::zero());
}

#[test]
fn test_sumcheck_polynomial_interpolates() {
    // evaluate_at_point reproduces the stored values at 0, 1 and 2.
    let g = whir::sumcheck::polynomial::SumcheckPolynomial::new(
        vec![Fp::from_u64(7), Fp::from_u64(100), Fp::from_u64(341)],
        1,
    );
    assert_eq!(g.evaluate_at_point(&MultilinearPoint(vec![Fp::zero()])), Fp::from_u64(7));
    assert_eq!(g.evaluate_at_point(&MultilinearPoint(vec![Fp::one()])), Fp::from_u64(100));
    assert_eq!(g.evaluate_at_point(&MultilinearPoint(vec![Fp::from_u64(2)])), Fp::from_u64(341));
    assert_eq!(g.sum_over_hypercube(), Fp::from_u64(107));
}
