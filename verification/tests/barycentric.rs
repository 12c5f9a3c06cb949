use ark_ff::{BigInteger256, Field, PrimeField};
use ark_poly::{univariate::DensePolynomial, DenseUVPolynomial, Polynomial};
use ark_vesta::Fr;
use lilium_sumcheck::barycentric::BarycentricWeights;
use lilium_sumcheck::field::Scalar;
use rand::{thread_rng, Rng};

fn to_scalar(x: Fr) -> Scalar {
    Scalar::from_limbs(x.into_bigint().0).unwrap()
}

fn to_fr(x: Scalar) -> Fr {
    Fr::from_bigint(BigInteger256::new(x.to_limbs())).unwrap()
}

#[test]
fn test_barycentric_eval() {
    let evals = 16;
    let degree = evals - 1;
    let weights = BarycentricWeights::compute(degree);

    let mut rng = thread_rng();
    for _ in 0..16 {
        let poly = DensePolynomial::<Fr>::rand(degree as usize, &mut rng);
        let bytes: [u8; 30] = rng.gen();
        let point = Fr::from_random_bytes(&bytes).unwrap();
        let true_eval = poly.evaluate(&point);

        let evals: Vec<Scalar> = (0..evals)
            .map(|i| to_scalar(poly.evaluate(&Fr::from(i))))
            .collect();
        let check_eval = weights.evaluate(&evals, &to_scalar(point));
        assert_eq!(true_eval, to_fr(check_eval));
        let eval1 = evals[1];
        let check_eval = weights.evaluate(&evals, &Scalar::from_u64(1));
        assert_eq!(eval1, check_eval);
    }
}

#[test]
fn extend_gives_the_next_value() {
    // The line 2x + 1 over 0..=1 extends to 5 at 2.
    let weights = BarycentricWeights::compute(1);
    let evals = vec![Scalar::from_u64(1), Scalar::from_u64(3)];
    assert_eq!(weights.extend(&evals), Scalar::from_u64(5));
    assert_eq!(weights.domain_size(), 2);
}

#[test]
fn quadratic_evaluates_outside_the_domain() {
    // x^2 over 0..=2 is 0, 1, 4; at 7 it is 49.
    let weights = BarycentricWeights::compute(2);
    let evals = vec![Scalar::from_u64(0), Scalar::from_u64(1), Scalar::from_u64(4)];
    assert_eq!(
        weights.evaluate(&evals, &Scalar::from_u64(7)),
        Scalar::from_u64(49)
    );
}
