use ark_ff::{PrimeField, UniformRand};
use ark_vesta::Fr;
use lilium_sumcheck::field::Scalar;
use lilium_sumcheck::polynomials::{eval, eval_slow, MultiPoint};
use lilium_sumcheck::sumcheck::{EvalLocation, Expr, SumcheckProver, SumcheckVerifier};
use lilium_sumcheck::sumcheck_reduction::{eval_rows, eval_rows_slow};
use lilium_sumcheck::transcript::{GuardedProof, TranscriptBuilder, VerifierTranscript};
use lilium_sumcheck::zerocheck::{bits, CompactPowers, ZeroCheckIdx, ZeroCheckMles};
use rand::{rngs::StdRng, SeedableRng};

fn to_scalar(x: Fr) -> Scalar {
    Scalar::from_limbs(x.into_bigint().0).unwrap()
}

fn random(rng: &mut StdRng) -> Scalar {
    to_scalar(Fr::rand(rng))
}

#[test]
fn compact_powers() {
    let mut rng = StdRng::seed_from_u64(0);
    let chall = random(&mut rng);
    let vars = 5;
    let powers = CompactPowers::new(chall, vars);
    assert_eq!(
        powers.point_eval(&MultiPoint::new(vec![Scalar::zero(); vars])),
        Scalar::one()
    );
    let powers = powers.eval_over_domain();
    assert_eq!(powers.len(), 1 << vars);
    let mut expected = Scalar::one();
    for eval in powers {
        assert_eq!(eval, expected);
        expected = expected.mul(&chall);
    }
}

#[test]
fn powers_over_domain() {
    let mut rng = StdRng::seed_from_u64(0);
    let challs = [(); 3].map(|_| random(&mut rng));
    let vars = 5;
    let [c1, c2, c3] = challs;
    let powers1 = CompactPowers::new(c1, vars);
    let powers2 = CompactPowers::new(c2, vars);
    let powers3 = powers1.clone().mul(&c3).add(powers2.clone());

    let mut evals3 = powers3.eval_over_domain().into_iter();
    for i in 0..(1 << vars) {
        let point = bits(i, vars).into_iter().map(|b| Scalar::from_u64(b as u64));
        let point = MultiPoint::new(point.rev().collect());
        let e3 = evals3.next().unwrap();
        assert_eq!(e3, powers3.point_eval(&point));
    }
}

#[test]
fn mle_equivalence() {
    let mut rng = StdRng::seed_from_u64(0);
    let elems = [(); 10].map(|_| random(&mut rng));
    let mut elems = elems.into_iter();
    const VARS: usize = 3;

    let fixes = [(); VARS].map(|_| elems.next().unwrap());
    let p1 = CompactPowers::new(elems.next().unwrap(), VARS);
    let p2 = CompactPowers::new(elems.next().unwrap(), VARS);
    let fold = elems.next().unwrap();
    let powers = p1.mul(&fold).add(p2);
    let mut factors = powers.factors().clone();
    factors[2] = (Scalar::one(), Scalar::one());
    let powers = CompactPowers::from_factors(factors);
    let mut full_eval = Scalar::one();
    for (fix, (b, c)) in fixes.iter().zip(powers.factors().clone()) {
        let eval = b.mul(fix).add(&c.mul(&Scalar::one().sub(fix)));
        full_eval = full_eval.mul(&eval);
    }
    let check_point = MultiPoint::new(fixes.to_vec());
    assert_eq!(full_eval, powers.point_eval(&check_point));
}

#[test]
fn factor_folding() {
    let vars = 5;
    let mut rng = StdRng::seed_from_u64(0);
    let chall = random(&mut rng);

    let p1 = CompactPowers::new(random(&mut rng), vars);
    let p2 = CompactPowers::new(random(&mut rng), vars);
    let p3 = p1.clone().mul(&chall).add(p2.clone());

    let check_point = [(); 5].map(|_| random(&mut rng));

    let eval = |(a, b): (Scalar, Scalar), x: Scalar| a.mul(&x).add(&b.mul(&Scalar::one().sub(&x)));
    let mut res = Scalar::one();

    for i in 0..vars {
        let e1 = eval(p1.factors()[i], check_point[i]);
        let e2 = eval(p2.factors()[i], check_point[i]);
        let e3 = eval(p3.factors()[i], check_point[i]);
        assert_eq!(e1.mul(&chall).add(&e2), e3);
        res = res.mul(&e1.mul(&chall).add(&e2));
    }
    let check_point = MultiPoint::new(check_point.to_vec());

    let p1ev = p1.point_eval(&check_point);
    let p2ev = p2.point_eval(&check_point);
    let p3ev = p3.point_eval(&check_point);
    assert_eq!(res, p3ev);
    assert_ne!(p1ev.mul(&chall).add(&p2ev), p3ev);
}

#[test]
fn compact_powers_hypercube_sum() {
    let mut rng = StdRng::seed_from_u64(0);
    let chall = random(&mut rng);
    let vars = 5;

    let powers = CompactPowers::new(chall, vars);
    let evals = powers.eval_over_domain();
    let mut sum = Scalar::zero();
    for e in evals.iter() {
        sum = sum.add(e);
    }

    let mut expected = Scalar::one();
    for j in 0..vars {
        expected = expected.mul(&Scalar::one().add(&chall.pow(1 << j)));
    }

    assert_eq!(sum, expected, "Hypercube sum mismatch");
}

const VARS: usize = 5;

/// `z * (a * b - c)` over the rows `[z, a, b, c]`.
fn zerocheck_wrapped() -> Expr {
    let a = Box::new(Expr::Mle(ZeroCheckIdx::Inner(0usize).position()));
    let b = Box::new(Expr::Mle(ZeroCheckIdx::Inner(1usize).position()));
    let c = Box::new(Expr::Mle(ZeroCheckIdx::Inner(2usize).position()));
    let z = Box::new(Expr::Mle(ZeroCheckIdx::<usize>::ZeroCheckChallenge.position()));
    let ab = Box::new(Expr::Mul(a, b));
    Expr::Mul(z, Box::new(Expr::Sub(ab, c)))
}

fn locations() -> Vec<EvalLocation> {
    vec![EvalLocation::Witness; 4]
}

fn column(rows: &[Vec<Scalar>], j: usize) -> Vec<Scalar> {
    rows.iter().map(|r| r[j]).collect()
}

#[test]
fn zerocheck_eval_matches_mle() {
    let mut rng = StdRng::seed_from_u64(7);

    let powers = CompactPowers::new(random(&mut rng), VARS);
    let mut inner_mles: Vec<[Scalar; 3]> = Vec::with_capacity(1 << VARS);
    let mut witness: Vec<Vec<Scalar>> = Vec::with_capacity(1 << VARS);
    for z in powers.eval_over_domain() {
        // Only the evaluation is tested here, not the zero property.
        let inner = [random(&mut rng), random(&mut rng), random(&mut rng)];
        inner_mles.push(inner);
        witness.push(ZeroCheckMles::new(z, inner.to_vec()).flatten());
    }

    let prover = SumcheckProver::new(VARS, zerocheck_wrapped(), &locations());
    let verifier = SumcheckVerifier::new(VARS, zerocheck_wrapped(), &locations());
    let mut transcript = verifier
        .transcript_pattern(TranscriptBuilder::new(VARS))
        .finish()
        .instanciate();
    let actual_output = prover
        .prove_zerocheck(powers, &mut transcript, witness, &vec![])
        .unwrap();
    transcript.finish().unwrap();

    let rows: Vec<Vec<Scalar>> = inner_mles.iter().map(|r| r.to_vec()).collect();
    let expected_eval1 = eval_rows(&rows, &actual_output.point);
    assert_eq!(
        &actual_output.evals[1..],
        &expected_eval1[..],
        "The prove_zerocheck inner eval disagrees with independent MLE eval at the challenge point"
    );

    let expected_eval2 = eval_rows_slow(rows.clone(), actual_output.point.clone());
    assert_eq!(
        expected_eval1, expected_eval2,
        "eval and eval_slow disagree at the challenge point (MLE evaluators are inconsistent)"
    );

    // Column by column, as single tables.
    for j in 0..3 {
        assert_eq!(eval(&column(&rows, j), &actual_output.point), expected_eval1[j]);
        assert_eq!(eval_slow(column(&rows, j), actual_output.point.clone()), expected_eval1[j]);
    }
}

#[test]
fn zerocheck_prove_and_verify() {
    let mut rng = StdRng::seed_from_u64(3);
    let powers = CompactPowers::new(random(&mut rng), VARS).mul(&Scalar::from_u64(3));
    let mut witness: Vec<Vec<Scalar>> = Vec::new();
    for z in powers.eval_over_domain() {
        let a = random(&mut rng);
        let b = random(&mut rng);
        witness.push(vec![z, a, b, a.mul(&b)]);
    }
    let prover = SumcheckProver::new(VARS, zerocheck_wrapped(), &locations());
    let verifier = SumcheckVerifier::new(VARS, zerocheck_wrapped(), &locations());
    let descriptor = verifier.transcript_pattern(TranscriptBuilder::new(VARS)).finish();

    let mut transcript = descriptor.instanciate();
    let output = prover
        .prove_zerocheck(powers.clone(), &mut transcript, witness, &vec![])
        .unwrap();
    transcript.finish().unwrap();

    let mut transcript = VerifierTranscript::new(descriptor.instanciate());
    let proof = GuardedProof::new(output.proof);
    let check = verifier
        .verify_reduction(Scalar::zero(), &proof, &mut transcript)
        .unwrap();
    transcript.finish().unwrap();
    let point = MultiPoint::new(check.vars.clone());
    assert_eq!(point.inner_ref(), output.point.inner_ref());

    let mut evals = output.evals.clone();
    evals[0] = powers.point_eval(&point);
    assert!(verifier.check_evals_at_r(evals, &check.eval, &vec![]));
}
