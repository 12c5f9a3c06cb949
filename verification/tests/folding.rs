use ark_ff::{PrimeField, UniformRand};
use ark_vesta::Fr;
use lilium_sumcheck::field::Scalar;
use lilium_sumcheck::barycentric::BarycentricWeights;
use lilium_sumcheck::folding::{fold_instance_evals, fold_powers, fold_with_powers, SumFoldKey, ZeroFold};
use lilium_sumcheck::sumcheck_relations::SumcheckInstance;
use lilium_sumcheck::sumcheck::{EvalLocation, Expr, SumcheckProver, SumcheckVerifier};
use lilium_sumcheck::polynomials::MultiPoint;
use lilium_sumcheck::transcript::{GuardedProof, TranscriptBuilder, VerifierTranscript};
use lilium_sumcheck::zerocheck::CompactPowers;
use rand::{rngs::StdRng, SeedableRng};

const VARS: usize = 4;

fn to_scalar(x: Fr) -> Scalar {
    Scalar::from_limbs(x.into_bigint().0).unwrap()
}

fn mle(i: usize) -> Box<Expr> {
    Box::new(Expr::Mle(i))
}

/// A fake zero check with rows like `a * b - c`.
fn product() -> Expr {
    Expr::Sub(Box::new(Expr::Mul(mle(0), mle(1))), mle(2))
}

fn inner_product() -> Expr {
    Expr::Mul(mle(0), mle(1))
}

fn check_sumcheck(sum: Scalar, witness: Vec<Vec<Scalar>>, f: fn() -> Expr, width: usize) {
    let locations = vec![EvalLocation::Witness; width];
    let prover = SumcheckProver::new(VARS, f(), &locations);
    let verifier = SumcheckVerifier::new(VARS, f(), &locations);
    let descriptor = verifier
        .transcript_pattern(TranscriptBuilder::new(VARS))
        .finish();

    let out = {
        let mut transcript = descriptor.instanciate();
        let out = prover.prove(&mut transcript, witness, &vec![]).unwrap();
        transcript.finish().unwrap();
        out
    };

    let reduced = {
        let mut transcript = VerifierTranscript::new(descriptor.instanciate());
        let proof = GuardedProof::new(out.proof);
        let reduced = verifier
            .verify_reduction(sum, &proof, &mut transcript)
            .unwrap();
        transcript.finish().unwrap();
        reduced
    };
    assert!(verifier.check_evals_at_r(out.evals, &reduced.eval, &vec![]));
}

fn fold_and_prove(sums: [Scalar; 2], witnesses: [Vec<Vec<Scalar>>; 2], f: fn() -> Expr, width: usize) {
    let [w1, w2] = witnesses;

    check_sumcheck(sums[0], w1.clone(), f, width);
    check_sumcheck(sums[1], w2.clone(), f, width);

    let locations = vec![EvalLocation::Witness; width];
    let key = SumFoldKey::new(f(), &locations);
    let descriptor = key.transcript_pattern(TranscriptBuilder::new(VARS)).finish();

    let output = {
        let mut transcript = descriptor.instanciate();
        let output = key
            .prove(&sums[0], &sums[1], w1, &w2, &mut transcript)
            .unwrap();
        transcript.finish().unwrap();
        output
    };

    let folded_sum = {
        let mut transcript = VerifierTranscript::new(descriptor.instanciate());
        let proof = GuardedProof::new(output.proof);
        let sum = key.verify(&sums[0], &sums[1], &proof, &mut transcript).unwrap();
        transcript.finish().unwrap();
        sum
    };
    assert_eq!(folded_sum, output.sum);
    check_sumcheck(folded_sum, output.folded_witness, f, width);
}

#[test]
fn sumfold_product() {
    let mut rng = StdRng::seed_from_u64(0);

    let mut w: Vec<Vec<Scalar>> = vec![];
    for _ in 0..(1 << (VARS + 1)) {
        let a = to_scalar(Fr::rand(&mut rng));
        let b = to_scalar(Fr::rand(&mut rng));
        let c = a.mul(&b);
        w.push(vec![a, b, c]);
    }
    let mut w = w.into_iter();
    let w1 = w.by_ref().take(1 << VARS).collect::<Vec<_>>();
    let w2 = w.by_ref().take(1 << VARS).collect::<Vec<_>>();

    fold_and_prove([Scalar::zero(); 2], [w1, w2], product, 3);
}

#[test]
fn sumfold_inner_product() {
    let mut rng = StdRng::seed_from_u64(0);

    let mut w = vec![];
    for _ in 0..(1 << (VARS + 1)) {
        let a = to_scalar(Fr::rand(&mut rng));
        let b = to_scalar(Fr::rand(&mut rng));
        w.push(vec![a, b]);
    }
    let mut w = w.into_iter();
    let w1 = w.by_ref().take(1 << VARS).collect::<Vec<_>>();
    let s1 = w1
        .iter()
        .fold(Scalar::zero(), |acc, eval| acc.add(&eval[0].mul(&eval[1])));
    let w2 = w.by_ref().take(1 << VARS).collect::<Vec<_>>();
    let s2 = w2
        .iter()
        .fold(Scalar::zero(), |acc, eval| acc.add(&eval[0].mul(&eval[1])));

    fold_and_prove([s1, s2], [w1, w2], inner_product, 2);
}

#[test]
fn sumfold_rejects_a_wrong_claim() {
    let mut rng = StdRng::seed_from_u64(1);
    let mut w = vec![];
    for _ in 0..(1 << (VARS + 1)) {
        let a = to_scalar(Fr::rand(&mut rng));
        let b = to_scalar(Fr::rand(&mut rng));
        w.push(vec![a, b]);
    }
    let w1 = w[..(1 << VARS)].to_vec();
    let w2 = w[(1 << VARS)..].to_vec();
    let sum = |w: &Vec<Vec<Scalar>>| {
        w.iter()
            .fold(Scalar::zero(), |acc, e| acc.add(&e[0].mul(&e[1])))
    };
    let (s1, s2) = (sum(&w1), sum(&w2));
    let locations = vec![EvalLocation::Witness; 2];
    let key = SumFoldKey::new(inner_product(), &locations);
    let descriptor = key.transcript_pattern(TranscriptBuilder::new(VARS)).finish();
    let mut transcript = descriptor.instanciate();
    let output = key.prove(&s1, &s2, w1, &w2, &mut transcript).unwrap();
    let mut transcript = VerifierTranscript::new(descriptor.instanciate());
    let proof = GuardedProof::new(output.proof);
    let wrong = s1.add(&Scalar::one());
    assert!(key.verify(&wrong, &s2, &proof, &mut transcript).is_err());
}

#[test]
fn fold_with_powers_weighs_pairs_of_messages() {
    let s = Scalar::from_u64;
    let weights = BarycentricWeights::compute(1);
    // Two messages of two evaluations: (1, 2) and (3, 5).
    let messages = vec![s(1), s(2), s(3), s(5)];
    // Even line through 1 and 2 (extends to 3), odd line through 2 and 4 (extends to 6).
    let powers = [[s(1), s(2)], [s(2), s(4)]];
    let folded = fold_with_powers(powers, &messages, &weights);
    // 1*1 + 3*2, 2*2 + 5*4, and the extensions 3*3 + 7*6.
    assert_eq!(folded, vec![s(7), s(24), s(51)]);
}

const ZERO_VARS: usize = 5;

/// `z * (a * b - c)` over rows `[z, a, b, c]`.
fn zerocheck_wrapped() -> Expr {
    let ab = Box::new(Expr::Mul(mle(1), mle(2)));
    Expr::Mul(mle(0), Box::new(Expr::Sub(ab, mle(3))))
}

/// `a * b - c` over rows `[a, b, c]`.
fn zerocheck_inner() -> Expr {
    product()
}

struct InstanceWitness {
    inner: Vec<Vec<Scalar>>,
    powers: CompactPowers,
}

fn sample_instance_witness(rng: &mut StdRng) -> InstanceWitness {
    let chall = to_scalar(Fr::rand(rng));
    let powers = CompactPowers::new(chall, ZERO_VARS).mul(&Scalar::from_u64(3));
    let mut inner = vec![];
    for _ in 0..(1 << ZERO_VARS) {
        let a = to_scalar(Fr::rand(rng));
        let b = to_scalar(Fr::rand(rng));
        inner.push(vec![a, b, a.mul(&b)]);
    }
    InstanceWitness { inner, powers }
}

/// Proves and verifies the zerocheck of the rows weighed by the powers,
/// claiming `sum`.
fn prove_and_verify(powers: &CompactPowers, inner: &[Vec<Scalar>], sum: Scalar) {
    let locations = vec![EvalLocation::Witness; 4];
    let prover = SumcheckProver::new(ZERO_VARS, zerocheck_wrapped(), &locations);
    let verifier = SumcheckVerifier::new(ZERO_VARS, zerocheck_wrapped(), &locations);
    let descriptor = verifier.transcript_pattern(TranscriptBuilder::new(ZERO_VARS)).finish();
    let witness: Vec<Vec<Scalar>> = powers
        .eval_over_domain()
        .into_iter()
        .zip(inner)
        .map(|(z, row)| {
            let mut r = vec![z];
            r.extend_from_slice(row);
            r
        })
        .collect();

    let mut transcript = descriptor.instanciate();
    let output = prover
        .prove_zerocheck(powers.clone(), &mut transcript, witness, &vec![])
        .unwrap();
    transcript.finish().unwrap();

    let mut transcript = VerifierTranscript::new(descriptor.instanciate());
    let proof = GuardedProof::new(output.proof);
    let check = verifier.verify_reduction(sum, &proof, &mut transcript).unwrap();
    transcript.finish().unwrap();
    let point = MultiPoint::new(check.vars.clone());
    let mut evals = output.evals.clone();
    evals[0] = powers.point_eval(&point);
    assert!(verifier.check_evals_at_r(evals, &check.eval, &vec![]));
}

#[test]
fn fold_zerocheck() {
    let mut rng = StdRng::seed_from_u64(0);
    let pair1 = sample_instance_witness(&mut rng);
    let pair2 = sample_instance_witness(&mut rng);

    prove_and_verify(&pair1.powers, &pair1.inner, Scalar::zero());
    prove_and_verify(&pair2.powers, &pair2.inner, Scalar::zero());

    let locations = vec![EvalLocation::Witness; 3];
    let zerofold = ZeroFold::new(zerocheck_inner(), &locations, ZERO_VARS);
    let descriptor = zerofold
        .sumfold_key()
        .transcript_pattern(TranscriptBuilder::new(ZERO_VARS))
        .finish();

    let mut transcript = descriptor.instanciate();
    let output = zerofold
        .fold_zerocheck(
            pair1.inner.clone(),
            &pair2.inner,
            Some((Scalar::zero(), Scalar::zero())),
            [pair1.powers.clone(), pair2.powers.clone()],
            &vec![],
            &mut transcript,
        )
        .unwrap();
    transcript.finish().unwrap();

    let mut transcript = VerifierTranscript::new(descriptor.instanciate());
    let proof = GuardedProof::new(output.proof);
    let sum = zerofold
        .sumfold_key()
        .verify(&Scalar::zero(), &Scalar::zero(), &proof, &mut transcript)
        .unwrap();
    transcript.finish().unwrap();
    assert_eq!(sum, output.sum);

    assert_eq!(output.sums, (Scalar::zero(), Scalar::zero()));

    // The powers are folded at the same challenge as the witness.
    let powers = fold_powers(&pair1.powers, &pair2.powers, &output.challenge);
    prove_and_verify(&powers, &output.folded_witness, sum);

    // Without sums given, the instance's are the message's at zero and one.
    let mut transcript = descriptor.instanciate();
    let again = zerofold
        .fold_zerocheck(
            pair1.inner.clone(),
            &pair2.inner,
            None,
            [pair1.powers.clone(), pair2.powers.clone()],
            &vec![],
            &mut transcript,
        )
        .unwrap();
    assert_eq!(again.sums, (Scalar::zero(), Scalar::zero()));
    assert_eq!(again.sum, output.sum);
}

#[test]
fn instance_evaluations_fold_on_lines() {
    let s = Scalar::from_u64;
    // 1 + 3 * (4 - 1) = 10 and 2 + 3 * (2 - 2) = 2.
    assert_eq!(fold_instance_evals(&vec![s(1), s(2)], &vec![s(4), s(2)], &s(3)), vec![s(10), s(2)]);
}

#[test]
fn folded_instances_agree() {
    let mut rng = StdRng::seed_from_u64(2);
    let mut w = vec![];
    for _ in 0..(1 << (VARS + 1)) {
        let a = to_scalar(Fr::rand(&mut rng));
        let b = to_scalar(Fr::rand(&mut rng));
        w.push(vec![a, b]);
    }
    let w1 = w[..(1 << VARS)].to_vec();
    let w2 = w[(1 << VARS)..].to_vec();
    let sum = |w: &Vec<Vec<Scalar>>| w.iter().fold(Scalar::zero(), |acc, e| acc.add(&e[0].mul(&e[1])));
    let a = SumcheckInstance { sum: sum(&w1), instance_evals: vec![Scalar::from_u64(1), Scalar::from_u64(5)] };
    let b = SumcheckInstance { sum: sum(&w2), instance_evals: vec![Scalar::from_u64(3), Scalar::from_u64(5)] };
    let locations = vec![EvalLocation::Witness; 2];
    let key = SumFoldKey::new(inner_product(), &locations);
    let descriptor = key.transcript_pattern(TranscriptBuilder::new(VARS)).finish();

    let mut transcript = descriptor.instanciate();
    let (folded, output) = key.prove_folding(&a, &b, w1, &w2, &mut transcript).unwrap();
    transcript.finish().unwrap();

    let mut transcript = VerifierTranscript::new(descriptor.instanciate());
    let proof = GuardedProof::new(output.proof);
    let verified = key.verify_folding(&a, &b, &proof, &mut transcript).unwrap();
    transcript.finish().unwrap();
    assert_eq!(verified.sum, folded.sum);
    assert_eq!(verified.instance_evals, folded.instance_evals);
    // The second evaluation is the same in both instances and stays.
    assert_eq!(folded.instance_evals[1], Scalar::from_u64(5));
    check_sumcheck(folded.sum, output.folded_witness, inner_product, 2);
}

#[test]
fn zerocheck_folding_key_has_the_powers_degree() {
    let locations = vec![EvalLocation::Witness; 3];
    let zerofold = ZeroFold::new(product(), &locations, 3);
    // `a * b - c` has degree 2 in the folding variable, and each of the
    // three powers' lines adds one.
    let descriptor = zerofold.sumfold_key().transcript_pattern(TranscriptBuilder::new(3)).finish();
    let mut transcript = descriptor.instanciate();
    let m = lilium_sumcheck::transcript::TranscriptMessage {
        kind: lilium_sumcheck::transcript::MessageKind::Unit,
        elements: vec![],
    };
    transcript.send_message(&m, 1).unwrap();
    let wrong = lilium_sumcheck::transcript::TranscriptMessage {
        kind: lilium_sumcheck::transcript::MessageKind::Sumcheck,
        elements: vec![Scalar::zero(); 6],
    };
    assert!(transcript.send_message(&wrong, 1).is_err());
    let right = lilium_sumcheck::transcript::TranscriptMessage {
        kind: lilium_sumcheck::transcript::MessageKind::Sumcheck,
        elements: vec![Scalar::zero(); 7],
    };
    assert!(transcript.send_message(&right, 1).is_ok());
}

#[test]
fn zerocheck_message_weighs_rows_by_the_powers_lines() {
    let s = Scalar::from_u64;
    // f = the single witness polynomial, over one variable.
    let zerofold = ZeroFold::new(Expr::Mle(0), &vec![EvalLocation::Witness], 1);
    let w1 = vec![vec![s(1)], vec![s(2)]];
    let w2 = vec![vec![s(3)], vec![s(5)]];
    // The powers are 1 at zero for both, 2 and 3 at one.
    let p1 = CompactPowers::from_factors(vec![(s(2), s(1))]);
    let p2 = CompactPowers::from_factors(vec![(s(3), s(1))]);
    // (1 + 2x) * 1 + (2 + 3x) * (2 + x) = 5 + 10x + 3x^2 at 0, 1, 2.
    let message = zerofold.sum_messages(&w1, &w2, &[p1, p2], &vec![]);
    assert_eq!(message.inner(), &vec![s(5), s(18), s(37)]);
}

#[test]
fn a_folded_message_of_the_wrong_length_consumes_its_round() {
    let locations = vec![EvalLocation::Witness; 2];
    let key = SumFoldKey::new(inner_product(), &locations);
    let descriptor = key.transcript_pattern(TranscriptBuilder::new(VARS)).finish();
    let mut transcript = VerifierTranscript::new(descriptor.instanciate());
    let proof = GuardedProof::new(lilium_sumcheck::sumcheck::SumcheckMessage::new(vec![Scalar::zero(); 2]));
    assert!(key.verify(&Scalar::zero(), &Scalar::zero(), &proof, &mut transcript).is_err());
    // Both rounds are consumed, but the message never entered the sponge.
    assert!(matches!(
        transcript.finish(),
        Err(lilium_sumcheck::transcript::Error::SpongeError(_))
    ));
}

#[test]
fn powers_fold_on_lines() {
    let s = Scalar::from_u64;
    let p1 = CompactPowers::from_factors(vec![(s(2), s(1)), (s(4), s(1))]);
    let p2 = CompactPowers::from_factors(vec![(s(3), s(5)), (s(4), s(2))]);
    // At 2: 2 + 2 * (3 - 2) = 4, 1 + 2 * (5 - 1) = 9, 4 + 2 * 0 = 4, 1 + 2 * 1 = 3.
    let folded = fold_powers(&p1, &p2, &s(2));
    assert_eq!(folded.factors(), &vec![(s(4), s(9)), (s(4), s(3))]);
}
