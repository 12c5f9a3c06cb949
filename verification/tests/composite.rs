use lilium_sumcheck::composite::{
    composite_instance_evals, composite_prove, composite_queries, composite_verify,
    partial_instance_evals, provided_evals, verifier_key, OracleEval,
};
use lilium_sumcheck::field::Scalar;
use lilium_sumcheck::oracles::Either;
use lilium_sumcheck::polynomials::MultiPoint;
use lilium_sumcheck::sumcheck::Expr;
use lilium_sumcheck::sumcheck_reduction::{eval_rows, ProverEvals};
use lilium_sumcheck::transcript::{Error, GuardedProof, MessageKind, TranscriptBuilder, VerifierTranscript};

fn s(x: u64) -> Scalar {
    Scalar::from_u64(x)
}

/// a * b over two polynomials, the first answered by the first oracle, the
/// second by the second, both left to the prover.
fn setup() -> (Vec<Either<bool, bool>>, Vec<Vec<Scalar>>, MultiPoint) {
    let natures = vec![Either::Left(true), Either::Right(true)];
    let witness = vec![vec![s(1), s(2)], vec![s(3), s(4)]];
    let point = MultiPoint::new(vec![s(5)]);
    (natures, witness, point)
}

#[test]
fn key_counts_provided_evaluations() {
    let natures = vec![Either::Left(true), Either::Right(false), Either::Right(true), Either::Left(false)];
    let key = verifier_key(&natures, Expr::Mle(0), vec![]);
    assert_eq!(key.oracle1_evals, 1);
    assert_eq!(key.oracle2_evals, 1);
}

#[test]
fn provided_evaluations_in_order() {
    let evals = vec![s(1), s(2), s(3)];
    let queries = vec![OracleEval::ProverProvided, OracleEval::Computed(s(2)), OracleEval::ProverProvided];
    assert_eq!(provided_evals(&evals, &queries), vec![s(1), s(3)]);
}

#[test]
fn composite_query_round_trip() {
    let (natures, witness, point) = setup();
    let f = || Expr::Mul(Box::new(Expr::Mle(0)), Box::new(Expr::Mle(1)));
    let key = verifier_key(&natures, f(), vec![]);
    let evals = eval_rows(&witness, &point);
    let claimed = evals[0].mul(&evals[1]);
    let queries1 = vec![OracleEval::ProverProvided, OracleEval::NotQueried];
    let queries2 = vec![OracleEval::NotQueried, OracleEval::ProverProvided];
    let descriptor = TranscriptBuilder::new(1).round(MessageKind::Evaluations, 2, 0).finish();

    let mut transcript = descriptor.instanciate();
    let ((i1, i2), proof) = composite_prove(
        &key, &witness, &point, &claimed, 7u8, 9u8, &queries1, &queries2, &mut transcript,
    )
    .unwrap();
    transcript.finish().unwrap();
    assert_eq!(i1.evals(), &vec![evals[0]]);
    assert_eq!(i2.evals(), &vec![evals[1]]);
    assert_eq!(*i1.oracle_instance(), 7u8);

    let proof = GuardedProof::new(proof);
    let mut transcript = VerifierTranscript::new(descriptor.instanciate());
    let (v1, v2) = composite_verify(
        &key, &natures, &queries1, &queries2, 7u8, 9u8, &point, &claimed, &proof, &mut transcript,
    )
    .unwrap();
    transcript.finish().unwrap();
    assert_eq!(v1.evals(), i1.evals());
    assert_eq!(v2.evals(), i2.evals());

    // A wrong claim is refused.
    let mut transcript = VerifierTranscript::new(descriptor.instanciate());
    let wrong = claimed.add(&Scalar::one());
    assert!(composite_verify(
        &key, &natures, &queries1, &queries2, 7u8, 9u8, &point, &wrong, &proof, &mut transcript,
    )
    .is_err());
}

#[test]
fn composite_instance_values() {
    let natures = vec![Either::Left(false), Either::Right(false)];
    assert_eq!(
        composite_instance_evals(&natures, &vec![s(1), s(2)], &vec![s(3), s(4)]),
        vec![s(1), s(4)]
    );
    assert_eq!(partial_instance_evals(&vec![s(1), s(2)], &vec![s(3), s(4)]), vec![s(4), s(6)]);
    let merged = composite_queries(
        &vec![OracleEval::Computed(s(1)), OracleEval::NotQueried],
        &vec![OracleEval::NotQueried, OracleEval::ProverProvided],
    );
    assert!(matches!(merged[0], OracleEval::Computed(x) if x == s(1)));
    assert!(matches!(merged[1], OracleEval::ProverProvided));
}

#[test]
fn evaluations_of_the_wrong_length_consume_the_round() {
    let (natures, witness, point) = setup();
    let key = verifier_key(&natures, Expr::Mul(Box::new(Expr::Mle(0)), Box::new(Expr::Mle(1))), vec![]);
    let evals = eval_rows(&witness, &point);
    let claimed = evals[0].mul(&evals[1]);
    let queries1 = vec![OracleEval::ProverProvided, OracleEval::NotQueried];
    let queries2 = vec![OracleEval::NotQueried, OracleEval::ProverProvided];
    let descriptor = TranscriptBuilder::new(1).round(MessageKind::Evaluations, 2, 0).finish();

    let proof = GuardedProof::new(ProverEvals(vec![evals[0]]));
    let mut transcript = VerifierTranscript::new(descriptor.instanciate());
    assert!(composite_verify(
        &key, &natures, &queries1, &queries2, 7u8, 9u8, &point, &claimed, &proof, &mut transcript,
    )
    .is_err());
    // No round is left, but the evaluations never entered the sponge.
    assert!(matches!(transcript.finish(), Err(Error::SpongeError(_))));
}
