use lilium_sumcheck::reduction::{ProverOutput, Reduction, SeqComposition};
use lilium_sumcheck::relations::{CompoundError, CompoundKey, CompoundRelation, Relation};
use lilium_sumcheck::sumcheck_relations::SmallOracleArgument;
use lilium_sumcheck::transcript::{
    Guard, GuardedProof, MessageKind, SingleElement, TranscriptBuilder, VerifierTranscript,
};
use lilium_sumcheck::field::Scalar;

type Unit = SmallOracleArgument<()>;
type Composed = SeqComposition<Unit, Unit, ()>;

#[test]
fn unit_relation_holds() {
    assert!(<() as Relation>::check(&(), &(), &()));
    assert!(CompoundRelation::<(), ()>::check(&((), ()), &(), &()));
}

#[test]
fn composition_runs_both_reductions() {
    let key = CompoundKey { a_key: (), b_key: () };
    let builder = Composed::transcript_pattern(&key, TranscriptBuilder::new(1));
    let descriptor = builder.round(MessageKind::Element, 1, 1).finish();

    let mut transcript = descriptor.instanciate();
    let prover_key = CompoundKey { a_key: (), b_key: () };
    let ProverOutput { proof, .. } = Composed::prove(&prover_key, (), (), &mut transcript).unwrap();
    let element = SingleElement(Scalar::from_u64(3)).to_message();
    transcript.send_message(&element, 1).unwrap();
    transcript.finish().unwrap();

    let mut transcript = VerifierTranscript::new(descriptor.instanciate());
    let result: Result<(), CompoundError<(), ()>> =
        Composed::verify(&key, (), GuardedProof::new(proof), &mut transcript);
    assert!(result.is_ok());
    let guard = transcript.wrap(element);
    let (received, challenges) = transcript.unwrap_guard(guard, 1).unwrap();
    assert_eq!(received.elements, vec![Scalar::from_u64(3)]);
    assert_eq!(challenges.len(), 1);
    transcript.finish().unwrap();
}

#[test]
fn guards_and_guarded_proofs() {
    let guard = Guard::new(5u32).map(|x| x + 1);
    let proof = GuardedProof::new((1u8, 2u8)).map(|(a, b)| (b, a));
    let (first, second) = proof.split();
    assert_eq!(*first.inner(), 2);
    assert_eq!(*second.inner(), 1);
    let _ = guard;
}
