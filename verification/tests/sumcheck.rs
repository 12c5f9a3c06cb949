use ark_ff::{PrimeField, UniformRand};
use ark_vesta::Fr;
use lilium_sumcheck::field::Scalar;
use lilium_sumcheck::message::Message;
use lilium_sumcheck::polynomials::MultiPoint;
use lilium_sumcheck::prove::ProverKey;
use lilium_sumcheck::reduction::{ProverOutput, Reduction, SeqComposition};
use lilium_sumcheck::relations::CompoundKey;
use lilium_sumcheck::zerocheck_reduction::{ZerocheckProverKey, ZerocheckSumcheckReduction};

type Composed = SeqComposition<ZerocheckReduction, ZerocheckSumcheckReduction, ZeroSumcheckRelation>;
use lilium_sumcheck::relations::Relation;
use lilium_sumcheck::sumcheck::{
    round_message, EvalCheckEnv, EvalLocation, Expr, MessageEnv, Proof, SumcheckError,
    SumcheckMessage, SumcheckProver, SumcheckVerifier, UnexpectedDegree,
};
use lilium_sumcheck::sumcheck_reduction::{QueryRelation, SumcheckReduction};
use lilium_sumcheck::sumcheck_relations::{
    SumcheckInstance, SumcheckRelation, SumcheckStructure, ZeroSumcheckInstance,
    ZeroSumcheckRelation, ZerocheckError, ZerocheckReduction, ZerocheckRelation,
};
use lilium_sumcheck::transcript::{GuardedProof, MessageKind, TranscriptBuilder, VerifierTranscript};
use lilium_sumcheck::zerocheck::CompactPowers;
use rand::{rngs::StdRng, SeedableRng};

fn s(x: u64) -> Scalar {
    Scalar::from_u64(x)
}

fn random(rng: &mut StdRng) -> Scalar {
    Scalar::from_limbs(Fr::rand(rng).into_bigint().0).unwrap()
}

fn mle(i: usize) -> Box<Expr> {
    Box::new(Expr::Mle(i))
}

#[test]
fn expression_degree_follows_locations() {
    // a * b + c, with `c` from the instance.
    let f = Expr::Add(Box::new(Expr::Mul(mle(0), mle(1))), mle(2));
    let locations = vec![EvalLocation::Witness, EvalLocation::Structure, EvalLocation::Instance];
    assert_eq!(f.degree(&locations), 2);
    let g = Expr::MulConst(Box::new(Expr::Mul(mle(2), mle(2))), s(3));
    assert_eq!(g.degree(&locations), 0);
}

#[test]
fn expression_evaluates_on_a_row() {
    // (a - 2) * b * c0 with the challenge c0.
    let f = Expr::Mul(
        Box::new(Expr::Mul(Box::new(Expr::SubConst(mle(0), s(2))), mle(1))),
        Box::new(Expr::Challenge(0)),
    );
    let env = EvalCheckEnv::new(vec![s(7), s(3)], vec![s(10)]);
    let v: Scalar = f.function(&env);
    assert_eq!(v, s(150));
}

#[test]
fn message_env_gives_the_lines() {
    // f = a * b on the lines from (1, 2) to (3, 5): (1 + 2x)(2 + 3x) over 0..=2.
    let f = Expr::Mul(mle(0), mle(1));
    let left = vec![s(1), s(2)];
    let right = vec![s(3), s(5)];
    let env = MessageEnv::new(&left, &right, 2, vec![]);
    let m: Message = f.function(&env);
    assert_eq!(m.inner(), &vec![s(2), s(15), s(40)]);
}

#[test]
fn round_message_adds_up_to_the_table_sum() {
    let f = Expr::Mul(mle(0), mle(1));
    let table = vec![
        vec![s(1), s(2)],
        vec![s(3), s(4)],
        vec![s(5), s(6)],
        vec![s(7), s(8)],
    ];
    let m = round_message(&f, &table, &vec![], 2);
    // 1*2 + 3*4 + 5*6 + 7*8 = 100
    assert_eq!(m.eval_at_0().add(&m.eval_at_1()), s(100));
    // At zero the lower half, at one the upper half.
    assert_eq!(m.eval_at_0(), s(14));
    assert_eq!(m.eval_at_1(), s(86));
}

fn product_table(rng: &mut StdRng, vars: usize) -> (Vec<Vec<Scalar>>, Scalar) {
    let mut table = vec![];
    let mut sum = Scalar::zero();
    for _ in 0..(1 << vars) {
        let a = random(rng);
        let b = random(rng);
        sum = sum.add(&a.mul(&b));
        table.push(vec![a, b]);
    }
    (table, sum)
}

#[test]
fn sumcheck_prover_and_verifier_agree() {
    let vars = 3;
    let mut rng = StdRng::seed_from_u64(11);
    let (table, sum) = product_table(&mut rng, vars);
    let locations = vec![EvalLocation::Witness; 2];
    let prover = SumcheckProver::new(vars, Expr::Mul(mle(0), mle(1)), &locations);
    let verifier = SumcheckVerifier::new(vars, Expr::Mul(mle(0), mle(1)), &locations);
    let descriptor = verifier.transcript_pattern(TranscriptBuilder::new(vars)).finish();

    let mut transcript = descriptor.instanciate();
    let out = prover.prove(&mut transcript, table, &vec![]).unwrap();
    transcript.finish().unwrap();
    let point = out.point.clone();

    // The standalone verifier on the same point.
    let claim = verifier
        .verify(&point, Proof::from_messages(out.proof.messages.clone()), sum)
        .unwrap();
    assert!(verifier.check_evals_at_r(out.evals.clone(), &claim, &vec![]));

    // A wrong sum is refused in the first round.
    let wrong = verifier.verify(&point, Proof::from_messages(out.proof.messages), sum.add(&s(1)));
    assert!(matches!(wrong, Err(SumcheckError::RoundSum)));
}

#[test]
fn sumcheck_verifier_refuses_a_message_of_another_degree() {
    let vars = 1;
    let locations = vec![EvalLocation::Witness; 2];
    let verifier = SumcheckVerifier::new(vars, Expr::Mul(mle(0), mle(1)), &locations);
    let point = MultiPoint::new(vec![s(5)]);
    let short = Message::new(vec![s(1), s(2)]);
    let result = verifier.verify(&point, Proof::from_messages(vec![short]), s(3));
    assert!(matches!(result, Err(SumcheckError::Degree(UnexpectedDegree))));
}

#[test]
fn sumcheck_prover_refuses_a_transcript_of_another_shape() {
    let vars = 2;
    let mut rng = StdRng::seed_from_u64(2);
    let (table, _) = product_table(&mut rng, vars);
    let locations = vec![EvalLocation::Witness; 2];
    let prover = SumcheckProver::new(vars, Expr::Mul(mle(0), mle(1)), &locations);
    let descriptor = TranscriptBuilder::new(vars)
        .round(MessageKind::Sumcheck, 3, 1)
        .finish();
    let mut transcript = descriptor.instanciate();
    let result = prover.prove(&mut transcript, table, &vec![]);
    assert!(matches!(result, Err(SumcheckError::TranscriptError(_))));
}

#[test]
fn sumcheck_message_checks_its_length() {
    let m = SumcheckMessage::zero(2);
    assert_eq!(m.to_field_elements(3).unwrap().len(), 3);
    assert!(matches!(m.to_field_elements(4), Err(UnexpectedDegree)));
    let line = SumcheckMessage::new_degree_n(&s(1), &s(4), 2);
    assert_eq!(line.inner(), &vec![s(1), s(4), s(7)]);
}

fn structure_of(f: Expr, locations: Vec<EvalLocation>, rows: Vec<Vec<Scalar>>) -> SumcheckStructure {
    SumcheckStructure { function: f, locations, structure: rows, challs: vec![] }
}

#[test]
fn sumcheck_reduction_reduces_to_a_true_query() {
    // f = s * w + i: `s` from the structure, `i` from the instance.
    let vars = 3;
    let mut rng = StdRng::seed_from_u64(5);
    let f = || Expr::Add(Box::new(Expr::Mul(mle(0), mle(2))), mle(1));
    let locations = vec![EvalLocation::Structure, EvalLocation::Instance, EvalLocation::Witness];
    let mut structure_rows = vec![];
    let mut witness = vec![];
    let i = random(&mut rng);
    let mut sum = Scalar::zero();
    for _ in 0..(1 << vars) {
        let sv = random(&mut rng);
        let wv = random(&mut rng);
        sum = sum.add(&sv.mul(&wv).add(&i));
        structure_rows.push(vec![sv, Scalar::zero(), Scalar::zero()]);
        witness.push(vec![Scalar::zero(), Scalar::zero(), wv]);
    }
    let st = structure_of(f(), locations.clone(), structure_rows.clone());
    let instance_evals = vec![Scalar::zero(), i, Scalar::zero()];
    let instance = SumcheckInstance { sum, instance_evals: instance_evals.clone() };
    assert!(SumcheckRelation::check(&st, &instance, &witness));

    let key = ProverKey::new(vars, structure_rows, f(), &locations);
    let verifier = SumcheckVerifier::new(vars, f(), &locations);
    let descriptor = TranscriptBuilder::new(vars)
        .subprotocol::<SumcheckRelation, QueryRelation, SumcheckReduction>(&verifier)
        .finish();

    let mut transcript = descriptor.instanciate();
    let ProverOutput { instance: query, witness: query_witness, proof } =
        SumcheckReduction::prove(&key, instance, witness, &mut transcript).unwrap();
    transcript.finish().unwrap();
    assert!(QueryRelation::check(&st, &query, &query_witness));

    let mut transcript = VerifierTranscript::new(descriptor.instanciate());
    let instance = SumcheckInstance { sum, instance_evals };
    let reduced =
        SumcheckReduction::verify(&verifier, instance, GuardedProof::new(proof), &mut transcript)
            .unwrap();
    transcript.finish().unwrap();
    assert_eq!(reduced.eval, query.eval);
    assert_eq!(reduced.point.inner_ref(), query.point.inner_ref());
    assert!(QueryRelation::check(&st, &reduced, &query_witness));
}

#[test]
fn zerocheck_relations() {
    // f = a * b - c on rows with c = a * b.
    let vars = 2;
    let mut rng = StdRng::seed_from_u64(9);
    let f = || Expr::Sub(Box::new(Expr::Mul(mle(0), mle(1))), mle(2));
    let locations = vec![EvalLocation::Witness; 3];
    let mut witness = vec![];
    for _ in 0..(1 << vars) {
        let a = random(&mut rng);
        let b = random(&mut rng);
        witness.push(vec![a, b, a.mul(&b)]);
    }
    let st = structure_of(f(), locations, vec![vec![Scalar::zero(); 3]; 1 << vars]);
    let instance_evals = vec![Scalar::zero(); 3];
    assert!(ZerocheckRelation::check(&st, &instance_evals, &witness));

    let descriptor = ZerocheckReduction::transcript_pattern(&vars, TranscriptBuilder::new(vars)).finish();
    let mut transcript = descriptor.instanciate();
    let out = ZerocheckReduction::prove(&vars, instance_evals.clone(), witness.clone(), &mut transcript)
        .unwrap();
    transcript.finish().unwrap();
    assert!(ZeroSumcheckRelation::check(&st, &out.instance, &out.witness));

    let mut transcript = VerifierTranscript::new(descriptor.instanciate());
    let reduced = ZerocheckReduction::verify(&vars, instance_evals, GuardedProof::new(()), &mut transcript)
        .unwrap();
    assert_eq!(reduced.zerocheck_powers.factors(), out.instance.zerocheck_powers.factors());

    // A row that does not vanish breaks the zerocheck.
    witness[1][2] = witness[1][2].add(&Scalar::one());
    assert!(!ZerocheckRelation::check(&st, &vec![Scalar::zero(); 3], &witness));
    let instance = ZeroSumcheckInstance {
        sum: Scalar::zero(),
        zerocheck_powers: CompactPowers::new(s(7), vars),
        instance_evals: vec![Scalar::zero(); 3],
    };
    assert!(!ZeroSumcheckRelation::check(&st, &instance, &witness));

    // The weighted sum of that row is the claim of a folded instance.
    let z = CompactPowers::new(s(7), vars).eval_over_domain();
    let folded = ZeroSumcheckInstance {
        sum: Scalar::zero().sub(&z[1]),
        zerocheck_powers: CompactPowers::new(s(7), vars),
        instance_evals: vec![Scalar::zero(); 3],
    };
    assert_eq!(z[1], s(7));
    assert!(ZeroSumcheckRelation::check(&st, &folded, &witness));
}

#[test]
fn sumcheck_verifier_refuses_a_proof_without_one_message_per_variable() {
    let locations = vec![EvalLocation::Witness; 2];
    let verifier = SumcheckVerifier::new(2, Expr::Mul(mle(0), mle(1)), &locations);
    let point = MultiPoint::new(vec![s(5), s(6)]);
    let empty = verifier.verify(&point, Proof::from_messages(vec![]), s(3));
    assert!(matches!(empty, Err(SumcheckError::MessageCount)));
    let one = Message::new(vec![s(1), s(2), s(3)]);
    let short = verifier.verify(&point, Proof::from_messages(vec![one]), s(3));
    assert!(matches!(short, Err(SumcheckError::MessageCount)));
}

#[test]
fn zerocheck_then_sumcheck_composed() {

    let vars = 3;
    let mut rng = StdRng::seed_from_u64(21);
    let f = || Expr::Sub(Box::new(Expr::Mul(mle(0), mle(1))), mle(2));
    let locations = vec![EvalLocation::Witness; 3];
    let zerocheck_locations = vec![EvalLocation::Witness; 4];
    let mut witness = vec![];
    for _ in 0..(1 << vars) {
        let a = random(&mut rng);
        let b = random(&mut rng);
        witness.push(vec![a, b, a.mul(&b)]);
    }
    let structure_rows = vec![vec![Scalar::zero(); 3]; 1 << vars];
    let st = structure_of(f(), locations.clone(), structure_rows.clone());
    let instance_evals = vec![Scalar::zero(); 3];
    assert!(ZerocheckRelation::check(&st, &instance_evals, &witness));

    let verifier = SumcheckVerifier::new(vars, f().zerocheck_function(), &zerocheck_locations);
    let verifier_key = CompoundKey { a_key: vars, b_key: verifier };
    let prover_key = CompoundKey {
        a_key: vars,
        b_key: ZerocheckProverKey {
            oracle_key: ProverKey::new(vars, structure_rows, f(), &locations),
            prover: SumcheckProver::new(vars, f().zerocheck_function(), &zerocheck_locations),
        },
    };
    let descriptor = Composed::transcript_pattern(&verifier_key, TranscriptBuilder::new(vars)).finish();

    let mut transcript = descriptor.instanciate();
    let out = Composed::prove(&prover_key, instance_evals.clone(), witness.clone(), &mut transcript)
        .unwrap();
    transcript.finish().unwrap();
    assert!(QueryRelation::check(&st, &out.instance, &out.witness));

    let mut transcript = VerifierTranscript::new(descriptor.instanciate());
    let reduced = Composed::verify(
        &verifier_key,
        instance_evals,
        GuardedProof::new(out.proof),
        &mut transcript,
    )
    .unwrap();
    transcript.finish().unwrap();
    assert_eq!(reduced.eval, out.instance.eval);
    assert!(QueryRelation::check(&st, &reduced, &witness));
}

#[test]
fn zero_sumcheck_instance_as_field_elements() {
    let instance = ZeroSumcheckInstance {
        sum: Scalar::zero(),
        zerocheck_powers: CompactPowers::new(s(7), 2),
        instance_evals: vec![s(9)],
    };
    assert_eq!(ZeroSumcheckInstance::len(2, 1), 5);
    assert_eq!(instance.to_field_elements(2, 1).unwrap(), vec![s(7), s(1), s(49), s(1), s(9)]);
    assert!(matches!(instance.to_field_elements(3, 1), Err(ZerocheckError::Zerocheck)));
    assert!(matches!(instance.to_field_elements(2, 2), Err(ZerocheckError::Inner(()))));
}
