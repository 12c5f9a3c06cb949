use lilium_sumcheck::field::Scalar;
use lilium_sumcheck::transcript::{
    Error, MessageKind, SingleElement, TranscriptBuilder, TranscriptDescriptor, VerifierTranscript,
};

const VARS: usize = 2;

fn one_round_protocol() -> TranscriptDescriptor {
    // Round 1: prover sends one field element; verifier replies with one challenge.
    TranscriptBuilder::new(VARS)
        .round(MessageKind::Element, 1, 1)
        .finish()
}

fn element(x: u64) -> SingleElement {
    SingleElement(Scalar::from_u64(x))
}

#[test]
fn descriptor_determinism() {
    let d1 = one_round_protocol();
    let d2 = one_round_protocol();
    let mut t1 = d1.instanciate();
    let mut t2 = d2.instanciate();
    let msg = element(1337).to_message();
    let c1 = t1.send_message(&msg, 1).unwrap();
    let c2 = t2.send_message(&msg, 1).unwrap();
    assert_eq!(
        c1, c2,
        "Challenges from identically-built descriptors must match"
    );
    t1.finish().unwrap();
    t2.finish().unwrap();
}

#[test]
fn prover_verifier_agreement() {
    let descriptor = one_round_protocol();
    let mut prover = descriptor.instanciate();
    let mut verifier = descriptor.instanciate();
    let msg = element(1729).to_message();
    let p_chal = prover.send_message(&msg, 1).unwrap();
    let v_chal = verifier.send_message(&msg, 1).unwrap();
    assert_eq!(
        p_chal, v_chal,
        "Prover and verifier must derive identical challenges"
    );
    prover.finish().unwrap();
    verifier.finish().unwrap();
}

#[test]
fn divergence_detection() {
    let descriptor = one_round_protocol();
    let mut t_a = descriptor.instanciate();
    let mut t_b = descriptor.instanciate();
    let c_a = t_a.send_message(&element(1).to_message(), 1).unwrap();
    let c_b = t_b.send_message(&element(2).to_message(), 1).unwrap();
    assert_ne!(
        c_a, c_b,
        "Different absorbed inputs must yield different challenges"
    );
    t_a.finish().unwrap();
    t_b.finish().unwrap();
}

#[test]
fn wrong_message_type_rejected() {
    let descriptor = one_round_protocol();
    let mut transcript = descriptor.instanciate();
    // An array of one element is another kind of message than a single element.
    let wrong = SingleElement::array_message(&vec![element(101)]);
    let result = transcript.send_message(&wrong, 1);
    assert!(matches!(result, Err(Error::UnexpectedMessage)));
    let cleanup = transcript.finish();
    assert!(matches!(cleanup, Err(Error::SpongeError(_))));
}

#[test]
fn wrong_challenge_count_rejected() {
    let descriptor = one_round_protocol();
    let mut transcript = descriptor.instanciate();
    // Two challenges for a round that answers with one.
    let result = transcript.send_message(&element(103).to_message(), 2);
    assert!(matches!(result, Err(Error::UnexpectedMessage)));
    let cleanup = transcript.finish();
    assert!(matches!(cleanup, Err(Error::SpongeError(_))));
}

#[test]
fn late_send_rejected() {
    let descriptor = TranscriptBuilder::new(VARS)
        .round(MessageKind::Element, 1, 1)
        .point()
        .finish();
    let mut transcript = descriptor.instanciate();
    transcript
        .send_message(&element(109).to_message(), 1)
        .unwrap();
    transcript.point().unwrap();
    let result = transcript.point();
    assert!(matches!(result, Err(Error::TranscriptFinished)));
    transcript.finish().unwrap();
}

#[test]
fn premature_finish_rejected() {
    let descriptor = one_round_protocol();
    let transcript = descriptor.instanciate();
    let result = transcript.finish();
    assert!(matches!(result, Err(Error::SpongeError(_))));
}

#[test]
fn multi_round_agreement() {
    let descriptor = TranscriptBuilder::new(VARS)
        .round(MessageKind::Element, 1, 1)
        .round(MessageKind::Elements(3), 3, 1)
        .round(MessageKind::Element, 1, 2)
        .finish();
    let mut prover = descriptor.instanciate();
    let mut verifier = descriptor.instanciate();

    let m1 = element(10).to_message();
    let m2 = SingleElement::array_message(&vec![element(20), element(21), element(22)]);
    let m3 = element(30).to_message();

    let p1 = prover.send_message(&m1, 1).unwrap();
    let v1 = verifier.send_message(&m1, 1).unwrap();
    assert_eq!(p1, v1, "Challenges must match at round 1");

    let p2 = prover.send_message(&m2, 1).unwrap();
    let v2 = verifier.send_message(&m2, 1).unwrap();
    assert_eq!(p2, v2, "Challenges must match at round 2");

    let p3 = prover.send_message(&m3, 2).unwrap();
    let v3 = verifier.send_message(&m3, 2).unwrap();
    assert_eq!(p3, v3, "Challenges must match at round 3");

    prover.finish().unwrap();
    verifier.finish().unwrap();
}

#[test]
fn point_agreement() {
    let descriptor = TranscriptBuilder::new(VARS)
        .round(MessageKind::Element, 1, 1)
        .point()
        .finish();
    let mut prover = descriptor.instanciate();
    let mut verifier = descriptor.instanciate();
    let msg = element(1000003).to_message();
    let _ = prover.send_message(&msg, 1).unwrap();
    let _ = verifier.send_message(&msg, 1).unwrap();
    let p_point = prover.point().unwrap();
    let v_point = verifier.point().unwrap();
    assert_eq!(
        p_point, v_point,
        "Prover and verifier must derive the same evaluation point"
    );
    assert_eq!(p_point.len(), VARS, "Point must have VARS elements");
    prover.finish().unwrap();
    verifier.finish().unwrap();
}

#[test]
fn message_order_matters() {
    let descriptor = TranscriptBuilder::new(VARS)
        .round(MessageKind::Element, 1, 1)
        .round(MessageKind::Element, 1, 1)
        .finish();
    let mut ab = descriptor.instanciate();
    let mut ba = descriptor.instanciate();
    let m1 = element(31).to_message();
    let m2 = element(32).to_message();
    let _ = ab.send_message(&m1, 1).unwrap();
    let c_ab = ab.send_message(&m2, 1).unwrap();
    let _ = ba.send_message(&m2, 1).unwrap();
    let c_ba = ba.send_message(&m1, 1).unwrap();
    assert_ne!(
        c_ab, c_ba,
        "Swapping message order must produce different challenges"
    );
    ab.finish().unwrap();
    ba.finish().unwrap();
}

#[test]
fn verifier_finish_before_last_round_is_refused() {
    let descriptor = one_round_protocol();
    let verifier = VerifierTranscript::new(descriptor.instanciate());
    assert!(matches!(verifier.finish(), Err(Error::UnexpectedFinish)));
}

#[test]
fn point_where_a_message_is_expected_is_refused() {
    let descriptor = one_round_protocol();
    let mut transcript = descriptor.instanciate();
    assert!(matches!(transcript.point(), Err(Error::UnexpectedMessage)));
    // Nothing was consumed: the round can still be carried out.
    transcript.send_message(&element(5).to_message(), 1).unwrap();
    transcript.finish().unwrap();
}

#[test]
fn repeated_rounds() {
    let descriptor = TranscriptBuilder::new(VARS)
        .repeat(3, |b, _| b.round(MessageKind::Element, 1, 1))
        .finish();
    let mut transcript = descriptor.instantiate();
    for i in 0..3 {
        transcript.send_message(&element(i).to_message(), 1).unwrap();
    }
    transcript.finish().unwrap();
}

#[test]
fn finishing_before_a_round_that_uses_the_sponge_fails() {
    let descriptor = TranscriptBuilder::new(VARS)
        .round(MessageKind::Element, 1, 1)
        .round(MessageKind::Element, 1, 1)
        .finish();
    let mut transcript = descriptor.instanciate();
    transcript.send_message(&element(10).to_message(), 1).unwrap();
    assert!(matches!(transcript.finish(), Err(Error::SpongeError(_))));
}

#[test]
fn a_skipped_round_leaves_the_verifier_unable_to_finish() {
    let descriptor = one_round_protocol();
    let mut verifier = VerifierTranscript::new(descriptor.instanciate());
    verifier.skip_round();
    // The round is consumed, yet nothing went through the sponge.
    assert!(matches!(verifier.finish(), Err(Error::SpongeError(_))));
}
