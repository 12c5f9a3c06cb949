//! Reductions from one relation to another, run through the transcript, and
//! their sequential composition.
use crate::relations::{CompoundError, CompoundKey, CompoundRelation, Relation};
use crate::transcript::{
    Error, GuardedProof, Round, Transcript, TranscriptBuilder, TranscriptView, VerifierTranscript,
};
use vstd::prelude::*;

verus! {

broadcast use crate::transcript::lemma_verifier_wf_valid;

/// What the prover of a reduction ends with: an instance and a witness of
/// the target relation, and the proof.
pub struct ProverOutput<R: Relation, P> {
    pub instance: R::Instance,
    pub witness: R::Witness,
    pub proof: P,
}

/// A reduction from relation `R1` to relation `R2`.
pub trait Reduction<R1: Relation, R2: Relation> {
    type ProverKey;
    type VerifierKey;
    type Proof;
    type Error;

    spec fn key_wf(key: Self::VerifierKey) -> bool;

    /// The rounds the reduction adds to a transcript's shape.
    spec fn pattern(key: Self::VerifierKey, rounds: Seq<Round>) -> Seq<Round>;

    /// The inputs on which the prover can run.
    spec fn prover_ready(key: Self::ProverKey, instance: R1::Instance, witness: R1::Witness) -> bool;

    /// What holds of the prover's output.
    spec fn output_ok(key: Self::ProverKey, instance: R2::Instance, witness: R2::Witness) -> bool;

    /// The instances and proofs the verifier can read.
    spec fn verifier_ready(key: Self::VerifierKey, instance: R1::Instance, proof: Self::Proof) -> bool;

    /// What holds of an instance the verifier reduces to.
    spec fn verified_ok(key: Self::VerifierKey, instance: R2::Instance) -> bool;

    /// What the prover does: run from transcript state `before` on these
    /// inputs, it may give back `r` and leave the transcript in state `after`.
    spec fn prove_rel(
        key: Self::ProverKey,
        instance: R1::Instance,
        witness: R1::Witness,
        before: TranscriptView,
        r: Result<ProverOutput<R2, Self::Proof>, Error>,
        after: TranscriptView,
    ) -> bool;

    /// What the verifier does: run from transcript state `before` on these
    /// inputs, it may give back `r` and leave the transcript in state `after`.
    spec fn verify_rel(
        key: Self::VerifierKey,
        instance: R1::Instance,
        proof: Self::Proof,
        before: TranscriptView,
        r: Result<R2::Instance, Self::Error>,
        after: TranscriptView,
    ) -> bool;

    /// Defines the shape of the interaction: any deviation from it is an
    /// error in the prover and in the verifier.
    fn transcript_pattern(key: &Self::VerifierKey, builder: TranscriptBuilder) -> (r:
        TranscriptBuilder)
        requires
            Self::key_wf(*key),
            builder.wf(),
        ensures
            r.wf(),
            r@.vars == builder@.vars,
            r@.rounds == Self::pattern(*key, builder@.rounds),
    ;

    fn prove(
        key: &Self::ProverKey,
        instance: R1::Instance,
        witness: R1::Witness,
        transcript: &mut Transcript,
    ) -> (r: Result<ProverOutput<R2, Self::Proof>, Error>)
        requires
            Self::prover_ready(*key, instance, witness),
            old(transcript).wf(),
        ensures
            final(transcript).wf(),
            final(transcript)@.rounds == old(transcript)@.rounds,
            r matches Ok(out) ==> Self::output_ok(*key, out.instance, out.witness),
            Self::prove_rel(*key, instance, witness, old(transcript)@, r, final(transcript)@),
    ;

    fn verify(
        key: &Self::VerifierKey,
        instance: R1::Instance,
        proof: GuardedProof<Self::Proof>,
        transcript: &mut VerifierTranscript,
    ) -> (r: Result<R2::Instance, Self::Error>)
        requires
            Self::key_wf(*key),
            Self::verifier_ready(*key, instance, proof.value()),
            old(transcript).wf(),
        ensures
            final(transcript).valid(),
            r is Ok ==> final(transcript).wf(),
            final(transcript)@.rounds == old(transcript)@.rounds,
            r matches Ok(i) ==> Self::verified_ok(*key, i),
            Self::verify_rel(*key, instance, proof.value(), old(transcript)@, r, final(transcript)@),
    ;
}

/// An argument: a reduction to the unit relation.
pub trait Argument<R: Relation>: Reduction<R, ()> {

}

/// The sequential composition of reductions `A` and `B`, from and to `R`
/// respectively.
pub struct SeqComposition<A, B, R>(pub A, pub B, pub R);

impl<R1, R2, R3, A, B> Reduction<CompoundRelation<R1, R2>, R3> for SeqComposition<A, B, R2> where
    R1: Relation,
    R2: Relation,
    R3: Relation,
    A: Reduction<R1, R2>,
    B: Reduction<R2, R3>,
 {
    type ProverKey = CompoundKey<A::ProverKey, B::ProverKey>;

    type VerifierKey = CompoundKey<A::VerifierKey, B::VerifierKey>;

    type Proof = (A::Proof, B::Proof);

    type Error = CompoundError<A::Error, B::Error>;

    open spec fn key_wf(key: CompoundKey<A::VerifierKey, B::VerifierKey>) -> bool {
        A::key_wf(key.a_key) && B::key_wf(key.b_key)
    }

    open spec fn pattern(key: CompoundKey<A::VerifierKey, B::VerifierKey>, rounds: Seq<Round>) -> Seq<
        Round,
    > {
        B::pattern(key.b_key, A::pattern(key.a_key, rounds))
    }

    open spec fn prover_ready(
        key: CompoundKey<A::ProverKey, B::ProverKey>,
        instance: R1::Instance,
        witness: R1::Witness,
    ) -> bool {
        &&& A::prover_ready(key.a_key, instance, witness)
        &&& forall|i: R2::Instance, w: R2::Witness|
            #[trigger] A::output_ok(key.a_key, i, w) ==> B::prover_ready(key.b_key, i, w)
    }

    open spec fn output_ok(
        key: CompoundKey<A::ProverKey, B::ProverKey>,
        instance: R3::Instance,
        witness: R3::Witness,
    ) -> bool {
        B::output_ok(key.b_key, instance, witness)
    }

    open spec fn verifier_ready(
        key: CompoundKey<A::VerifierKey, B::VerifierKey>,
        instance: R1::Instance,
        proof: (A::Proof, B::Proof),
    ) -> bool {
        &&& A::verifier_ready(key.a_key, instance, proof.0)
        &&& forall|i: R2::Instance|
            #[trigger] A::verified_ok(key.a_key, i) ==> B::verifier_ready(key.b_key, i, proof.1)
    }

    open spec fn verified_ok(key: CompoundKey<A::VerifierKey, B::VerifierKey>, instance: R3::Instance) -> bool {
        B::verified_ok(key.b_key, instance)
    }

    /// The prover of `A` runs first; on success the prover of `B` runs on
    /// its output and from where it left the transcript, and the proofs are
    /// paired. The first error stops the composition.
    open spec fn prove_rel(
        key: CompoundKey<A::ProverKey, B::ProverKey>,
        instance: R1::Instance,
        witness: R1::Witness,
        before: TranscriptView,
        r: Result<ProverOutput<R3, (A::Proof, B::Proof)>, Error>,
        after: TranscriptView,
    ) -> bool {
        match r {
            Ok(out) => exists|oa: ProverOutput<R2, A::Proof>, mid: TranscriptView, ob: ProverOutput<R3, B::Proof>|
                #![trigger A::prove_rel(key.a_key, instance, witness, before, Ok(oa), mid), B::prove_rel(key.b_key, oa.instance, oa.witness, mid, Ok(ob), after)]
                A::prove_rel(key.a_key, instance, witness, before, Ok(oa), mid) && B::prove_rel(
                    key.b_key,
                    oa.instance,
                    oa.witness,
                    mid,
                    Ok(ob),
                    after,
                ) && out == (ProverOutput::<R3, (A::Proof, B::Proof)> {
                    instance: ob.instance,
                    witness: ob.witness,
                    proof: (oa.proof, ob.proof),
                }),
            Err(e) => A::prove_rel(key.a_key, instance, witness, before, Err(e), after) || exists|
                oa: ProverOutput<R2, A::Proof>,
                mid: TranscriptView,
            |
                #![trigger A::prove_rel(key.a_key, instance, witness, before, Ok(oa), mid)]
                A::prove_rel(key.a_key, instance, witness, before, Ok(oa), mid) && B::prove_rel(
                    key.b_key,
                    oa.instance,
                    oa.witness,
                    mid,
                    Err(e),
                    after,
                ),
        }
    }

    /// The verifier of `A` reads the first half of the proof; on success the
    /// verifier of `B` reads the second half on the instance it gave and from
    /// where it left the transcript. An error says which of them failed.
    open spec fn verify_rel(
        key: CompoundKey<A::VerifierKey, B::VerifierKey>,
        instance: R1::Instance,
        proof: (A::Proof, B::Proof),
        before: TranscriptView,
        r: Result<R3::Instance, CompoundError<A::Error, B::Error>>,
        after: TranscriptView,
    ) -> bool {
        match r {
            Ok(i) => exists|ia: R2::Instance, mid: TranscriptView|
                #![trigger A::verify_rel(key.a_key, instance, proof.0, before, Ok(ia), mid)]
                A::verify_rel(key.a_key, instance, proof.0, before, Ok(ia), mid) && B::verify_rel(
                    key.b_key,
                    ia,
                    proof.1,
                    mid,
                    Ok(i),
                    after,
                ),
            Err(CompoundError::ErrorInA(e)) => A::verify_rel(
                key.a_key,
                instance,
                proof.0,
                before,
                Err(e),
                after,
            ),
            Err(CompoundError::ErrorInB(e)) => exists|ia: R2::Instance, mid: TranscriptView|
                #![trigger A::verify_rel(key.a_key, instance, proof.0, before, Ok(ia), mid)]
                A::verify_rel(key.a_key, instance, proof.0, before, Ok(ia), mid) && B::verify_rel(
                    key.b_key,
                    ia,
                    proof.1,
                    mid,
                    Err(e),
                    after,
                ),
        }
    }

    fn transcript_pattern(
        key: &CompoundKey<A::VerifierKey, B::VerifierKey>,
        builder: TranscriptBuilder,
    ) -> (r: TranscriptBuilder) {
        let builder = A::transcript_pattern(&key.a_key, builder);
        B::transcript_pattern(&key.b_key, builder)
    }

    fn prove(
        key: &CompoundKey<A::ProverKey, B::ProverKey>,
        instance: R1::Instance,
        witness: R1::Witness,
        transcript: &mut Transcript,
    ) -> (r: Result<ProverOutput<R3, (A::Proof, B::Proof)>, Error>) {
        let ghost start = transcript@;
        let ghost i0 = instance;
        let ghost w0 = witness;
        let out_a = match A::prove(&key.a_key, instance, witness, transcript) {
            Ok(out) => out,
            Err(e) => {
                return Err(e);
            },
        };
        let ghost oa = out_a;
        let ghost mid = transcript@;
        let ProverOutput { instance, witness, proof: proof_a } = out_a;
        let out_b = match B::prove(&key.b_key, instance, witness, transcript) {
            Ok(out) => out,
            Err(e) => {
                proof {
                    assert(A::prove_rel(key.a_key, i0, w0, start, Ok(oa), mid));
                }
                return Err(e);
            },
        };
        let ghost ob = out_b;
        let ProverOutput { instance, witness, proof: proof_b } = out_b;
        let r = Ok(ProverOutput { instance, witness, proof: (proof_a, proof_b) });
        proof {
            assert(A::prove_rel(key.a_key, i0, w0, start, Ok(oa), mid));
            assert(B::prove_rel(key.b_key, oa.instance, oa.witness, mid, Ok(ob), transcript@));
        }
        r
    }

    fn verify(
        key: &CompoundKey<A::VerifierKey, B::VerifierKey>,
        instance: R1::Instance,
        proof: GuardedProof<(A::Proof, B::Proof)>,
        transcript: &mut VerifierTranscript,
    ) -> (r: Result<R3::Instance, CompoundError<A::Error, B::Error>>) {
        let ghost start = transcript@;
        let ghost i0 = instance;
        let (proof_a, proof_b) = proof.split();
        let instance = match A::verify(&key.a_key, instance, proof_a, transcript) {
            Ok(i) => i,
            Err(e) => {
                return Err(CompoundError::ErrorInA(e));
            },
        };
        let ghost mid = transcript@;
        proof {
            assert(A::verify_rel(key.a_key, i0, proof.value().0, start, Ok(instance), mid));
        }
        match B::verify(&key.b_key, instance, proof_b, transcript) {
            Ok(i) => Ok(i),
            Err(e) => Err(CompoundError::ErrorInB(e)),
        }
    }
}

impl TranscriptBuilder {
    /// Runs the rounds of another reduction, as `R::transcript_pattern` does.
    pub fn subprotocol<R1: Relation, R2: Relation, R: Reduction<R1, R2>>(self, key: &R::VerifierKey) -> (r:
        TranscriptBuilder)
        requires
            R::key_wf(*key),
            self.wf(),
        ensures
            r.wf(),
            r@.vars == self@.vars,
            r@.rounds == R::pattern(*key, self@.rounds),
    {
        R::transcript_pattern(key, self)
    }
}

} // verus!
