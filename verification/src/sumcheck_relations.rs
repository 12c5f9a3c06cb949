//! The relations that the sumcheck and the zerocheck reduce: the function of
//! the oracle, on the rows merged from the structure, the instance and the
//! witness, sums to the claimed sum, or vanishes on every row.
use crate::algebra::{fsum, lemma_fsum_ext, views};
use crate::field::{fmul, group_field, lemma_mul_zero, Scalar};
use crate::reduction::{Argument, ProverOutput, Reduction};
use crate::relations::Relation;
use crate::sponge::{lemma_squeezed_len, spec_absorb_all};
use crate::transcript::{
    challenges_for, round_accepts, sponge_after, Error, Guard, GuardedProof, MessageKind, Round,
    Transcript, TranscriptBuilder, TranscriptMessage, TranscriptView, VerifierTranscript,
};
use crate::sumcheck::{
    copy_scalars, env_values, expr_eval, expr_wf, rows, EvalCheckEnv, EvalLocation, Expr, Var,
};
use crate::zerocheck::{hyper_prod, lemma_hyper_prod_len, powers_factors, CompactPowers};
use vstd::arithmetic::power2::pow2;
use vstd::prelude::*;

verus! {

broadcast use {group_field, crate::transcript::lemma_verifier_wf_valid};

/// The structure of a sumcheck: its function, where each of the function's
/// polynomials lives, the rows of the structure's polynomials, and the
/// challenges.
pub struct SumcheckStructure {
    pub function: Expr,
    pub locations: Vec<EvalLocation>,
    pub structure: Vec<Vec<Scalar>>,
    pub challs: Vec<Scalar>,
}

/// An instance of the sumcheck relation: the claimed sum and the values of
/// the instance's polynomials, constant over the hypercube.
pub struct SumcheckInstance {
    pub sum: Scalar,
    pub instance_evals: Vec<Scalar>,
}

/// The row of a polynomial's values taken, for each polynomial, from where
/// it lives.
pub open spec fn merged_row(
    structure: Seq<nat>,
    instance: Seq<nat>,
    witness: Seq<nat>,
    locations: Seq<EvalLocation>,
) -> Seq<nat> {
    Seq::new(
        locations.len(),
        |j: int|
            match locations[j] {
                EvalLocation::Structure => structure[j],
                EvalLocation::Instance => instance[j],
                EvalLocation::Witness => witness[j],
            },
    )
}

/// The values of the function on every merged row.
pub open spec fn oracle_values(st: SumcheckStructure, instance_evals: Seq<nat>, witness: Seq<Seq<nat>>) -> Seq<nat> {
    Seq::new(
        witness.len(),
        |b: int|
            expr_eval(
                st.function,
                merged_row(rows(st.structure@)[b], instance_evals, witness[b], st.locations@),
                views(st.challs@),
            ),
    )
}

/// The shapes agree: one structure row per witness row, every row and the
/// instance with one value per polynomial, and the function's indices in
/// range.
pub open spec fn shapes_agree(st: SumcheckStructure, instance_evals: Seq<nat>, witness: Seq<Seq<nat>>) -> bool {
    let m = st.locations@.len();
    &&& st.structure@.len() == witness.len()
    &&& forall|b: int| 0 <= b < witness.len() ==> #[trigger] witness[b].len() == m
    &&& forall|b: int| 0 <= b < witness.len() ==> (#[trigger] st.structure@[b])@.len() == m
    &&& instance_evals.len() == m
    &&& expr_wf(st.function, m, st.challs@.len() as nat)
}

/// Takes each value from where its polynomial lives.
pub fn merge(
    structure: &Vec<Scalar>,
    instance: &Vec<Scalar>,
    witness: &Vec<Scalar>,
    locations: &Vec<EvalLocation>,
) -> (r: Vec<Scalar>)
    requires
        structure@.len() == locations@.len(),
        instance@.len() == locations@.len(),
        witness@.len() == locations@.len(),
    ensures
        views(r@) == merged_row(views(structure@), views(instance@), views(witness@), locations@),
{
    let mut out: Vec<Scalar> = Vec::new();
    let mut j: usize = 0;
    let ghost goal = merged_row(views(structure@), views(instance@), views(witness@), locations@);
    while j < locations.len()
        invariant
            j <= locations@.len(),
            structure@.len() == locations@.len(),
            instance@.len() == locations@.len(),
            witness@.len() == locations@.len(),
            goal == merged_row(views(structure@), views(instance@), views(witness@), locations@),
            views(out@) == goal.take(j as int),
        decreases locations@.len() - j,
    {
        let v = match locations[j] {
            EvalLocation::Structure => structure[j],
            EvalLocation::Instance => instance[j],
            EvalLocation::Witness => witness[j],
        };
        let ghost prev = views(out@);
        out.push(v);
        proof {
            assert(views(out@) =~= prev.push(v@));
            assert(views(out@) =~= goal.take(j + 1));
        }
        j = j + 1;
    }
    proof {
        assert(goal.take(j as int) =~= goal);
    }
    out
}

/// The function's value on every merged row.
pub fn oracle_evals(st: &SumcheckStructure, instance_evals: &Vec<Scalar>, witness: &Vec<Vec<Scalar>>) -> (r:
    Vec<Scalar>)
    requires
        shapes_agree(*st, views(instance_evals@), rows(witness@)),
    ensures
        views(r@) == oracle_values(*st, views(instance_evals@), rows(witness@)),
{
    let ghost goal = oracle_values(*st, views(instance_evals@), rows(witness@));
    let mut out: Vec<Scalar> = Vec::new();
    let mut b: usize = 0;
    while b < witness.len()
        invariant
            b <= witness@.len(),
            shapes_agree(*st, views(instance_evals@), rows(witness@)),
            goal == oracle_values(*st, views(instance_evals@), rows(witness@)),
            views(out@) == goal.take(b as int),
        decreases witness@.len() - b,
    {
        proof {
            assert(rows(witness@)[b as int].len() == witness@[b as int]@.len());
            assert(rows(st.structure@)[b as int] == views(st.structure@[b as int]@));
        }
        let row = merge(&st.structure[b], instance_evals, &witness[b], &st.locations);
        let env = EvalCheckEnv::new(row, copy_scalars(&st.challs));
        let v: Scalar = st.function.function(&env);
        proof {
            assert(env_values(st.function, env)[0] == v@);
        }
        let ghost prev = views(out@);
        out.push(v);
        proof {
            assert(views(out@) =~= prev.push(v@));
            assert(views(out@) =~= goal.take(b + 1));
        }
        b = b + 1;
    }
    proof {
        assert(goal.take(b as int) =~= goal);
    }
    out
}

/// The sumcheck relation: the function sums, over the rows, to the claimed sum.
pub struct SumcheckRelation;

impl Relation for SumcheckRelation {
    type Structure = SumcheckStructure;

    type Instance = SumcheckInstance;

    type Witness = Vec<Vec<Scalar>>;

    open spec fn holds(st: SumcheckStructure, instance: SumcheckInstance, witness: Vec<Vec<Scalar>>) -> bool {
        fsum(oracle_values(st, views(instance.instance_evals@), rows(witness@))) == instance.sum@
    }

    open spec fn admits(st: SumcheckStructure, instance: SumcheckInstance, witness: Vec<Vec<Scalar>>) -> bool {
        shapes_agree(st, views(instance.instance_evals@), rows(witness@))
    }

    fn check(st: &SumcheckStructure, instance: &SumcheckInstance, witness: &Vec<Vec<Scalar>>) -> (r: bool) {
        let values = oracle_evals(st, &instance.instance_evals, witness);
        let sum = sum_all(&values);
        sum.equals(&instance.sum)
    }
}

/// The zerocheck relation: the function vanishes on every row.
pub struct ZerocheckRelation;

impl Relation for ZerocheckRelation {
    type Structure = SumcheckStructure;

    type Instance = Vec<Scalar>;

    type Witness = Vec<Vec<Scalar>>;

    open spec fn holds(st: SumcheckStructure, instance_evals: Vec<Scalar>, witness: Vec<Vec<Scalar>>) -> bool {
        forall|b: int|
            0 <= b < witness@.len() ==> #[trigger] oracle_values(st, views(instance_evals@), rows(witness@))[b]
                == 0
    }

    open spec fn admits(st: SumcheckStructure, instance_evals: Vec<Scalar>, witness: Vec<Vec<Scalar>>) -> bool {
        shapes_agree(st, views(instance_evals@), rows(witness@))
    }

    fn check(st: &SumcheckStructure, instance_evals: &Vec<Scalar>, witness: &Vec<Vec<Scalar>>) -> (r: bool) {
        let values = oracle_evals(st, instance_evals, witness);
        proof {
            assert(views(values@).len() == values@.len());
        }
        let mut i: usize = 0;
        while i < values.len()
            invariant
                i <= values@.len(),
                values@.len() == witness@.len(),
                views(values@) == oracle_values(*st, views(instance_evals@), rows(witness@)),
                forall|b: int| 0 <= b < i ==> #[trigger] oracle_values(*st, views(instance_evals@), rows(witness@))[b] == 0,
            decreases values@.len() - i,
        {
            if !values[i].is_zero() {
                proof {
                    assert(views(values@)[i as int] == values@[i as int]@);
                }
                return false;
            }
            i = i + 1;
        }
        true
    }
}

/// An instance of the zero-sumcheck relation: the powers that weigh each row.
pub struct ZeroSumcheckInstance {
    pub sum: Scalar,
    pub zerocheck_powers: CompactPowers,
    pub instance_evals: Vec<Scalar>,
}

/// Why a zero-sumcheck instance cannot be read as field elements: its
/// powers are over another number of variables, or its oracle instance
/// is refused.
#[derive(Clone, Copy, Debug)]
pub enum ZerocheckError<I> {
    Zerocheck,
    Inner(I),
}

impl ZeroSumcheckInstance {
    /// The number of field elements of an instance over `vars` variables
    /// whose oracle instance has `instance_len` evaluations.
    pub fn len(vars: usize, instance_len: usize) -> (r: usize)
        requires
            2 * vars + instance_len <= usize::MAX,
        ensures
            r == 2 * vars + instance_len,
    {
        2 * vars + instance_len
    }

    /// The field elements of the instance: the powers' factors, two per
    /// variable, then the oracle instance's evaluations. The powers must be
    /// over `vars` variables, and the oracle instance must have
    /// `instance_len` evaluations.
    pub fn to_field_elements(&self, vars: usize, instance_len: usize) -> (r: Result<
        Vec<Scalar>,
        ZerocheckError<()>,
    >)
        ensures
            self.zerocheck_powers@.len() != vars ==> r matches Err(ZerocheckError::Zerocheck),
            self.zerocheck_powers@.len() == vars && self.instance_evals@.len() != instance_len ==> r matches Err(
                ZerocheckError::Inner(()),
            ),
            r matches Ok(v) ==> {
                &&& self.zerocheck_powers@.len() == vars
                &&& self.instance_evals@.len() == instance_len
                &&& v@.len() == 2 * vars + instance_len
                &&& forall|j: int|
                    0 <= j < vars ==> #[trigger] v@[2 * j]@ == self.zerocheck_powers@[j].0 && v@[2 * j
                        + 1]@ == self.zerocheck_powers@[j].1
                &&& forall|k: int| 0 <= k < instance_len ==> #[trigger] v@[2 * vars + k] == self.instance_evals@[k]
            },
            (self.zerocheck_powers@.len() == vars && self.instance_evals@.len() == instance_len) ==> r is Ok,
    {
        if self.zerocheck_powers.vars() != vars {
            return Err(ZerocheckError::Zerocheck);
        }
        if self.instance_evals.len() != instance_len {
            return Err(ZerocheckError::Inner(()));
        }
        let mut elems = self.zerocheck_powers.to_field_elements();
        let ghost start = elems@;
        let mut k: usize = 0;
        while k < self.instance_evals.len()
            invariant
                k <= self.instance_evals@.len(),
                start.len() == 2 * vars,
                elems@ == start + self.instance_evals@.take(k as int),
            decreases self.instance_evals@.len() - k,
        {
            elems.push(self.instance_evals[k]);
            proof {
                assert(elems@ =~= start + self.instance_evals@.take(k + 1));
            }
            k = k + 1;
        }
        proof {
            assert(self.instance_evals@.take(k as int) =~= self.instance_evals@);
            assert forall|j: int| 0 <= j < vars implies #[trigger] elems@[2 * j]@ == self.zerocheck_powers@[j].0
                && elems@[2 * j + 1]@ == self.zerocheck_powers@[j].1 by {
                assert(elems@[2 * j] == start[2 * j]);
                assert(elems@[2 * j + 1] == start[2 * j + 1]);
            }
        }
        Ok(elems)
    }
}

/// The zero-sumcheck relation: the function, weighed on each row by the
/// product table of the powers, sums to the claimed sum, which is zero
/// unless the instance comes from folding.
pub struct ZeroSumcheckRelation;

/// `sum_b values[b] * weights[b]`.
pub open spec fn weighed_sum(values: Seq<nat>, weights: Seq<nat>) -> nat {
    fsum(Seq::new(values.len(), |b: int| fmul(values[b], weights[b])))
}

impl Relation for ZeroSumcheckRelation {
    type Structure = SumcheckStructure;

    type Instance = ZeroSumcheckInstance;

    type Witness = Vec<Vec<Scalar>>;

    open spec fn holds(st: SumcheckStructure, instance: ZeroSumcheckInstance, witness: Vec<Vec<Scalar>>) -> bool {
        weighed_sum(
            oracle_values(st, views(instance.instance_evals@), rows(witness@)),
            hyper_prod(instance.zerocheck_powers@, 1),
        ) == instance.sum@
    }

    open spec fn admits(st: SumcheckStructure, instance: ZeroSumcheckInstance, witness: Vec<Vec<Scalar>>) -> bool {
        &&& shapes_agree(st, views(instance.instance_evals@), rows(witness@))
        &&& instance.zerocheck_powers@.len() >= 1
        &&& witness@.len() == pow2(instance.zerocheck_powers@.len())
        &&& forall|j: int|
            0 <= j < instance.zerocheck_powers@.len() ==> #[trigger] instance.zerocheck_powers@[j].1 != 0
    }

    fn check(st: &SumcheckStructure, instance: &ZeroSumcheckInstance, witness: &Vec<Vec<Scalar>>) -> (r: bool) {
        let n = witness.len();
        let powers = instance.zerocheck_powers.eval_over_domain();
        let values = oracle_evals(st, &instance.instance_evals, witness);
        let ghost w = hyper_prod(instance.zerocheck_powers@, 1);
        let ghost v = views(values@);
        proof {
            lemma_hyper_prod_len(instance.zerocheck_powers@, 1);
            assert(views(values@).len() == values@.len());
            assert(views(powers@).len() == powers@.len());
        }
        let ghost f = |b: int| fmul(v[b], w[b]);
        let mut acc = Scalar::zero();
        let mut b: usize = 0;
        while b < n
            invariant
                n == witness@.len(),
                b <= n,
                values@.len() == n,
                powers@.len() == n,
                v == views(values@),
                w == views(powers@),
                f == (|b: int| fmul(v[b], w[b])),
                acc@ == fsum(Seq::new(b as nat, f)),
            decreases n - b,
        {
            acc = acc.add(&values[b].mul(&powers[b]));
            proof {
                assert(Seq::new((b + 1) as nat, f).drop_last() =~= Seq::new(b as nat, f));
            }
            b = b + 1;
        }
        proof {
            assert(Seq::new(n as nat, f) =~= Seq::new(v.len(), |b: int| fmul(v[b], w[b])));
        }
        acc.equals(&instance.sum)
    }
}

/// The reduction of a zerocheck to a zero-sumcheck: the verifier draws a
/// challenge, whose powers weigh the rows.
pub struct ZerocheckReduction;

/// The zerocheck's single round, an empty message answered by one challenge:
/// the transcript after it, or the error the transcript refuses it with.
pub open spec fn unit_round(before: TranscriptView) -> Result<TranscriptView, Error> {
    if before.next >= before.rounds.len() {
        Err(Error::TranscriptFinished)
    } else if !round_accepts(before.rounds[before.next as int], MessageKind::Unit, 0, 1) {
        Err(Error::UnexpectedMessage)
    } else {
        Ok(
            TranscriptView {
                sponge: sponge_after(before.sponge, seq![], 1),
                rounds: before.rounds,
                next: before.next + 1,
            },
        )
    }
}

/// The zero-sumcheck instance the zerocheck reduces to from transcript state
/// `before`: sum zero, the powers of the round's challenge, and the
/// instance's evaluations.
pub open spec fn reduced_instance_ok(
    key: usize,
    instance: Seq<Scalar>,
    before: TranscriptView,
    out: ZeroSumcheckInstance,
) -> bool {
    &&& out.sum@ == 0
    &&& out.zerocheck_powers@ == powers_factors(challenges_for(before.sponge, seq![], 1)[0], key as nat)
    &&& out.instance_evals@ == instance
}

impl Reduction<ZerocheckRelation, ZeroSumcheckRelation> for ZerocheckReduction {
    /// The number of variables.
    type ProverKey = usize;

    type VerifierKey = usize;

    type Proof = ();

    type Error = Error;

    open spec fn key_wf(key: usize) -> bool {
        true
    }

    open spec fn pattern(key: usize, rounds: Seq<Round>) -> Seq<Round> {
        rounds.push(Round { kind: MessageKind::Unit, message_len: 0, challenges: 1 })
    }

    open spec fn prover_ready(key: usize, instance: Vec<Scalar>, witness: Vec<Vec<Scalar>>) -> bool {
        true
    }

    open spec fn output_ok(key: usize, instance: ZeroSumcheckInstance, witness: Vec<Vec<Scalar>>) -> bool {
        &&& instance.sum@ == 0
        &&& instance.zerocheck_powers@.len() == key
    }

    open spec fn verifier_ready(key: usize, instance: Vec<Scalar>, proof: ()) -> bool {
        true
    }

    open spec fn verified_ok(key: usize, instance: ZeroSumcheckInstance) -> bool {
        &&& instance.sum@ == 0
        &&& instance.zerocheck_powers@.len() == key
    }

    /// The round is run; on success the instance is reduced and the witness
    /// kept, on error the transcript is left as it was.
    open spec fn prove_rel(
        key: usize,
        instance: Vec<Scalar>,
        witness: Vec<Vec<Scalar>>,
        before: TranscriptView,
        r: Result<ProverOutput<ZeroSumcheckRelation, ()>, Error>,
        after: TranscriptView,
    ) -> bool {
        match r {
            Ok(out) => unit_round(before) == Ok::<TranscriptView, Error>(after) && reduced_instance_ok(
                key,
                instance@,
                before,
                out.instance,
            ) && out.witness@ == witness@,
            Err(e) => unit_round(before) == Err::<TranscriptView, Error>(e) && after == before,
        }
    }

    /// As the prover: the round is run, and on success the instance reduced.
    open spec fn verify_rel(
        key: usize,
        instance: Vec<Scalar>,
        proof: (),
        before: TranscriptView,
        r: Result<ZeroSumcheckInstance, Error>,
        after: TranscriptView,
    ) -> bool {
        match r {
            Ok(i) => unit_round(before) == Ok::<TranscriptView, Error>(after) && reduced_instance_ok(
                key,
                instance@,
                before,
                i,
            ),
            Err(e) => unit_round(before) == Err::<TranscriptView, Error>(e) && after == before,
        }
    }

    fn transcript_pattern(key: &usize, builder: TranscriptBuilder) -> (r: TranscriptBuilder) {
        builder.round(MessageKind::Unit, 0, 1)
    }

    fn prove(
        key: &usize,
        instance: Vec<Scalar>,
        witness: Vec<Vec<Scalar>>,
        transcript: &mut Transcript,
    ) -> (r: Result<ProverOutput<ZeroSumcheckRelation, ()>, Error>)
        ensures
            r is Ok <==> (old(transcript)@.next < old(transcript)@.rounds.len() && round_accepts(
                old(transcript)@.rounds[old(transcript)@.next as int],
                MessageKind::Unit,
                0,
                1,
            )),
            r matches Ok(out) ==> out.instance.zerocheck_powers@ == powers_factors(
                challenges_for(old(transcript)@.sponge, seq![], 1)[0],
                *key as nat,
            ) && out.instance.instance_evals@ == instance@ && out.witness@ == witness@
                && final(transcript)@.next == old(transcript)@.next + 1,
    {
        let unit = TranscriptMessage { kind: MessageKind::Unit, elements: Vec::new() };
        let ghost v0 = transcript@;
        let chall = match transcript.send_message(&unit, 1) {
            Ok(c) => {
                proof {
                    assert(views(unit.elements@) =~= Seq::<nat>::empty());
                    lemma_squeezed_len(spec_absorb_all(v0.sponge, Seq::<nat>::empty()), 1);
                    assert(views(c@).len() == 1);
                }
                c[0]
            },
            Err(e) => {
                return Err(e);
            },
        };
        let zerocheck_powers = CompactPowers::new(chall, *key);
        let instance = ZeroSumcheckInstance {
            sum: Scalar::zero(),
            zerocheck_powers,
            instance_evals: instance,
        };
        Ok(ProverOutput { instance, witness, proof: () })
    }

    fn verify(
        key: &usize,
        instance: Vec<Scalar>,
        proof: GuardedProof<()>,
        transcript: &mut VerifierTranscript,
    ) -> (r: Result<ZeroSumcheckInstance, Error>)
        ensures
            r is Ok <==> (old(transcript)@.next < old(transcript)@.rounds.len() && round_accepts(
                old(transcript)@.rounds[old(transcript)@.next as int],
                MessageKind::Unit,
                0,
                1,
            )),
            r matches Ok(i) ==> i.zerocheck_powers@ == powers_factors(
                challenges_for(old(transcript)@.sponge, seq![], 1)[0],
                *key as nat,
            ) && i.instance_evals@ == instance@ && final(transcript)@.next == old(transcript)@.next
                + 1,
    {
        let ghost v0 = transcript@;
        let unit = Guard::new(TranscriptMessage { kind: MessageKind::Unit, elements: Vec::new() });
        let chall = match transcript.unwrap_guard(unit, 1) {
            Ok(pair) => {
                let (_, c) = pair;
                proof {
                    assert(views(unit.value().elements@) =~= Seq::<nat>::empty());
                    lemma_squeezed_len(spec_absorb_all(v0.sponge, Seq::<nat>::empty()), 1);
                    assert(views(c@).len() == 1);
                }
                c[0]
            },
            Err(e) => {
                return Err(e);
            },
        };
        let zerocheck_powers = CompactPowers::new(chall, *key);
        Ok(ZeroSumcheckInstance { sum: Scalar::zero(), zerocheck_powers, instance_evals: instance })
    }
}

/// An argument for a relation without witness that the verifier settles
/// alone, by checking the relation itself, as for the query relation of
/// small oracles: there is no interaction, and its key is the relation's
/// structure.
pub struct SmallOracleArgument<R>(pub R);

impl<R: Relation<Witness = ()>> Reduction<R, ()> for SmallOracleArgument<R> {
    type ProverKey = ();

    type VerifierKey = R::Structure;

    type Proof = ();

    type Error = ();

    open spec fn key_wf(key: R::Structure) -> bool {
        true
    }

    open spec fn pattern(key: R::Structure, rounds: Seq<Round>) -> Seq<Round> {
        rounds
    }

    open spec fn prover_ready(key: (), instance: R::Instance, witness: ()) -> bool {
        true
    }

    open spec fn output_ok(key: (), instance: (), witness: ()) -> bool {
        true
    }

    open spec fn verifier_ready(key: R::Structure, instance: R::Instance, proof: ()) -> bool {
        R::admits(key, instance, ())
    }

    open spec fn verified_ok(key: R::Structure, instance: ()) -> bool {
        true
    }

    /// The prover has nothing to send: it succeeds and leaves the transcript
    /// as it was.
    open spec fn prove_rel(
        key: (),
        instance: R::Instance,
        witness: (),
        before: TranscriptView,
        r: Result<ProverOutput<(), ()>, Error>,
        after: TranscriptView,
    ) -> bool {
        r is Ok && after == before
    }

    /// The verifier accepts exactly when the relation holds, and leaves the
    /// transcript as it was.
    open spec fn verify_rel(
        key: R::Structure,
        instance: R::Instance,
        proof: (),
        before: TranscriptView,
        r: Result<(), ()>,
        after: TranscriptView,
    ) -> bool {
        (r is Ok <==> R::holds(key, instance, ())) && after == before
    }

    fn transcript_pattern(key: &R::Structure, builder: TranscriptBuilder) -> (r: TranscriptBuilder) {
        builder
    }

    fn prove(key: &(), instance: R::Instance, witness: (), transcript: &mut Transcript) -> (r: Result<
        ProverOutput<(), ()>,
        Error,
    >)
        ensures
            r is Ok,
            final(transcript)@ == old(transcript)@,
    {
        Ok(ProverOutput { instance: (), witness: (), proof: () })
    }

    fn verify(
        key: &R::Structure,
        instance: R::Instance,
        proof: GuardedProof<()>,
        transcript: &mut VerifierTranscript,
    ) -> (r: Result<(), ()>)
        ensures
            r is Ok <==> R::holds(*key, instance, ()),
            final(transcript)@ == old(transcript)@,
    {
        if R::check(key, &instance, &()) {
            Ok(())
        } else {
            Err(())
        }
    }
}

impl<R: Relation<Witness = ()>> Argument<R> for SmallOracleArgument<R> {

}

/// The sum of the elements.
fn sum_all(values: &Vec<Scalar>) -> (r: Scalar)
    ensures
        r@ == fsum(views(values@)),
{
    let mut acc = Scalar::zero();
    let mut i: usize = 0;
    while i < values.len()
        invariant
            i <= values@.len(),
            acc@ == fsum(views(values@).take(i as int)),
        decreases values@.len() - i,
    {
        acc = acc.add(&values[i]);
        proof {
            assert(views(values@).take(i + 1).drop_last() =~= views(values@).take(i as int));
        }
        i = i + 1;
    }
    proof {
        assert(views(values@).take(i as int) =~= views(values@));
    }
    acc
}

/// A witness of the zerocheck relation is one of the zero-sumcheck relation
/// with claim zero, whatever the powers that weigh its rows.
pub proof fn lemma_zerocheck_gives_zero_sum(
    st: SumcheckStructure,
    instance_evals: Vec<Scalar>,
    witness: Vec<Vec<Scalar>>,
    instance: ZeroSumcheckInstance,
)
    requires
        instance.instance_evals@ == instance_evals@,
        instance.sum@ == 0,
        ZeroSumcheckRelation::admits(st, instance, witness),
        ZerocheckRelation::holds(st, instance_evals, witness),
    ensures
        ZeroSumcheckRelation::holds(st, instance, witness),
{
    let v = oracle_values(st, views(instance_evals@), rows(witness@));
    let w = hyper_prod(instance.zerocheck_powers@, 1);
    let terms = Seq::new(v.len(), |b: int| fmul(v[b], w[b]));
    let zeros = Seq::new(v.len(), |b: int| 0nat);
    assert forall|b: int| 0 <= b < terms.len() implies terms[b] == zeros[b] by {
        assert(v[b] == 0);
        lemma_mul_zero(w[b]);
    }
    lemma_fsum_ext(terms, zeros);
    lemma_fsum_zeros(v.len());
}

/// A sum of zeros is zero.
proof fn lemma_fsum_zeros(n: nat)
    ensures
        fsum(Seq::new(n, |b: int| 0nat)) == 0,
    decreases n,
{
    if n > 0 {
        lemma_fsum_zeros((n - 1) as nat);
        assert(Seq::new(n, |b: int| 0nat).drop_last() =~= Seq::new((n - 1) as nat, |b: int| 0nat));
        crate::field::lemma_small(0);
    }
}

} // verus!
