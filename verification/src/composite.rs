//! The composite oracle: each polynomial of the function is answered by one
//! of two partial oracles, either computed by that oracle or provided by
//! the prover, and the prover's evaluations go through the transcript.
//!
//! The natures of the polynomials are listed in the order of a flattened
//! row: the side of the partial oracle that answers it, and whether that
//! oracle leaves its value to the prover.
use crate::algebra::{dot, views};
use crate::field::Scalar;
use crate::oracles::Either;
use crate::polynomials::{eq_table, has_vars, MultiPoint};
use crate::sumcheck::{
    copy_scalars, env_values, expr_eval, expr_wf, rows, table_wf, EvalCheckEnv, Expr, Var,
};
use crate::sumcheck_reduction::{column, eval_rows, PartialQueryInstance, ProverEvals};
use crate::transcript::{
    round_accepts, sponge_after, Error, GuardedProof, MessageKind, Transcript, TranscriptMessage, TranscriptView,
    VerifierTranscript,
};
use vstd::prelude::*;

verus! {

broadcast use crate::transcript::lemma_verifier_wf_valid;

/// What a partial oracle answers for a polynomial at a point.
#[derive(Clone, Copy, Debug)]
pub enum OracleEval {
    /// The oracle computed the value.
    Computed(Scalar),
    /// The prover provides the value.
    ProverProvided,
    /// The oracle does not answer for this polynomial.
    NotQueried,
}

/// The number of prover-provided polynomials on one side.
pub open spec fn side_count(natures: Seq<Either<bool, bool>>, left: bool) -> nat
    decreases natures.len(),
{
    if natures.len() == 0 {
        0
    } else {
        side_count(natures.drop_last(), left) + match natures.last() {
            Either::Left(p) => if left && p {
                1nat
            } else {
                0nat
            },
            Either::Right(p) => if !left && p {
                1nat
            } else {
                0nat
            },
        }
    }
}

/// The number of queries left to the prover.
pub open spec fn provided_count(q: Seq<OracleEval>) -> nat
    decreases q.len(),
{
    if q.len() == 0 {
        0
    } else {
        provided_count(q.drop_last()) + if q.last() is ProverProvided {
            1nat
        } else {
            0nat
        }
    }
}

/// The values of the queries left to the prover, in order.
pub open spec fn provided_values(evals: Seq<nat>, q: Seq<OracleEval>) -> Seq<nat>
    decreases q.len(),
{
    if q.len() == 0 {
        seq![]
    } else {
        let n = q.len() - 1;
        provided_values(evals, q.drop_last()) + if q.last() is ProverProvided {
            seq![evals[n]]
        } else {
            seq![]
        }
    }
}

/// The key of the composite reduction: how many evaluations the prover
/// provides to each partial oracle, and the function.
pub struct CompositeReductionKey {
    pub oracle1_evals: usize,
    pub oracle2_evals: usize,
    pub function: Expr,
    pub challs: Vec<Scalar>,
}

/// Counts the evaluations the prover provides to each partial oracle.
pub fn verifier_key(natures: &Vec<Either<bool, bool>>, function: Expr, challs: Vec<Scalar>) -> (r:
    CompositeReductionKey)
    ensures
        r.oracle1_evals == side_count(natures@, true),
        r.oracle2_evals == side_count(natures@, false),
        r.function == function,
        r.challs@ == challs@,
{
    let mut oracle1_evals: usize = 0;
    let mut oracle2_evals: usize = 0;
    let mut k: usize = 0;
    while k < natures.len()
        invariant
            k <= natures@.len(),
            oracle1_evals == side_count(natures@.take(k as int), true),
            oracle2_evals == side_count(natures@.take(k as int), false),
            oracle1_evals + oracle2_evals <= k,
        decreases natures@.len() - k,
    {
        proof {
            assert(natures@.take(k + 1).drop_last() =~= natures@.take(k as int));
        }
        match natures[k] {
            Either::Left(provided) => {
                if provided {
                    oracle1_evals = oracle1_evals + 1;
                }
            },
            Either::Right(provided) => {
                if provided {
                    oracle2_evals = oracle2_evals + 1;
                }
            },
        }
        k = k + 1;
    }
    proof {
        assert(natures@.take(k as int) =~= natures@);
    }
    CompositeReductionKey { oracle1_evals, oracle2_evals, function, challs }
}

/// The evaluations the prover provides to one partial oracle: those of the
/// polynomials the oracle leaves to the prover, in order; the values the
/// oracle computes must agree with the evaluations.
pub fn provided_evals(evals: &Vec<Scalar>, queries: &Vec<OracleEval>) -> (r: Vec<Scalar>)
    requires
        evals@.len() == queries@.len(),
        forall|k: int|
            0 <= k < queries@.len() ==> (#[trigger] queries@[k] matches OracleEval::Computed(e)
                ==> e@ == evals@[k]@),
    ensures
        views(r@) == provided_values(views(evals@), queries@),
        r@.len() == provided_count(queries@),
{
    let mut out: Vec<Scalar> = Vec::new();
    let mut k: usize = 0;
    while k < queries.len()
        invariant
            k <= queries@.len(),
            evals@.len() == queries@.len(),
            views(out@) == provided_values(views(evals@), queries@.take(k as int)),
            out@.len() == provided_count(queries@.take(k as int)),
        decreases queries@.len() - k,
    {
        proof {
            assert(queries@.take(k + 1).drop_last() =~= queries@.take(k as int));
            assert(queries@.take(k + 1).last() == queries@[k as int]);
        }
        let ghost prev = views(out@);
        match queries[k] {
            OracleEval::ProverProvided => {
                out.push(evals[k]);
                proof {
                    assert(views(out@) =~= prev.push(evals@[k as int]@));
                }
            },
            _ => {},
        }
        proof {
            assert(views(out@) =~= provided_values(views(evals@), queries@.take(k + 1)));
        }
        k = k + 1;
    }
    proof {
        assert(queries@.take(k as int) =~= queries@);
    }
    out
}

/// The values the verifier fills in for one partial oracle: a computed
/// value, the next of the prover's evaluations (from `start`) where the
/// oracle leaves it to the prover, nothing where it does not answer.
pub open spec fn fill(q: Seq<OracleEval>, pe: Seq<nat>, start: nat) -> Seq<Option<nat>> {
    Seq::new(
        q.len(),
        |k: int|
            match q[k] {
                OracleEval::Computed(e) => Some(e@),
                OracleEval::ProverProvided => Some(pe[(start + provided_count(q.take(k))) as int]),
                OracleEval::NotQueried => None,
            },
    )
}

/// Each polynomial is answered by the oracle of its side, and only by it,
/// and that oracle leaves it to the prover.
pub open spec fn answers_match(
    q1: Seq<OracleEval>,
    q2: Seq<OracleEval>,
    natures: Seq<Either<bool, bool>>,
) -> bool {
    forall|k: int|
        0 <= k < natures.len() ==> match #[trigger] natures[k] {
            Either::Left(p) => p && !(q1[k] is NotQueried) && q2[k] is NotQueried,
            Either::Right(p) => p && q1[k] is NotQueried && !(q2[k] is NotQueried),
        }
}

/// The value of each polynomial, from the oracle that answers it.
pub open spec fn composite_values(
    q1: Seq<OracleEval>,
    q2: Seq<OracleEval>,
    pe: Seq<nat>,
    o1: nat,
) -> Seq<nat> {
    Seq::new(
        q1.len(),
        |k: int|
            match fill(q1, pe, 0)[k] {
                Some(v) => v,
                None => match fill(q2, pe, o1)[k] {
                    Some(v) => v,
                    None => 0,
                },
            },
    )
}

/// A prefix of the queries counts no more than all of them.
proof fn lemma_provided_count_prefix(q: Seq<OracleEval>, k: int)
    requires
        0 <= k <= q.len(),
    ensures
        provided_count(q.take(k)) <= provided_count(q),
    decreases q.len() - k,
{
    if k < q.len() {
        lemma_provided_count_prefix(q, k + 1);
        assert(q.take(k + 1).drop_last() =~= q.take(k));
    } else {
        assert(q.take(k) =~= q);
    }
}

/// Fills in the values of one partial oracle.
fn fill_values(queries: &Vec<OracleEval>, pe: &Vec<Scalar>, start: usize) -> (r: Vec<Option<Scalar>>)
    requires
        start + provided_count(queries@) <= pe@.len(),
    ensures
        r@.len() == queries@.len(),
        forall|k: int|
            0 <= k < queries@.len() ==> match #[trigger] fill(queries@, views(pe@), start as nat)[k] {
                Some(v) => r@[k] matches Some(x) && x@ == v,
                None => r@[k] is None,
            },
{
    let mut out: Vec<Option<Scalar>> = Vec::new();
    let len = pe.len();
    let mut next: usize = start;
    let mut k: usize = 0;
    while k < queries.len()
        invariant
            len == pe@.len(),
            k <= queries@.len(),
            start + provided_count(queries@) <= pe@.len(),
            next == start + provided_count(queries@.take(k as int)),
            out@.len() == k,
            forall|j: int|
                0 <= j < k ==> match #[trigger] fill(queries@, views(pe@), start as nat)[j] {
                    Some(v) => out@[j] matches Some(x) && x@ == v,
                    None => out@[j] is None,
                },
        decreases queries@.len() - k,
    {
        proof {
            assert(queries@.take(k + 1).drop_last() =~= queries@.take(k as int));
            assert(queries@.take(k + 1).last() == queries@[k as int]);
            lemma_provided_count_prefix(queries@, k + 1);
        }
        let item = match queries[k] {
            OracleEval::Computed(e) => Some(e),
            OracleEval::ProverProvided => {
                proof {
                    assert(views(pe@)[next as int] == pe@[next as int]@);
                }
                let v = pe[next];
                next = next + 1;
                Some(v)
            },
            OracleEval::NotQueried => None,
        };
        out.push(item);
        k = k + 1;
    }
    out
}

/// Checks the query of the composite oracle: reads the prover's evaluations
/// through the transcript, fills in every polynomial's value from the
/// oracle that answers it, and accepts where the function gives the
/// expected value; the prover's evaluations are split between the two
/// partial oracles' queries.
pub fn composite_verify<I1, I2>(
    key: &CompositeReductionKey,
    natures: &Vec<Either<bool, bool>>,
    queries1: &Vec<OracleEval>,
    queries2: &Vec<OracleEval>,
    instance1: I1,
    instance2: I2,
    point: &MultiPoint,
    expected: &Scalar,
    proof: &GuardedProof<ProverEvals>,
    transcript: &mut VerifierTranscript,
) -> (r: Result<(PartialQueryInstance<I1>, PartialQueryInstance<I2>), ()>)
    requires
        old(transcript).wf(),
        key.oracle1_evals + key.oracle2_evals <= usize::MAX,
        queries1@.len() == natures@.len(),
        queries2@.len() == natures@.len(),
        expr_wf(key.function, natures@.len() as nat, key.challs@.len() as nat),
        proof.value().0@.len() == key.oracle1_evals + key.oracle2_evals ==> {
            &&& provided_count(queries1@) == key.oracle1_evals
            &&& provided_count(queries2@) == key.oracle2_evals
            &&& answers_match(queries1@, queries2@, natures@)
        },
    ensures
        proof.value().0@.len() == key.oracle1_evals + key.oracle2_evals ==> final(transcript).wf(),
        proof.value().0@.len() != key.oracle1_evals + key.oracle2_evals ==> {
            let v = old(transcript)@;
            &&& r is Err
            &&& final(transcript).valid()
            &&& v.next < v.rounds.len() ==> final(transcript)@ == (TranscriptView {
                sponge: v.sponge,
                rounds: v.rounds,
                next: v.next + 1,
            })
            &&& v.next >= v.rounds.len() ==> final(transcript)@ == v && final(transcript).wf()
        },
        ({
            let v = old(transcript)@;
            let pe = views(proof.value().0@);
            let accepted = v.next < v.rounds.len() && round_accepts(
                v.rounds[v.next as int],
                MessageKind::Evaluations,
                pe.len(),
                0,
            );
            let values = composite_values(queries1@, queries2@, pe, key.oracle1_evals as nat);
            &&& !(accepted && pe.len() == key.oracle1_evals + key.oracle2_evals) ==> r is Err
            &&& (accepted && pe.len() == key.oracle1_evals + key.oracle2_evals) ==> (r is Ok
                <==> expr_eval(key.function, values, views(key.challs@)) == expected@)
            &&& (accepted && pe.len() == key.oracle1_evals + key.oracle2_evals) ==> final(transcript)@
                == (TranscriptView { sponge: sponge_after(v.sponge, pe, 0), rounds: v.rounds, next: v.next + 1 })
            &&& r matches Ok(pair) ==> {
                &&& pair.0.evals_view() == pe.take(key.oracle1_evals as int)
                &&& pair.1.evals_view() == pe.skip(key.oracle1_evals as int)
                &&& pair.0.instance_value() == instance1
                &&& pair.1.instance_value() == instance2
                &&& pair.0.point_view() == point@
                &&& pair.1.point_view() == point@
            }
        }),
{
    let o1 = key.oracle1_evals;
    let o2 = key.oracle2_evals;
    if proof.inner().0.len() != o1 + o2 {
        // The evaluations cannot be read as the round's message: the round
        // is consumed, and nothing enters the sponge.
        transcript.skip_round();
        return Err(());
    }
    let query = |p: &ProverEvals| -> (tm: TranscriptMessage)
        ensures
            tm.kind == MessageKind::Evaluations,
            tm.elements@ == p.0@,
        { TranscriptMessage { kind: MessageKind::Evaluations, elements: copy_scalars(&p.0) } };
    let received = transcript.receive_message(query, proof, 0);
    let pe = match received {
        Err(_) => {
            return Err(());
        },
        Ok(pair) => {
            let (tm, _) = pair;
            tm.elements
        },
    };
    proof {
        assert(pe@ == proof.value().0@);
        assert(views(pe@).len() == pe@.len());
    }
    let ghost pev = views(pe@);
    let fill1 = fill_values(queries1, &pe, 0);
    let fill2 = fill_values(queries2, &pe, o1);
    let n = natures.len();
    let mut evals: Vec<Scalar> = Vec::new();
    let ghost goal = composite_values(queries1@, queries2@, pev, o1 as nat);
    let mut k: usize = 0;
    while k < n
        invariant
            n == natures@.len(),
            fill1@.len() == n,
            fill2@.len() == n,
            queries1@.len() == n,
            queries2@.len() == n,
            answers_match(queries1@, queries2@, natures@),
            pev == views(pe@),
            goal == composite_values(queries1@, queries2@, pev, o1 as nat),
            forall|j: int|
                0 <= j < n ==> match #[trigger] fill(queries1@, pev, 0)[j] {
                    Some(v) => fill1@[j] matches Some(x) && x@ == v,
                    None => fill1@[j] is None,
                },
            forall|j: int|
                0 <= j < n ==> match #[trigger] fill(queries2@, pev, o1 as nat)[j] {
                    Some(v) => fill2@[j] matches Some(x) && x@ == v,
                    None => fill2@[j] is None,
                },
            k <= n,
            views(evals@) == goal.take(k as int),
        decreases n - k,
    {
        proof {
            assert(fill(queries1@, pev, 0)[k as int] is Some || fill(queries2@, pev, o1 as nat)[k as int] is Some) by {
                match natures@[k as int] {
                    Either::Left(_) => {},
                    Either::Right(_) => {},
                }
            }
        }
        let v = match fill1[k] {
            Some(x) => x,
            None => match fill2[k] {
                Some(x) => x,
                None => {
                    proof {
                        assert(false);
                    }
                    Scalar::zero()
                },
            },
        };
        let ghost prev = views(evals@);
        evals.push(v);
        proof {
            assert(views(evals@) =~= prev.push(v@));
            assert(views(evals@) =~= goal.take(k + 1));
        }
        k = k + 1;
    }
    proof {
        assert(goal.take(k as int) =~= goal);
    }
    let env = EvalCheckEnv::new(evals, copy_scalars(&key.challs));
    let eval: Scalar = key.function.function(&env);
    proof {
        assert(env_values(key.function, env)[0] == eval@);
    }
    if eval.equals(expected) {
        let instance = PartialQueryInstance::new(pe, crate::sumcheck_reduction::CompositeOracleInstance {
            oracle1_instance: instance1,
            oracle2_instance: instance2,
        }, point);
        let (i1, i2) = instance.split(o1, o2);
        Ok((i1, i2))
    } else {
        Err(())
    }
}

/// The values at the point of the witness's polynomials.
pub open spec fn witness_evals(witness: Seq<Seq<nat>>, point: Seq<nat>, m: nat) -> Seq<nat> {
    Seq::new(m, |j: int| dot(eq_table(point), column(witness, j)))
}

/// Answers the query of the composite oracle: evaluates the witness at the
/// point (its function must give the claimed value there), and sends
/// through the transcript the evaluations that each partial oracle leaves
/// to the prover, those of the first and then those of the second.
pub fn composite_prove<I1, I2>(
    key: &CompositeReductionKey,
    witness: &Vec<Vec<Scalar>>,
    point: &MultiPoint,
    eval: &Scalar,
    instance1: I1,
    instance2: I2,
    queries1: &Vec<OracleEval>,
    queries2: &Vec<OracleEval>,
    transcript: &mut Transcript,
) -> (r: Result<((PartialQueryInstance<I1>, PartialQueryInstance<I2>), ProverEvals), Error>)
    requires
        old(transcript).wf(),
        witness@.len() > 0,
        has_vars(witness@.len() as nat, point@.len()),
        table_wf(rows(witness@), queries1@.len() as nat),
        queries2@.len() == queries1@.len(),
        expr_wf(key.function, queries1@.len() as nat, key.challs@.len() as nat),
        expr_eval(
            key.function,
            witness_evals(rows(witness@), point@, queries1@.len() as nat),
            views(key.challs@),
        ) == eval@,
        forall|k: int|
            0 <= k < queries1@.len() ==> (#[trigger] queries1@[k] matches OracleEval::Computed(e)
                ==> e@ == witness_evals(rows(witness@), point@, queries1@.len() as nat)[k]),
        forall|k: int|
            0 <= k < queries2@.len() ==> (#[trigger] queries2@[k] matches OracleEval::Computed(e)
                ==> e@ == witness_evals(rows(witness@), point@, queries1@.len() as nat)[k]),
        provided_count(queries1@) == key.oracle1_evals,
        provided_count(queries2@) == key.oracle2_evals,
        key.oracle1_evals + key.oracle2_evals <= usize::MAX,
    ensures
        final(transcript).wf(),
        final(transcript)@.rounds == old(transcript)@.rounds,
        ({
            let v = old(transcript)@;
            let ev = witness_evals(rows(witness@), point@, queries1@.len() as nat);
            let p1 = provided_values(ev, queries1@);
            let p2 = provided_values(ev, queries2@);
            &&& r is Ok <==> (v.next < v.rounds.len() && round_accepts(
                v.rounds[v.next as int],
                MessageKind::Evaluations,
                p1.len() + p2.len(),
                0,
            ))
            &&& r matches Ok(out) ==> {
                &&& views(out.1.0@) == p1 + p2
                &&& out.0.0.evals_view() == p1
                &&& out.0.1.evals_view() == p2
                &&& out.0.0.instance_value() == instance1
                &&& out.0.1.instance_value() == instance2
                &&& out.0.0.point_view() == point@
                &&& out.0.1.point_view() == point@
                &&& final(transcript)@.sponge == sponge_after(v.sponge, p1 + p2, 0)
                &&& final(transcript)@.next == v.next + 1
            }
        }),
{
    let ghost m = queries1@.len();
    let evals = eval_rows(witness, point);
    proof {
        assert(rows(witness@)[0].len() == m);
        assert(views(evals@) =~= witness_evals(rows(witness@), point@, m as nat));
    }
    let evals1 = provided_evals(&evals, queries1);
    let evals2 = provided_evals(&evals, queries2);
    let mut all = copy_scalars(&evals1);
    let mut k: usize = 0;
    let ghost start = views(all@);
    while k < evals2.len()
        invariant
            k <= evals2@.len(),
            views(all@) == start + views(evals2@).take(k as int),
        decreases evals2@.len() - k,
    {
        let ghost prev = views(all@);
        all.push(evals2[k]);
        proof {
            assert(views(all@) =~= prev.push(evals2@[k as int]@));
            assert(views(all@) =~= start + views(evals2@).take(k + 1));
        }
        k = k + 1;
    }
    proof {
        assert(views(evals2@).take(k as int) =~= views(evals2@));
        assert(views(all@).len() == all@.len());
    }
    let message = TranscriptMessage { kind: MessageKind::Evaluations, elements: copy_scalars(&all) };
    match transcript.send_message(&message, 0) {
        Err(e) => Err(e),
        Ok(_) => {
            let i1 = PartialQueryInstance::new(evals1, instance1, point);
            let i2 = PartialQueryInstance::new(evals2, instance2, point);
            Ok(((i1, i2), ProverEvals(all)))
        },
    }
}

/// The instance's values of the composite oracle: each polynomial's from
/// the partial oracle of its side.
pub fn composite_instance_evals(
    natures: &Vec<Either<bool, bool>>,
    evals1: &Vec<Scalar>,
    evals2: &Vec<Scalar>,
) -> (r: Vec<Scalar>)
    requires
        evals1@.len() == natures@.len(),
        evals2@.len() == natures@.len(),
    ensures
        r@.len() == natures@.len(),
        forall|k: int|
            0 <= k < natures@.len() ==> #[trigger] r@[k] == match natures@[k] {
                Either::Left(_) => evals1@[k],
                Either::Right(_) => evals2@[k],
            },
{
    let mut out: Vec<Scalar> = Vec::new();
    let mut k: usize = 0;
    while k < natures.len()
        invariant
            k <= natures@.len(),
            evals1@.len() == natures@.len(),
            evals2@.len() == natures@.len(),
            out@.len() == k,
            forall|j: int|
                0 <= j < k ==> #[trigger] out@[j] == match natures@[j] {
                    Either::Left(_) => evals1@[j],
                    Either::Right(_) => evals2@[j],
                },
        decreases natures@.len() - k,
    {
        let v = match natures[k] {
            Either::Left(_) => evals1[k],
            Either::Right(_) => evals2[k],
        };
        out.push(v);
        k = k + 1;
    }
    out
}

/// The instance's values of the composite as a partial oracle: the sum of
/// the two partial oracles' values.
pub fn partial_instance_evals(evals1: &Vec<Scalar>, evals2: &Vec<Scalar>) -> (r: Vec<Scalar>)
    requires
        evals1@.len() == evals2@.len(),
    ensures
        views(r@) == Seq::new(
            evals1@.len(),
            |k: int| crate::field::fadd(evals1@[k]@, evals2@[k]@),
        ),
{
    let mut out: Vec<Scalar> = Vec::new();
    let mut k: usize = 0;
    let ghost goal = Seq::new(evals1@.len(), |k: int| crate::field::fadd(evals1@[k]@, evals2@[k]@));
    while k < evals1.len()
        invariant
            k <= evals1@.len(),
            evals1@.len() == evals2@.len(),
            goal == Seq::new(evals1@.len(), |k: int| crate::field::fadd(evals1@[k]@, evals2@[k]@)),
            views(out@) == goal.take(k as int),
        decreases evals1@.len() - k,
    {
        let v = evals1[k].add(&evals2[k]);
        let ghost prev = views(out@);
        out.push(v);
        proof {
            assert(views(out@) =~= prev.push(v@));
            assert(views(out@) =~= goal.take(k + 1));
        }
        k = k + 1;
    }
    proof {
        assert(goal.take(k as int) =~= goal);
    }
    out
}

/// The answers of the composite as a partial oracle: each polynomial's
/// answer from the one partial oracle that answers it.
pub fn composite_queries(queries1: &Vec<OracleEval>, queries2: &Vec<OracleEval>) -> (r: Vec<
    OracleEval,
>)
    requires
        queries1@.len() == queries2@.len(),
        forall|k: int|
            0 <= k < queries1@.len() ==> (#[trigger] queries1@[k] is NotQueried)
                || queries2@[k] is NotQueried,
    ensures
        r@.len() == queries1@.len(),
        forall|k: int|
            0 <= k < queries1@.len() ==> #[trigger] r@[k] == if queries1@[k] is NotQueried {
                queries2@[k]
            } else {
                queries1@[k]
            },
{
    let mut out: Vec<OracleEval> = Vec::new();
    let mut k: usize = 0;
    while k < queries1.len()
        invariant
            k <= queries1@.len(),
            queries1@.len() == queries2@.len(),
            out@.len() == k,
            forall|j: int|
                0 <= j < k ==> #[trigger] out@[j] == if queries1@[j] is NotQueried {
                    queries2@[j]
                } else {
                    queries1@[j]
                },
        decreases queries1@.len() - k,
    {
        let v = match queries1[k] {
            OracleEval::NotQueried => queries2[k],
            other => other,
        };
        out.push(v);
        k = k + 1;
    }
    out
}

/// The values left to the prover are as many as the queries that leave them.
proof fn lemma_provided_values_len(ev: Seq<nat>, q: Seq<OracleEval>)
    ensures
        provided_values(ev, q).len() == provided_count(q),
    decreases q.len(),
{
    if q.len() > 0 {
        lemma_provided_values_len(ev, q.drop_last());
    }
}

/// A query left to the prover finds its value among the provided ones, at
/// the number of queries left to the prover before it.
proof fn lemma_provided_values_at(ev: Seq<nat>, q: Seq<OracleEval>, k: int)
    requires
        0 <= k < q.len(),
        q[k] is ProverProvided,
    ensures
        provided_count(q.take(k)) < provided_values(ev, q).len(),
        provided_values(ev, q)[provided_count(q.take(k)) as int] == ev[k],
    decreases q.len(),
{
    let n = q.len() - 1;
    let pre = q.drop_last();
    lemma_provided_values_len(ev, pre);
    lemma_provided_values_len(ev, q);
    if k == n {
        assert(q.take(k) =~= pre);
    } else {
        lemma_provided_values_at(ev, pre, k);
        assert(pre.take(k) =~= q.take(k));
    }
}

/// Prover and verifier of the composite oracle agree: the evaluations the
/// prover sends (those left to the first oracle, then those left to the
/// second) are filled back by the verifier into every polynomial's value,
/// and split back into each oracle's share, where each polynomial is
/// answered by its own side and the computed values are the polynomials'.
pub proof fn lemma_composite_agreement(
    q1: Seq<OracleEval>,
    q2: Seq<OracleEval>,
    natures: Seq<Either<bool, bool>>,
    ev: Seq<nat>,
)
    requires
        q1.len() == natures.len(),
        q2.len() == natures.len(),
        ev.len() == natures.len(),
        answers_match(q1, q2, natures),
        forall|k: int| 0 <= k < q1.len() ==> (#[trigger] q1[k] matches OracleEval::Computed(e) ==> e@ == ev[k]),
        forall|k: int| 0 <= k < q2.len() ==> (#[trigger] q2[k] matches OracleEval::Computed(e) ==> e@ == ev[k]),
    ensures
        ({
            let p1 = provided_values(ev, q1);
            let p2 = provided_values(ev, q2);
            &&& p1.len() == provided_count(q1)
            &&& p2.len() == provided_count(q2)
            &&& composite_values(q1, q2, p1 + p2, provided_count(q1)) == ev
            &&& (p1 + p2).take(provided_count(q1) as int) == p1
            &&& (p1 + p2).skip(provided_count(q1) as int) == p2
        }),
{
    let p1 = provided_values(ev, q1);
    let p2 = provided_values(ev, q2);
    let pe = p1 + p2;
    let o1 = provided_count(q1);
    lemma_provided_values_len(ev, q1);
    lemma_provided_values_len(ev, q2);
    assert forall|k: int| 0 <= k < ev.len() implies #[trigger] composite_values(q1, q2, pe, o1)[k] == ev[k] by {
        match natures[k] {
            Either::Left(_) => {
                assert(!(q1[k] is NotQueried));
                if q1[k] is ProverProvided {
                    lemma_provided_values_at(ev, q1, k);
                }
            },
            Either::Right(_) => {
                assert(q1[k] is NotQueried);
                if q2[k] is ProverProvided {
                    lemma_provided_values_at(ev, q2, k);
                }
            },
        }
    }
    assert(composite_values(q1, q2, pe, o1) =~= ev);
    assert(pe.take(o1 as int) =~= p1);
    assert(pe.skip(o1 as int) =~= p2);
}

} // verus!
