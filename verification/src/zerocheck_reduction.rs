//! The zero-sumcheck as a reduction to the query relation: a sumcheck of
//! the function times the powers' polynomial, whose final claim is divided
//! by the powers' value at the point.
use crate::algebra::views;
use crate::field::{finv, fmul, Scalar};
use crate::polynomials::MultiPoint;
use crate::prove::{prepared_table, ProverKey};
use crate::reduction::{ProverOutput, Reduction};
use crate::sumcheck::{
    copy_scalars, env_values, expr_degree, expr_eval, expr_wf, lemma_verifier_run_len,
    messages_view, mles_below, refused_at, rows, table_wf, verifier_run, EvalCheckEnv, EvalLocation, Expr,
    Proof, SumcheckError, SumcheckProver, SumcheckVerifier, Var, VerifierRun,
};
use crate::sumcheck_reduction::{OracleQueryInstance, QueryRelation};
use crate::sumcheck_relations::{ZeroSumcheckInstance, ZeroSumcheckRelation};
use crate::transcript::{
    Error, GuardedProof, MessageKind, Round, Transcript, TranscriptBuilder, TranscriptView,
    VerifierTranscript,
};
use crate::zerocheck::{factors_eval, pair_views, CompactPowers};
use vstd::arithmetic::power2::pow2;
use vstd::prelude::*;

verus! {

broadcast use crate::transcript::lemma_verifier_wf_valid;

/// The expression over rows with `by` more polynomials in front.
pub open spec fn shift_expr(e: Expr, by: nat) -> Expr
    decreases e,
{
    match e {
        Expr::Mle(i) => Expr::Mle((i + by) as usize),
        Expr::Challenge(i) => Expr::Challenge(i),
        Expr::Add(a, b) => Expr::Add(Box::new(shift_expr(*a, by)), Box::new(shift_expr(*b, by))),
        Expr::Sub(a, b) => Expr::Sub(Box::new(shift_expr(*a, by)), Box::new(shift_expr(*b, by))),
        Expr::Mul(a, b) => Expr::Mul(Box::new(shift_expr(*a, by)), Box::new(shift_expr(*b, by))),
        Expr::AddConst(a, c) => Expr::AddConst(Box::new(shift_expr(*a, by)), c),
        Expr::SubConst(a, c) => Expr::SubConst(Box::new(shift_expr(*a, by)), c),
        Expr::MulConst(a, c) => Expr::MulConst(Box::new(shift_expr(*a, by)), c),
    }
}

/// The function of the zero-sumcheck: the powers' polynomial, first in each
/// row, times the function on the rest of the row.
pub open spec fn zerocheck_function(f: Expr) -> Expr {
    Expr::Mul(Box::new(Expr::Mle(0)), Box::new(shift_expr(f, 1)))
}

impl Expr {
    /// The expression over rows with one more polynomial in front.
    pub fn shifted(&self) -> (r: Expr)
        requires
            mles_below(*self, usize::MAX as nat),
        ensures
            r == shift_expr(*self, 1),
        decreases self,
    {
        match self {
            Expr::Mle(i) => Expr::Mle(*i + 1),
            Expr::Challenge(i) => Expr::Challenge(*i),
            Expr::Add(a, b) => Expr::Add(Box::new(a.shifted()), Box::new(b.shifted())),
            Expr::Sub(a, b) => Expr::Sub(Box::new(a.shifted()), Box::new(b.shifted())),
            Expr::Mul(a, b) => Expr::Mul(Box::new(a.shifted()), Box::new(b.shifted())),
            Expr::AddConst(a, c) => Expr::AddConst(Box::new(a.shifted()), *c),
            Expr::SubConst(a, c) => Expr::SubConst(Box::new(a.shifted()), *c),
            Expr::MulConst(a, c) => Expr::MulConst(Box::new(a.shifted()), *c),
        }
    }

    /// The function of the zero-sumcheck of this function.
    pub fn zerocheck_function(&self) -> (r: Expr)
        requires
            mles_below(*self, usize::MAX as nat),
        ensures
            r == zerocheck_function(*self),
    {
        Expr::Mul(Box::new(Expr::Mle(0)), Box::new(self.shifted()))
    }
}

/// Shifting keeps the values, on rows with the extra polynomial in front.
pub proof fn lemma_shift_eval(e: Expr, z: nat, row: Seq<nat>, challs: Seq<nat>)
    requires
        mles_below(e, row.len()),
        row.len() <= usize::MAX,
    ensures
        expr_eval(shift_expr(e, 1), seq![z] + row, challs) == expr_eval(e, row, challs),
        mles_below(shift_expr(e, 1), row.len() + 1),
    decreases e,
{
    match e {
        Expr::Mle(i) => {
            assert((seq![z] + row)[i + 1] == row[i as int]);
        },
        Expr::Challenge(_) => {},
        Expr::Add(a, b) => {
            lemma_shift_eval(*a, z, row, challs);
            lemma_shift_eval(*b, z, row, challs);
        },
        Expr::Sub(a, b) => {
            lemma_shift_eval(*a, z, row, challs);
            lemma_shift_eval(*b, z, row, challs);
        },
        Expr::Mul(a, b) => {
            lemma_shift_eval(*a, z, row, challs);
            lemma_shift_eval(*b, z, row, challs);
        },
        Expr::AddConst(a, _) => {
            lemma_shift_eval(*a, z, row, challs);
        },
        Expr::SubConst(a, _) => {
            lemma_shift_eval(*a, z, row, challs);
        },
        Expr::MulConst(a, _) => {
            lemma_shift_eval(*a, z, row, challs);
        },
    }
}

/// Shifting keeps the challenges and the degree.
pub proof fn lemma_shift_shape(e: Expr, locations: Seq<EvalLocation>, first: EvalLocation, challs: nat)
    requires
        mles_below(e, locations.len()),
        locations.len() <= usize::MAX,
    ensures
        crate::sumcheck::challs_below(shift_expr(e, 1), challs) == crate::sumcheck::challs_below(
            e,
            challs,
        ),
        expr_degree(shift_expr(e, 1), seq![first] + locations) == expr_degree(e, locations),
    decreases e,
{
    match e {
        Expr::Mle(i) => {
            assert((seq![first] + locations)[i + 1] == locations[i as int]);
        },
        Expr::Challenge(_) => {},
        Expr::Add(a, b) => {
            lemma_shift_shape(*a, locations, first, challs);
            lemma_shift_shape(*b, locations, first, challs);
        },
        Expr::Sub(a, b) => {
            lemma_shift_shape(*a, locations, first, challs);
            lemma_shift_shape(*b, locations, first, challs);
        },
        Expr::Mul(a, b) => {
            lemma_shift_shape(*a, locations, first, challs);
            lemma_shift_shape(*b, locations, first, challs);
        },
        Expr::AddConst(a, _) => {
            lemma_shift_shape(*a, locations, first, challs);
        },
        Expr::SubConst(a, _) => {
            lemma_shift_shape(*a, locations, first, challs);
        },
        Expr::MulConst(a, _) => {
            lemma_shift_shape(*a, locations, first, challs);
        },
    }
}

/// The rows with one more value in front.
fn prepend_column(col: &Vec<Scalar>, t: &Vec<Vec<Scalar>>) -> (r: Vec<Vec<Scalar>>)
    requires
        col@.len() == t@.len(),
    ensures
        r@.len() == t@.len(),
        forall|b: int| 0 <= b < t@.len() ==> #[trigger] rows(r@)[b] == seq![col@[b]@] + rows(t@)[b],
{
    let mut out: Vec<Vec<Scalar>> = Vec::new();
    let mut b: usize = 0;
    while b < t.len()
        invariant
            b <= t@.len(),
            col@.len() == t@.len(),
            out@.len() == b,
            forall|k: int| 0 <= k < b ==> #[trigger] rows(out@)[k] == seq![col@[k]@] + rows(t@)[k],
        decreases t@.len() - b,
    {
        let mut row: Vec<Scalar> = Vec::new();
        row.push(col[b]);
        let src = &t[b];
        let mut j: usize = 0;
        while j < src.len()
            invariant
                j <= src@.len(),
                views(row@) == seq![col@[b as int]@] + views(src@).take(j as int),
            decreases src@.len() - j,
        {
            let ghost prev = views(row@);
            row.push(src[j]);
            proof {
                assert(views(row@) =~= prev.push(src@[j as int]@));
                assert(views(row@) =~= seq![col@[b as int]@] + views(src@).take(j + 1));
            }
            j = j + 1;
        }
        proof {
            assert(views(src@).take(j as int) =~= views(src@));
        }
        let ghost before = out@;
        out.push(row);
        proof {
            assert(rows(t@)[b as int] == views(src@));
            assert(rows(out@)[b as int] == views(row@));
            assert forall|k: int| 0 <= k < b + 1 implies #[trigger] rows(out@)[k] == seq![col@[k]@]
                + rows(t@)[k] by {
                if k < b {
                    assert(out@[k] == before[k]);
                    assert(rows(out@)[k] == views(before[k]@));
                    assert(rows(before)[k] == views(before[k]@));
                }
            }
        }
        b = b + 1;
    }
    out
}

/// A copy of the factors of compact powers.
fn copy_powers(p: &CompactPowers) -> (r: CompactPowers)
    ensures
        r@ == p@,
{
    let f = p.factors();
    let mut out: Vec<(Scalar, Scalar)> = Vec::new();
    let mut j: usize = 0;
    while j < f.len()
        invariant
            j <= f@.len(),
            out@ == f@.take(j as int),
        decreases f@.len() - j,
    {
        out.push(f[j]);
        proof {
            assert(out@ =~= f@.take(j + 1));
        }
        j = j + 1;
    }
    proof {
        assert(f@.take(j as int) =~= f@);
    }
    CompactPowers::from_factors(out)
}

/// The table the zero-sumcheck runs on: the powers' table in front of the
/// witness completed with the structure and the instance.
pub open spec fn zerocheck_table(
    key: ProverKey,
    powers: Seq<(nat, nat)>,
    instance_evals: Seq<nat>,
    witness: Seq<Seq<nat>>,
) -> Seq<Seq<nat>> {
    Seq::new(
        witness.len(),
        |b: int|
            seq![crate::zerocheck::hyper_prod(powers, 1)[b]] + prepared_table(
                key.structure(),
                instance_evals,
                witness,
                key.locations(),
            )[b],
    )
}

/// The zero-sumcheck reduction: a sumcheck of the function times the powers'
/// polynomial, from the zero-sumcheck relation to the query relation.
pub struct ZerocheckSumcheckReduction;

/// The prover's key of the zero-sumcheck: the oracle's key, and the prover
/// of the zero-sumcheck's function.
pub struct ZerocheckProverKey {
    pub oracle_key: ProverKey,
    pub prover: SumcheckProver,
}

impl Reduction<ZeroSumcheckRelation, QueryRelation> for ZerocheckSumcheckReduction {
    type ProverKey = ZerocheckProverKey;

    type VerifierKey = SumcheckVerifier;

    type Proof = Proof;

    type Error = SumcheckError;

    open spec fn key_wf(key: SumcheckVerifier) -> bool {
        key.wf()
    }

    open spec fn pattern(key: SumcheckVerifier, rounds: Seq<Round>) -> Seq<Round> {
        rounds + Seq::new(
            key.vars(),
            |k: int|
                Round {
                    kind: MessageKind::Sumcheck,
                    message_len: (key.degree() + 1) as usize,
                    challenges: 1,
                },
        )
    }

    open spec fn prover_ready(
        key: ZerocheckProverKey,
        instance: ZeroSumcheckInstance,
        witness: Vec<Vec<Scalar>>,
    ) -> bool {
        let ok = key.oracle_key;
        let n = instance.zerocheck_powers@.len();
        &&& ok.wf()
        &&& key.prover.wf()
        &&& key.prover.function() == zerocheck_function(ok.function())
        &&& n >= 1
        &&& witness@.len() == pow2(n)
        &&& ok.structure().len() == witness@.len()
        &&& forall|b: int|
            0 <= b < witness@.len() ==> (#[trigger] witness@[b])@.len() == ok.locations().len()
        &&& forall|b: int|
            0 <= b < ok.structure().len() ==> (#[trigger] ok.structure()[b]).len()
                == ok.locations().len()
        &&& instance.instance_evals@.len() == ok.locations().len()
        &&& ok.locations().len() < usize::MAX
        &&& expr_wf(ok.function(), ok.locations().len(), 0)
        &&& forall|j: int| 0 <= j < n ==> #[trigger] instance.zerocheck_powers@[j].1 != 0
    }

    open spec fn output_ok(key: ZerocheckProverKey, instance: OracleQueryInstance, witness: Vec<Vec<Scalar>>) -> bool {
        true
    }

    open spec fn verifier_ready(key: SumcheckVerifier, instance: ZeroSumcheckInstance, proof: Proof) -> bool {
        &&& proof.messages@.len() >= key.vars()
        &&& instance.zerocheck_powers@.len() == key.vars()
    }

    open spec fn verified_ok(key: SumcheckVerifier, instance: OracleQueryInstance) -> bool {
        true
    }

    /// The honest prover's rounds on the table of the powers in front of the
    /// completed witness: the proof holds its messages, the point is its
    /// challenges in reverse, the evaluation the oracle's function at the
    /// last row without the powers, and the transcript is left after its
    /// last round. The first round the transcript refuses gives the error.
    open spec fn prove_rel(
        key: ZerocheckProverKey,
        instance: ZeroSumcheckInstance,
        witness: Vec<Vec<Scalar>>,
        before: TranscriptView,
        r: Result<ProverOutput<QueryRelation, Proof>, Error>,
        after: TranscriptView,
    ) -> bool {
        let n = instance.zerocheck_powers@.len();
        match r {
            Ok(out) => {
                let t = zerocheck_table(
                    key.oracle_key,
                    instance.zerocheck_powers@,
                    views(instance.instance_evals@),
                    rows(witness@),
                );
                let p = crate::sumcheck::prover_run(key.prover.function(), seq![], key.prover.degree(), t, before.sponge, n);
                &&& crate::sumcheck::sumcheck_rounds_ok(before, n, key.prover.degree())
                &&& messages_view(out.proof.messages@) == p.messages
                &&& out.instance.point@ == p.challenges.reverse()
                &&& out.instance.eval@ == expr_eval(key.oracle_key.function(), p.table[0].skip(1), seq![])
                &&& out.instance.instance_evals@ == instance.instance_evals@
                &&& out.witness@ == witness@
                &&& after.sponge == p.sponge
                &&& after.next == before.next + n
            },
            Err(e) => refused_at(before, n, key.prover.degree(), SumcheckError::TranscriptError(e)),
        }
    }

    /// The verifier's rounds on the proof's messages from the claimed sum:
    /// on success the point is the challenges in reverse, the evaluation the
    /// final claim divided by the powers' polynomial at the point, and the
    /// transcript is left after the last round; otherwise the error of the
    /// first round that fails.
    open spec fn verify_rel(
        key: SumcheckVerifier,
        instance: ZeroSumcheckInstance,
        proof: Proof,
        before: TranscriptView,
        r: Result<OracleQueryInstance, SumcheckError>,
        after: TranscriptView,
    ) -> bool {
        match verifier_run(
            messages_view(proof.messages@),
            key.degree(),
            before.rounds,
            VerifierRun { sum: instance.sum@, challenges: seq![], sponge: before.sponge, next: before.next },
            key.vars(),
        ) {
            Ok(st) => r matches Ok(q) && q.point@ == st.challenges.reverse() && q.eval@ == fmul(
                st.sum,
                finv(factors_eval(instance.zerocheck_powers@, st.challenges.reverse())),
            ) && q.instance_evals@ == instance.instance_evals@ && after.sponge == st.sponge
                && after.next == st.next,
            Err(e) => r == Err::<OracleQueryInstance, SumcheckError>(e),
        }
    }

    fn transcript_pattern(key: &SumcheckVerifier, builder: TranscriptBuilder) -> (r: TranscriptBuilder) {
        key.transcript_pattern(builder)
    }

    fn prove(
        key: &ZerocheckProverKey,
        instance: ZeroSumcheckInstance,
        witness: Vec<Vec<Scalar>>,
        transcript: &mut Transcript,
    ) -> (r: Result<ProverOutput<QueryRelation, Proof>, Error>)
        ensures
            r is Ok <==> crate::sumcheck::sumcheck_rounds_ok(
                old(transcript)@,
                instance.zerocheck_powers@.len(),
                key.prover.degree(),
            ),
    {
        let ghost zt = zerocheck_table(
            key.oracle_key,
            instance.zerocheck_powers@,
            views(instance.instance_evals@),
            rows(witness@),
        );
        let ZeroSumcheckInstance { sum, zerocheck_powers, instance_evals } = instance;
        let ghost ok = key.oracle_key;
        let ghost m = ok.locations().len();
        let n_rows = witness.len();
        let merged = key.oracle_key.prepare_witness(copy_table(&witness), &instance_evals);
        let z = zerocheck_powers.eval_over_domain();
        proof {
            crate::zerocheck::lemma_hyper_prod_len(zerocheck_powers@, 1);
            assert(z@.len() == views(z@).len());
        }
        let table = prepend_column(&z, &merged);
        proof {
            assert(n_rows > 0) by {
                vstd::arithmetic::power2::lemma_pow2_pos(zerocheck_powers@.len());
            }
            assert(rows(merged@)[0].len() == m);
            assert(rows(table@)[0] == seq![z@[0]@] + rows(merged@)[0]);
            assert forall|b: int| 0 <= b < zt.len() implies #[trigger] rows(table@)[b] == zt[b] by {
                assert(rows(table@)[b] == seq![z@[b]@] + rows(merged@)[b]);
            }
            assert(rows(table@) =~= zt);
            assert forall|b: int| 0 <= b < rows(table@).len() implies #[trigger] rows(table@)[b].len()
                == m + 1 by {
                assert(rows(merged@)[b].len() == m);
            }
            assert(rows(table@)[0].len() == m + 1);
            lemma_zerocheck_function_wf(ok.function(), ok.locations());
        }
        let powers = copy_powers(&zerocheck_powers);
        let no_challs: Vec<Scalar> = Vec::new();
        proof {
            assert(views(no_challs@) =~= Seq::<nat>::empty());
        }
        match key.prover.prove_zerocheck(powers, transcript, table, &no_challs) {
            Ok(out) => {
                proof {
                    crate::sumcheck::lemma_rows_reduced(table@);
                    assert(crate::sumcheck::col0(rows(table@)) =~= crate::zerocheck::hyper_prod(
                        zerocheck_powers@,
                        1,
                    )) by {
                        assert forall|b: int| 0 <= b < rows(table@).len() implies rows(table@)[b][0]
                            == views(z@)[b] by {
                            assert(rows(table@)[b] == seq![z@[b]@] + rows(merged@)[b]);
                        }
                    }
                    crate::sumcheck::lemma_zerocheck_is_sumcheck(
                        key.prover.function(),
                        Seq::<nat>::empty(),
                        key.prover.degree(),
                        rows(table@),
                        old(transcript)@.sponge,
                        zerocheck_powers@,
                        m + 1,
                        zerocheck_powers@.len(),
                    );
                    assert(pow2(0) == 1) by {
                        vstd::arithmetic::power2::lemma2_to64();
                    }
                    let zr = crate::sumcheck::zerocheck_run(
                        key.prover.function(),
                        Seq::<nat>::empty(),
                        key.prover.degree(),
                        rows(table@),
                        old(transcript)@.sponge,
                        zerocheck_powers@,
                        zerocheck_powers@.len(),
                    );
                    assert(zr.remaining.len() == 0);
                    assert(zr.run.table.len() == 1);
                    assert(zr.run.table[0].len() == m + 1);
                    assert(views(out.evals@) == zr.run.table[0]);
                    assert(views(out.evals@).len() == out.evals@.len());
                }
                let inner = copy_tail(&out.evals);
                proof {
                    assert(views(inner@).len() == inner@.len());
                }
                let none: Vec<Scalar> = Vec::new();
                proof {
                    assert(views(none@) =~= Seq::<nat>::empty());
                }
                let env = EvalCheckEnv::new(inner, none);
                let eval: Scalar = key.oracle_key.f().function(&env);
                proof {
                    assert(env_values(key.oracle_key.function(), env)[0] == eval@);
                }
                let instance = OracleQueryInstance { instance_evals, point: out.point, eval };
                Ok(ProverOutput { instance, witness, proof: out.proof })
            },
            Err(e) => match e {
                SumcheckError::TranscriptError(t) => Err(t),
                _ => {
                    proof {
                        assert(false);
                    }
                    Err(Error::UnexpectedMessage)
                },
            },
        }
    }

    fn verify(
        key: &SumcheckVerifier,
        instance: ZeroSumcheckInstance,
        proof: GuardedProof<Proof>,
        transcript: &mut VerifierTranscript,
    ) -> (r: Result<OracleQueryInstance, SumcheckError>)
    {
        let ghost start = VerifierRun {
            sum: instance.sum@,
            challenges: seq![],
            sponge: transcript@.sponge,
            next: transcript@.next,
        };
        let ghost msgs = messages_view(proof.value().messages@);
        let ghost rounds = transcript@.rounds;
        let ZeroSumcheckInstance { sum, zerocheck_powers, instance_evals } = instance;
        match key.verify_reduction(sum, &proof, transcript) {
            Ok(check) => {
                proof {
                    lemma_verifier_run_len(msgs, key.degree(), rounds, start, key.vars());
                    assert(views(check.vars@).len() == check.vars@.len());
                }
                let point = MultiPoint::new(check.vars);
                let powers_eval = zerocheck_powers.point_eval(&point);
                let eval = check.eval.div(&powers_eval);
                Ok(OracleQueryInstance { instance_evals, point, eval })
            },
            Err(e) => Err(e),
        }
    }
}

/// The elements after the first.
fn copy_tail(v: &Vec<Scalar>) -> (r: Vec<Scalar>)
    requires
        v@.len() >= 1,
    ensures
        views(r@) == views(v@).skip(1),
{
    let mut out: Vec<Scalar> = Vec::new();
    let mut j: usize = 1;
    while j < v.len()
        invariant
            1 <= j <= v@.len(),
            views(out@) == views(v@).subrange(1, j as int),
        decreases v@.len() - j,
    {
        let ghost prev = views(out@);
        out.push(v[j]);
        proof {
            assert(views(out@) =~= prev.push(v@[j as int]@));
            assert(views(out@) =~= views(v@).subrange(1, j + 1));
        }
        j = j + 1;
    }
    proof {
        assert(views(v@).subrange(1, j as int) =~= views(v@).skip(1));
    }
    out
}

/// A copy of a table.
fn copy_table(t: &Vec<Vec<Scalar>>) -> (r: Vec<Vec<Scalar>>)
    ensures
        r@.len() == t@.len(),
        forall|b: int| 0 <= b < t@.len() ==> (#[trigger] r@[b])@ == t@[b]@,
{
    let mut out: Vec<Vec<Scalar>> = Vec::new();
    let mut b: usize = 0;
    while b < t.len()
        invariant
            b <= t@.len(),
            out@.len() == b,
            forall|k: int| 0 <= k < b ==> (#[trigger] out@[k])@ == t@[k]@,
        decreases t@.len() - b,
    {
        out.push(copy_scalars(&t[b]));
        b = b + 1;
    }
    out
}

/// The zero-sumcheck's function is well formed on rows with the powers in front.
pub proof fn lemma_zerocheck_function_wf(f: Expr, locations: Seq<EvalLocation>)
    requires
        expr_wf(f, locations.len(), 0),
        locations.len() < usize::MAX,
    ensures
        expr_wf(zerocheck_function(f), locations.len() + 1, 0),
{
    lemma_shift_shape(f, locations, EvalLocation::Witness, 0);
    lemma_shift_mles(f, locations.len());
    let g = zerocheck_function(f);
    assert(g == Expr::Mul(Box::new(Expr::Mle(0)), Box::new(shift_expr(f, 1))));
    assert(crate::sumcheck::mles_below(Expr::Mle(0), locations.len() + 1));
    assert(crate::sumcheck::challs_below(Expr::Mle(0), 0));
}

proof fn lemma_shift_mles(e: Expr, n: nat)
    requires
        mles_below(e, n),
        n <= usize::MAX,
    ensures
        mles_below(shift_expr(e, 1), n + 1),
    decreases e,
{
    match e {
        Expr::Mle(_) => {},
        Expr::Challenge(_) => {},
        Expr::Add(a, b) => {
            lemma_shift_mles(*a, n);
            lemma_shift_mles(*b, n);
        },
        Expr::Sub(a, b) => {
            lemma_shift_mles(*a, n);
            lemma_shift_mles(*b, n);
        },
        Expr::Mul(a, b) => {
            lemma_shift_mles(*a, n);
            lemma_shift_mles(*b, n);
        },
        Expr::AddConst(a, _) => {
            lemma_shift_mles(*a, n);
        },
        Expr::SubConst(a, _) => {
            lemma_shift_mles(*a, n);
        },
        Expr::MulConst(a, _) => {
            lemma_shift_mles(*a, n);
        },
    }
}

} // verus!
