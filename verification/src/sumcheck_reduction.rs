//! The sumcheck as a reduction: from the sumcheck relation to the query
//! relation, which claims the value of the function at one point.
use crate::algebra::{dot, views};
use crate::field::Scalar;
use crate::message::Message;
use crate::polynomials::{
    eq_table, eval, fix_top, has_vars, lemma_eval_matches_eval_slow, mle_eval, MultiPoint,
};
use crate::algebra::reduced;
use crate::field::{lemma_line_forms, modulus};
use vstd::arithmetic::power2::{lemma_pow2_pos, lemma_pow2_unfold, pow2};
use crate::prove::{ProveOutput, ProverKey};
use crate::reduction::{ProverOutput, Reduction};
use crate::relations::Relation;
use crate::prove::{prepared_table, sumcheck_messages_view};
use crate::sumcheck::{
    bind_variable, copy_scalars, env_values, expr_eval, fix_rows, lemma_prover_run_len,
    messages_view, prover_run, rows, table_reduced, table_wf,
    refused_at, sumcheck_rounds_ok, verifier_run, EvalCheckEnv, EvalLocation, Proof, SumcheckError,
    Expr, SumcheckMessage, SumcheckVerifier, Var, VerifierRun,
};

use crate::sumcheck_relations::{
    shapes_agree, SumcheckInstance, SumcheckRelation, SumcheckStructure,
};
use crate::transcript::{
    Error, GuardedProof, MessageKind, Round, Transcript, TranscriptBuilder, TranscriptView,
    VerifierTranscript,
};
use vstd::prelude::*;

verus! {

broadcast use crate::transcript::lemma_verifier_wf_valid;

/// An instance of the query relation: the instance's values, a point, and
/// the claimed value of the function there.
pub struct OracleQueryInstance {
    pub instance_evals: Vec<Scalar>,
    pub point: MultiPoint,
    pub eval: Scalar,
}

/// The values of the column `j` of a table.
pub open spec fn column(t: Seq<Seq<nat>>, j: int) -> Seq<nat> {
    Seq::new(t.len(), |b: int| t[b][j])
}

/// The value of each polynomial at the point: an instance polynomial's value
/// is given, the others' are their tables evaluated at the point.
pub open spec fn query_evals(
    st: SumcheckStructure,
    instance_evals: Seq<nat>,
    witness: Seq<Seq<nat>>,
    point: Seq<nat>,
) -> Seq<nat> {
    Seq::new(
        st.locations@.len(),
        |j: int|
            match st.locations@[j] {
                EvalLocation::Instance => instance_evals[j],
                EvalLocation::Structure => dot(eq_table(point), column(rows(st.structure@), j)),
                EvalLocation::Witness => dot(eq_table(point), column(witness, j)),
            },
    )
}

/// The column `j` of a table.
fn column_of(t: &Vec<Vec<Scalar>>, j: usize) -> (r: Vec<Scalar>)
    requires
        forall|b: int| 0 <= b < t@.len() ==> j < (#[trigger] t@[b])@.len(),
    ensures
        views(r@) == column(rows(t@), j as int),
{
    let ghost goal = column(rows(t@), j as int);
    let mut out: Vec<Scalar> = Vec::new();
    let mut b: usize = 0;
    while b < t.len()
        invariant
            b <= t@.len(),
            forall|k: int| 0 <= k < t@.len() ==> j < (#[trigger] t@[k])@.len(),
            goal == column(rows(t@), j as int),
            views(out@) == goal.take(b as int),
        decreases t@.len() - b,
    {
        let v = t[b][j];
        let ghost prev = views(out@);
        out.push(v);
        proof {
            assert(views(out@) =~= prev.push(v@));
            assert(views(out@) =~= goal.take(b + 1));
        }
        b = b + 1;
    }
    proof {
        assert(goal.take(b as int) =~= goal);
    }
    out
}

/// Evaluates every column of the table at the point: `sum_b eq(b, point) * row_b`.
pub fn eval_rows(mles: &Vec<Vec<Scalar>>, point: &MultiPoint) -> (r: Vec<Scalar>)
    requires
        mles@.len() > 0,
        has_vars(mles@.len() as nat, point@.len()),
        table_wf(rows(mles@), rows(mles@)[0].len()),
    ensures
        r@.len() == rows(mles@)[0].len(),
        forall|j: int|
            0 <= j < r@.len() ==> (#[trigger] r@[j])@ == dot(eq_table(point@), column(rows(mles@), j)),
{
    let ghost m = rows(mles@)[0].len();
    let width = mles[0].len();
    proof {
        assert(rows(mles@)[0] == views(mles@[0]@));
    }
    let mut out: Vec<Scalar> = Vec::new();
    let mut j: usize = 0;
    while j < width
        invariant
            width == m,
            mles@.len() > 0,
            has_vars(mles@.len() as nat, point@.len()),
            crate::sumcheck::table_wf(rows(mles@), m),
            j <= width,
            out@.len() == j,
            forall|k: int|
                0 <= k < j ==> (#[trigger] out@[k])@ == dot(eq_table(point@), column(rows(mles@), k)),
        decreases width - j,
    {
        proof {
            assert forall|b: int| 0 <= b < mles@.len() implies j < (#[trigger] mles@[b])@.len() by {
                assert(rows(mles@)[b].len() == mles@[b]@.len());
            }
        }
        let col = column_of(mles, j);
        proof {
            assert(views(col@).len() == col@.len());
        }
        out.push(eval(&col, point));
        j = j + 1;
    }
    out
}

/// The evaluations the prover provides to the two partial oracles.
pub struct ProverEvals(pub Vec<Scalar>);

impl ProverEvals {
    /// The field elements, where there are as many as expected.
    pub fn to_field_elements(&self, expected_len: usize) -> (r: Result<Vec<Scalar>, ()>)
        ensures
            self.0@.len() == expected_len ==> (r matches Ok(v) && v@ == self.0@),
            self.0@.len() != expected_len ==> r is Err,
    {
        if self.0.len() == expected_len {
            Ok(copy_scalars(&self.0))
        } else {
            Err(())
        }
    }
}

/// A query answered in part: the evaluations the prover gave, the oracle's
/// instance and the point.
pub struct PartialQueryInstance<O> {
    evals: Vec<Scalar>,
    oracle_instance: O,
    point: MultiPoint,
}

/// The instance of a composite oracle: one instance for each partial oracle.
pub struct CompositeOracleInstance<I1, I2> {
    pub oracle1_instance: I1,
    pub oracle2_instance: I2,
}

impl<O> PartialQueryInstance<O> {
    pub closed spec fn evals_view(&self) -> Seq<nat> {
        views(self.evals@)
    }

    pub closed spec fn instance_value(&self) -> O {
        self.oracle_instance
    }

    pub closed spec fn point_view(&self) -> Seq<nat> {
        self.point@
    }

    pub fn new(evals: Vec<Scalar>, oracle_instance: O, point: &MultiPoint) -> (r: PartialQueryInstance<O>)
        ensures
            r.evals_view() == views(evals@),
            r.instance_value() == oracle_instance,
            r.point_view() == point@,
    {
        let point = MultiPoint::new(copy_scalars(point.inner_ref()));
        PartialQueryInstance { evals, oracle_instance, point }
    }

    pub fn evals(&self) -> (r: &Vec<Scalar>)
        ensures
            views(r@) == self.evals_view(),
    {
        &self.evals
    }

    pub fn oracle_instance(&self) -> (r: &O)
        ensures
            *r == self.instance_value(),
    {
        &self.oracle_instance
    }

    pub fn point(&self) -> (r: &MultiPoint)
        ensures
            r@ == self.point_view(),
    {
        &self.point
    }
}

impl<I1, I2> PartialQueryInstance<CompositeOracleInstance<I1, I2>> {
    /// Splits the query between the two partial oracles: the first `evals1`
    /// evaluations go to the first, the rest to the second.
    pub fn split(self, evals1: usize, evals2: usize) -> (r: (PartialQueryInstance<I1>, PartialQueryInstance<I2>))
        requires
            self.evals_view().len() == evals1 + evals2,
        ensures
            r.0.evals_view() == self.evals_view().take(evals1 as int),
            r.1.evals_view() == self.evals_view().skip(evals1 as int),
            r.0.instance_value() == self.instance_value().oracle1_instance,
            r.1.instance_value() == self.instance_value().oracle2_instance,
            r.0.point_view() == self.point_view(),
            r.1.point_view() == self.point_view(),
    {
        let PartialQueryInstance { evals, oracle_instance, point } = self;
        let CompositeOracleInstance { oracle1_instance, oracle2_instance } = oracle_instance;
        let n = evals.len();
        let mut first: Vec<Scalar> = Vec::new();
        let mut second: Vec<Scalar> = Vec::new();
        let mut k: usize = 0;
        while k < n
            invariant
                n == evals@.len(),
                evals1 <= n,
                k <= n,
                views(first@) == views(evals@).take(if k < evals1 { k as int } else { evals1 as int }),
                views(second@) == if k < evals1 {
                    Seq::<nat>::empty()
                } else {
                    views(evals@).subrange(evals1 as int, k as int)
                },
            decreases n - k,
        {
            let ghost f0 = views(first@);
            let ghost s0 = views(second@);
            if k < evals1 {
                first.push(evals[k]);
                proof {
                    assert(views(first@) =~= f0.push(evals@[k as int]@));
                    assert(views(first@) =~= views(evals@).take(k + 1));
                }
            } else {
                second.push(evals[k]);
                proof {
                    assert(views(second@) =~= s0.push(evals@[k as int]@));
                    assert(views(second@) =~= views(evals@).subrange(evals1 as int, k + 1));
                }
            }
            k = k + 1;
        }
        proof {
            assert(views(evals@).subrange(evals1 as int, n as int) =~= views(evals@).skip(evals1 as int));
        }
        let point2 = MultiPoint::new(copy_scalars(point.inner_ref()));
        (
            PartialQueryInstance { evals: first, oracle_instance: oracle1_instance, point },
            PartialQueryInstance { evals: second, oracle_instance: oracle2_instance, point: point2 },
        )
    }
}

/// Binding a variable of the table binds it in every column.
pub proof fn lemma_column_of_fix_rows(t: Seq<Seq<nat>>, r: nat, j: int, m: nat)
    requires
        table_wf(t, m),
        0 <= j < m,
    ensures
        column(fix_rows(t, r), j) == fix_top(column(t, j), r),
{
    let h = t.len() / 2;
    assert forall|b: int| 0 <= b < h implies column(fix_rows(t, r), j)[b] == fix_top(column(t, j), r)[b] by {
        assert(t[b].len() == m);
        assert(t[b + h].len() == m);
        lemma_line_forms(t[b][j], t[b + h][j], r);
    }
    assert(column(fix_rows(t, r), j) =~= fix_top(column(t, j), r));
}

/// Evaluates every column of the table at the point by binding the
/// variables one after the other, from the last.
pub fn eval_rows_slow(mles: Vec<Vec<Scalar>>, point: MultiPoint) -> (r: Vec<Scalar>)
    requires
        point@.len() >= 1,
        has_vars(mles@.len() as nat, point@.len()),
        table_wf(rows(mles@), rows(mles@)[0].len()),
    ensures
        r@.len() == rows(mles@)[0].len(),
        forall|j: int|
            0 <= j < r@.len() ==> (#[trigger] r@[j])@ == mle_eval(column(rows(mles@), j), point@),
{
    let ghost t0 = rows(mles@);
    let ghost p0 = point@;
    let ghost m = t0[0].len();
    let mut mles = mles;
    let mut point = point;
    proof {
        lemma_pow2_pos(p0.len());
    }
    while point.vars() > 0
        invariant
            mles@.len() > 0,
            has_vars(mles@.len() as nat, point@.len()),
            table_wf(rows(mles@), m),
            m == t0[0].len(),
            forall|j: int|
                0 <= j < m ==> #[trigger] mle_eval(column(rows(mles@), j), point@) == mle_eval(
                    column(t0, j),
                    p0,
                ),
        decreases point@.len(),
    {
        let ghost t = rows(mles@);
        let ghost p = point@;
        proof {
            assert forall|j: int| 0 <= j < m implies #[trigger] mle_eval(column(t, j), p) == mle_eval(
                column(t0, j),
                p0,
            ) by {
                assert(mle_eval(column(rows(mles@), j), point@) == mle_eval(column(t0, j), p0));
            }
        }
        let var = point.pop_mut();
        proof {
            assert(t[0].len() == m);
        }
        bind_variable(&mut mles, &var);
        proof {
            assert(mles@.len() == rows(mles@).len());
            lemma_pow2_unfold(p.len());
            lemma_pow2_unfold((p.len() + 1) as nat);
            lemma_pow2_pos((p.len() - 1) as nat);
            assert forall|j: int| 0 <= j < m implies #[trigger] mle_eval(column(rows(mles@), j), point@)
                == mle_eval(column(t0, j), p0) by {
                lemma_column_of_fix_rows(t, var@, j, m);
                assert(mle_eval(column(t, j), p) == mle_eval(column(t0, j), p0));
                assert(p.last() == var@);
                assert(p.drop_last() == point@);
                assert(mle_eval(column(t, j), p) == mle_eval(fix_top(column(t, j), var@), point@));
            }
            assert forall|b: int| 0 <= b < rows(mles@).len() implies #[trigger] rows(mles@)[b].len() == m by {
                assert(rows(mles@)[b] == fix_rows(t, var@)[b]);
            }
        }
    }
    proof {
        assert(rows(mles@)[0] == views(mles@[0]@));
        assert forall|j: int| 0 <= j < m implies views(mles@[0]@)[j] == mle_eval(column(t0, j), p0) by {
            assert(mle_eval(column(rows(mles@), j), point@) == column(rows(mles@), j)[0]);
        }
    }
    let first = copy_scalars(&mles[0]);
    proof {
        assert(first@ == mles@[0]@);
        assert(rows(mles@)[0].len() == m);
        assert(views(first@).len() == first@.len());
        assert(first@.len() == m);
        assert forall|j: int| 0 <= j < m implies (#[trigger] first@[j])@ == mle_eval(column(t0, j), p0) by {
            assert(views(first@)[j] == first@[j]@);
            assert(views(mles@[0]@)[j] == mle_eval(column(t0, j), p0));
        }
    }
    first
}

/// The two evaluations of a table agree, column by column, where it holds
/// `2^n` rows.
pub proof fn lemma_rows_eval_agree(t: Seq<Seq<nat>>, p: Seq<nat>, m: nat)
    requires
        t.len() == pow2(p.len()),
        table_wf(t, m),
        table_reduced(t),
    ensures
        forall|j: int|
            0 <= j < m ==> #[trigger] dot(eq_table(p), column(t, j)) == mle_eval(column(t, j), p),
{
    assert forall|j: int| 0 <= j < m implies #[trigger] dot(eq_table(p), column(t, j)) == mle_eval(
        column(t, j),
        p,
    ) by {
        assert forall|b: int| 0 <= b < column(t, j).len() implies #[trigger] column(t, j)[b] < modulus() by {
            assert(t[b].len() == m);
            assert(reduced(t[b]));
        }
        lemma_eval_matches_eval_slow(column(t, j), p);
    }
}

/// The prover's evaluations are the multilinear evaluations at the point:
/// after the `n` rounds on a table of `2^n` rows, the one row left holds, for
/// each polynomial, the evaluation of its table at the challenges in reverse
/// order.
pub proof fn lemma_prover_evals(
    f: Expr,
    challs: Seq<nat>,
    d: nat,
    t: Seq<Seq<nat>>,
    s: crate::sponge::SpongeView,
    n: nat,
    m: nat,
)
    requires
        t.len() == pow2(n),
        table_wf(t, m),
    ensures
        ({
            let p = prover_run(f, challs, d, t, s, n);
            forall|j: int|
                0 <= j < m ==> #[trigger] p.table[0][j] == mle_eval(column(t, j), p.challenges.reverse())
        }),
{
    lemma_prover_evals_rounds(f, challs, d, t, s, n, m, n);
    let p = prover_run(f, challs, d, t, s, n);
    assert(pow2(0) == 1) by {
        vstd::arithmetic::power2::lemma2_to64();
    }
    assert((n - n) as nat == 0);
    assert forall|j: int| 0 <= j < m implies #[trigger] p.table[0][j] == mle_eval(
        column(t, j),
        p.challenges.reverse(),
    ) by {
        let e = Seq::<nat>::empty();
        assert(e + p.challenges.reverse() =~= p.challenges.reverse());
        assert(mle_eval(column(p.table, j), e) == column(p.table, j)[0]);
        assert(mle_eval(column(p.table, j), e) == mle_eval(column(t, j), e + p.challenges.reverse()));
    }
}

proof fn lemma_prover_evals_rounds(
    f: Expr,
    challs: Seq<nat>,
    d: nat,
    t: Seq<Seq<nat>>,
    s: crate::sponge::SpongeView,
    n: nat,
    m: nat,
    k: nat,
)
    requires
        k <= n,
        t.len() == pow2(n),
        table_wf(t, m),
    ensures
        ({
            let p = prover_run(f, challs, d, t, s, k);
            &&& p.table.len() == pow2((n - k) as nat)
            &&& table_wf(p.table, m)
            &&& p.challenges.len() == k
            &&& forall|j: int, q: Seq<nat>|
                0 <= j < m && q.len() == n - k ==> #[trigger] mle_eval(column(p.table, j), q)
                    == mle_eval(column(t, j), q + p.challenges.reverse())
        }),
    decreases k,
{
    if k == 0 {
        let p = prover_run(f, challs, d, t, s, 0);
        assert forall|j: int, q: Seq<nat>| 0 <= j < m && q.len() == n implies #[trigger] mle_eval(
            column(p.table, j),
            q,
        ) == mle_eval(column(t, j), q + p.challenges.reverse()) by {
            assert(q + p.challenges.reverse() =~= q);
        }
    } else {
        lemma_prover_evals_rounds(f, challs, d, t, s, n, m, (k - 1) as nat);
        let a = prover_run(f, challs, d, t, s, (k - 1) as nat);
        let p = prover_run(f, challs, d, t, s, k);
        let r = p.challenges.last();
        lemma_pow2_unfold((n - (k - 1)) as nat);
        assert(p.table == fix_rows(a.table, r));
        assert forall|b: int| 0 <= b < p.table.len() implies #[trigger] p.table[b].len() == m by {
            assert(a.table[b].len() == m);
        }
        assert forall|j: int, q: Seq<nat>| 0 <= j < m && q.len() == n - k implies #[trigger] mle_eval(
            column(p.table, j),
            q,
        ) == mle_eval(column(t, j), q + p.challenges.reverse()) by {
            lemma_column_of_fix_rows(a.table, r, j, m);
            let qr = q.push(r);
            assert(qr.drop_last() =~= q);
            assert(mle_eval(column(a.table, j), qr) == mle_eval(fix_top(column(a.table, j), r), q));
            assert(mle_eval(column(a.table, j), qr) == mle_eval(column(t, j), qr + a.challenges.reverse()));
            assert(qr + a.challenges.reverse() =~= q + p.challenges.reverse());
        }
    }
}

/// The value of every polynomial at the point: an instance polynomial's
/// value is given, the others' tables are evaluated at the point.
pub fn oracle_eval(
    st: &SumcheckStructure,
    point: &MultiPoint,
    instance_evals: &Vec<Scalar>,
    witness: &Vec<Vec<Scalar>>,
) -> (r: Vec<Scalar>)
    requires
        shapes_agree(*st, views(instance_evals@), rows(witness@)),
        has_vars(witness@.len() as nat, point@.len()),
    ensures
        views(r@) == query_evals(*st, views(instance_evals@), rows(witness@), point@),
{
    let ghost goal = query_evals(*st, views(instance_evals@), rows(witness@), point@);
    let mut evals: Vec<Scalar> = Vec::new();
    let m = st.locations.len();
    let mut j: usize = 0;
    while j < m
        invariant
            m == st.locations@.len(),
            j <= m,
            shapes_agree(*st, views(instance_evals@), rows(witness@)),
            has_vars(witness@.len() as nat, point@.len()),
            goal == query_evals(*st, views(instance_evals@), rows(witness@), point@),
            views(evals@) == goal.take(j as int),
        decreases m - j,
    {
        proof {
            assert forall|b: int| 0 <= b < witness@.len() implies j < (#[trigger] witness@[b])@.len() by {
                assert(rows(witness@)[b].len() == witness@[b]@.len());
            }
            assert forall|b: int| 0 <= b < st.structure@.len() implies j < (#[trigger] st.structure@[b])@.len() by {}
        }
        let v = match st.locations[j] {
            EvalLocation::Instance => instance_evals[j],
            EvalLocation::Structure => {
                let col = column_of(&st.structure, j);
                proof {
                    assert(views(col@).len() == col@.len());
                }
                eval(&col, &point)
            },
            EvalLocation::Witness => {
                let col = column_of(witness, j);
                proof {
                    assert(views(col@).len() == col@.len());
                }
                eval(&col, &point)
            },
        };
        let ghost prev = views(evals@);
        evals.push(v);
        proof {
            assert(views(evals@) =~= prev.push(v@));
            assert(views(evals@) =~= goal.take(j + 1));
        }
        j = j + 1;
    }
    proof {
        assert(goal.take(j as int) =~= goal);
    }
    evals
}

/// The query relation: the function, on the values of its polynomials at
/// the point, gives the claimed value.
pub struct QueryRelation;

impl Relation for QueryRelation {
    type Structure = SumcheckStructure;

    type Instance = OracleQueryInstance;

    type Witness = Vec<Vec<Scalar>>;

    open spec fn holds(st: SumcheckStructure, instance: OracleQueryInstance, witness: Vec<Vec<Scalar>>) -> bool {
        expr_eval(
            st.function,
            query_evals(st, views(instance.instance_evals@), rows(witness@), instance.point@),
            views(st.challs@),
        ) == instance.eval@
    }

    open spec fn admits(st: SumcheckStructure, instance: OracleQueryInstance, witness: Vec<Vec<Scalar>>) -> bool {
        &&& shapes_agree(st, views(instance.instance_evals@), rows(witness@))
        &&& has_vars(witness@.len() as nat, instance.point@.len())
    }

    fn check(st: &SumcheckStructure, instance: &OracleQueryInstance, witness: &Vec<Vec<Scalar>>) -> (r: bool) {
        let evals = oracle_eval(st, &instance.point, &instance.instance_evals, witness);
        let env = EvalCheckEnv::new(evals, copy_scalars(&st.challs));
        let value: Scalar = st.function.function(&env);
        proof {
            assert(env_values(st.function, env)[0] == value@);
        }
        value.equals(&instance.eval)
    }
}

/// A copy of a table.
fn copy_table(t: &Vec<Vec<Scalar>>) -> (r: Vec<Vec<Scalar>>)
    ensures
        r@.len() == t@.len(),
        forall|b: int| 0 <= b < t@.len() ==> (#[trigger] r@[b])@ == t@[b]@,
{
    let mut out: Vec<Vec<Scalar>> = Vec::new();
    let mut b: usize = 0;
    while b < t.len()
        invariant
            b <= t@.len(),
            out@.len() == b,
            forall|k: int| 0 <= k < b ==> (#[trigger] out@[k])@ == t@[k]@,
        decreases t@.len() - b,
    {
        out.push(copy_scalars(&t[b]));
        b = b + 1;
    }
    out
}

/// Turns the messages of a proof into round messages.
fn to_messages(ms: Vec<SumcheckMessage>) -> (r: Vec<Message>)
    ensures
        messages_view(r@) == sumcheck_messages_view(ms@),
{
    let mut out: Vec<Message> = Vec::new();
    let mut k: usize = 0;
    while k < ms.len()
        invariant
            k <= ms@.len(),
            messages_view(out@) == sumcheck_messages_view(ms@).take(k as int),
        decreases ms@.len() - k,
    {
        let ghost prev = messages_view(out@);
        let m = ms[k].to_message();
        out.push(m);
        proof {
            assert(messages_view(out@) =~= prev.push(m@));
            assert(messages_view(out@) =~= sumcheck_messages_view(ms@).take(k + 1));
        }
        k = k + 1;
    }
    proof {
        assert(sumcheck_messages_view(ms@).take(k as int) =~= sumcheck_messages_view(ms@));
    }
    out
}

/// The sumcheck reduction, from the sumcheck relation to the query relation.
pub struct SumcheckReduction;

impl Reduction<SumcheckRelation, QueryRelation> for SumcheckReduction {
    type ProverKey = ProverKey;

    type VerifierKey = SumcheckVerifier;

    type Proof = Proof;

    type Error = SumcheckError;

    open spec fn key_wf(key: SumcheckVerifier) -> bool {
        key.wf()
    }

    open spec fn pattern(key: SumcheckVerifier, rounds: Seq<Round>) -> Seq<Round> {
        rounds + Seq::new(
            key.vars(),
            |k: int|
                Round {
                    kind: MessageKind::Sumcheck,
                    message_len: (key.degree() + 1) as usize,
                    challenges: 1,
                },
        )
    }

    open spec fn prover_ready(key: ProverKey, instance: SumcheckInstance, witness: Vec<Vec<Scalar>>) -> bool {
        &&& key.wf()
        &&& witness@.len() == pow2(key.vars())
        &&& key.structure().len() == witness@.len()
        &&& forall|b: int|
            0 <= b < witness@.len() ==> (#[trigger] witness@[b])@.len() == key.locations().len()
        &&& forall|b: int|
            0 <= b < key.structure().len() ==> (#[trigger] key.structure()[b]).len()
                == key.locations().len()
        &&& instance.instance_evals@.len() == key.locations().len()
        &&& crate::sumcheck::expr_wf(key.function(), key.locations().len(), 0)
    }

    open spec fn output_ok(key: ProverKey, instance: OracleQueryInstance, witness: Vec<Vec<Scalar>>) -> bool {
        instance.point@.len() == key.vars()
    }

    open spec fn verifier_ready(key: SumcheckVerifier, instance: SumcheckInstance, proof: Proof) -> bool {
        proof.messages@.len() >= key.vars()
    }

    open spec fn verified_ok(key: SumcheckVerifier, instance: OracleQueryInstance) -> bool {
        true
    }

    /// The honest prover's rounds on the witness completed with the
    /// structure and the instance: the proof holds its messages, the point is
    /// its challenges in reverse, the evaluation the function's value at its
    /// last row, and the transcript is left after its last round. The first
    /// round the transcript refuses gives the error.
    open spec fn prove_rel(
        key: ProverKey,
        instance: SumcheckInstance,
        witness: Vec<Vec<Scalar>>,
        before: TranscriptView,
        r: Result<ProverOutput<QueryRelation, Proof>, Error>,
        after: TranscriptView,
    ) -> bool {
        match r {
            Ok(out) => {
                let t = prepared_table(
                    key.structure(),
                    views(instance.instance_evals@),
                    rows(witness@),
                    key.locations(),
                );
                let p = prover_run(key.function(), seq![], key.degree(), t, before.sponge, key.vars());
                &&& sumcheck_rounds_ok(before, key.vars(), key.degree())
                &&& messages_view(out.proof.messages@) == p.messages
                &&& out.instance.point@ == p.challenges.reverse()
                &&& out.instance.eval@ == expr_eval(key.function(), p.table[0], seq![])
                &&& out.instance.instance_evals@ == instance.instance_evals@
                &&& rows(out.witness@) == rows(witness@)
                &&& after.sponge == p.sponge
                &&& after.next == before.next + key.vars()
            },
            Err(e) => refused_at(before, key.vars(), key.degree(), SumcheckError::TranscriptError(e)),
        }
    }

    /// The verifier's rounds on the proof's messages from the claimed sum:
    /// on success the point is the challenges in reverse, the evaluation the
    /// final claim, and the transcript is left after the last round;
    /// otherwise the error of the first round that fails.
    open spec fn verify_rel(
        key: SumcheckVerifier,
        instance: SumcheckInstance,
        proof: Proof,
        before: TranscriptView,
        r: Result<OracleQueryInstance, SumcheckError>,
        after: TranscriptView,
    ) -> bool {
        match verifier_run(
            messages_view(proof.messages@),
            key.degree(),
            before.rounds,
            VerifierRun { sum: instance.sum@, challenges: seq![], sponge: before.sponge, next: before.next },
            key.vars(),
        ) {
            Ok(st) => r matches Ok(q) && q.point@ == st.challenges.reverse() && q.eval@ == st.sum
                && q.instance_evals@ == instance.instance_evals@ && after.sponge == st.sponge
                && after.next == st.next,
            Err(e) => r == Err::<OracleQueryInstance, SumcheckError>(e),
        }
    }

    fn transcript_pattern(key: &SumcheckVerifier, builder: TranscriptBuilder) -> (r: TranscriptBuilder) {
        key.transcript_pattern(builder)
    }

    fn prove(
        key: &ProverKey,
        instance: SumcheckInstance,
        witness: Vec<Vec<Scalar>>,
        transcript: &mut Transcript,
    ) -> (r: Result<ProverOutput<QueryRelation, Proof>, Error>)
        ensures
            r is Ok <==> sumcheck_rounds_ok(old(transcript)@, key.vars(), key.degree()),
    {
        let oracle_witness = copy_table(&witness);
        proof {
            assert(rows(oracle_witness@) =~= rows(witness@));
        }
        let SumcheckInstance { sum, instance_evals } = instance;
        match key.prove(witness, transcript, &instance_evals) {
            Ok(out) => {
                let ProveOutput { messages, point, eval } = out;
                proof {
                    lemma_prover_run_len(
                        key.function(),
                        seq![],
                        key.degree(),
                        prepared_table(key.structure(), views(instance_evals@), rows(oracle_witness@), key.locations()),
                        old(transcript)@.sponge,
                        key.vars(),
                    );
                }
                let instance = OracleQueryInstance { instance_evals, point, eval };
                Ok(ProverOutput { instance, witness: oracle_witness, proof: Proof { messages: to_messages(messages) } })
            },
            Err(e) => match e {
                SumcheckError::TranscriptError(t) => Err(t),
                _ => {
                    proof {
                        assert(false);
                    }
                    Err(Error::UnexpectedMessage)
                },
            },
        }
    }

    fn verify(
        key: &SumcheckVerifier,
        instance: SumcheckInstance,
        proof: GuardedProof<Proof>,
        transcript: &mut VerifierTranscript,
    ) -> (r: Result<OracleQueryInstance, SumcheckError>)
    {
        let SumcheckInstance { sum, instance_evals } = instance;
        match key.verify_reduction(sum, &proof, transcript) {
            Ok(check) => {
                let point = MultiPoint::new(check.vars);
                Ok(OracleQueryInstance { instance_evals, point, eval: check.eval })
            },
            Err(e) => Err(e),
        }
    }
}

} // verus!
