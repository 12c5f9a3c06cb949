//! The sumcheck prover over an oracle: the rows of the witness are first
//! completed with the structure's and the instance's values, then each
//! round's message is computed by walking the lines between the two halves
//! of the table one step at a time.
use crate::algebra::views;
use crate::field::{fadd, fmul, fsub, group_field, lemma_add_assoc, lemma_add_comm, Scalar};
use crate::message::line_value;
use crate::polynomials::MultiPoint;
use crate::sponge::{lemma_squeezed_len, spec_absorb_all};
use crate::sumcheck::{
    bind_variable, copy_scalars, env_values, expr_degree, expr_eval, expr_wf, half_sum,
    lemma_sumcheck_round_at, line_row, mles_below,
    prover_run, refused_at, round_poly, rows, sumcheck_rounds_ok, table_wf, EvalCheckEnv, EvalLocation, Expr,
    SumcheckError, SumcheckMessage, Var,
};
use crate::sumcheck_relations::merged_row;
use crate::transcript::{round_accepts, Error, MessageKind, Transcript};
use vstd::arithmetic::power2::{lemma_pow2_pos, lemma_pow2_unfold, pow2};
use vstd::prelude::*;

verus! {

broadcast use group_field;

/// The prover's key: the function and its degree, the number of variables,
/// the rows of the structure, and which polynomials the structure and the
/// instance give.
pub struct ProverKey {
    degree: usize,
    vars: usize,
    structure_evals: Vec<Vec<Scalar>>,
    function: Expr,
    structure_filter: Vec<bool>,
    instance_filter: Vec<bool>,
}

/// What the prover ends with: the messages, the point and the function's
/// value there.
pub struct ProveOutput {
    pub messages: Vec<SumcheckMessage>,
    pub point: MultiPoint,
    pub eval: Scalar,
}

/// The values of a sequence of messages.
pub open spec fn sumcheck_messages_view(ms: Seq<SumcheckMessage>) -> Seq<Seq<nat>> {
    ms.map_values(|m: SumcheckMessage| m@)
}

impl ProverKey {
    pub closed spec fn degree(&self) -> nat {
        self.degree as nat
    }

    pub closed spec fn vars(&self) -> nat {
        self.vars as nat
    }

    pub closed spec fn function(&self) -> Expr {
        self.function
    }

    pub closed spec fn structure(&self) -> Seq<Seq<nat>> {
        rows(self.structure_evals@)
    }

    /// Where each polynomial lives, as the filters say.
    pub closed spec fn locations(&self) -> Seq<EvalLocation> {
        Seq::new(
            self.structure_filter@.len(),
            |j: int|
                if self.structure_filter@[j] {
                    EvalLocation::Structure
                } else if self.instance_filter@[j] {
                    EvalLocation::Instance
                } else {
                    EvalLocation::Witness
                },
        )
    }

    pub closed spec fn wf(&self) -> bool {
        &&& 1 <= self.degree < usize::MAX
        &&& self.structure_filter@.len() == self.instance_filter@.len()
        &&& forall|j: int|
            0 <= j < self.structure_filter@.len() ==> !(#[trigger] self.structure_filter@[j]
                && self.instance_filter@[j])
    }

    /// The function.
    pub fn f(&self) -> (r: &Expr)
        ensures
            *r == self.function(),
    {
        &self.function
    }

    /// The key for `function` over `vars` variables, with the structure's
    /// rows and where each polynomial lives.
    pub fn new(
        vars: usize,
        structure_evals: Vec<Vec<Scalar>>,
        function: Expr,
        locations: &Vec<EvalLocation>,
    ) -> (r: ProverKey)
        requires
            mles_below(function, locations@.len() as nat),
            1 <= expr_degree(function, locations@) < usize::MAX,
        ensures
            r.wf(),
            r.vars() == vars,
            r.degree() == expr_degree(function, locations@),
            r.function() == function,
            r.structure() == rows(structure_evals@),
            r.locations() == locations@,
    {
        let degree = function.degree(locations);
        let mut structure_filter: Vec<bool> = Vec::new();
        let mut instance_filter: Vec<bool> = Vec::new();
        let mut j: usize = 0;
        while j < locations.len()
            invariant
                j <= locations@.len(),
                structure_filter@.len() == j,
                instance_filter@.len() == j,
                forall|k: int|
                    0 <= k < j ==> #[trigger] structure_filter@[k] == (locations@[k]
                        == EvalLocation::Structure) && instance_filter@[k] == (locations@[k]
                        == EvalLocation::Instance),
            decreases locations@.len() - j,
        {
            let loc = locations[j];
            let is_structure = match loc {
                EvalLocation::Structure => true,
                _ => false,
            };
            let is_instance = match loc {
                EvalLocation::Instance => true,
                _ => false,
            };
            let ghost s_before = structure_filter@;
            let ghost i_before = instance_filter@;
            structure_filter.push(is_structure);
            instance_filter.push(is_instance);
            proof {
                assert forall|k: int| 0 <= k < j + 1 implies #[trigger] structure_filter@[k] == (
                locations@[k] == EvalLocation::Structure) && instance_filter@[k] == (locations@[k]
                    == EvalLocation::Instance) by {
                    if k < j {
                        assert(structure_filter@[k] == s_before[k]);
                        assert(instance_filter@[k] == i_before[k]);
                    }
                }
            }
            j = j + 1;
        }
        let r = ProverKey {
            degree,
            vars,
            structure_evals,
            function,
            structure_filter,
            instance_filter,
        };
        proof {
            assert(r.locations() =~= locations@);
        }
        r
    }

    /// Completes a witness row with the structure's and the instance's values.
    pub fn merge_evals(&self, witness: &mut Vec<Scalar>, structure: &Vec<Scalar>, instance: &Vec<Scalar>)
        requires
            self.wf(),
            old(witness)@.len() == self.locations().len(),
            structure@.len() == self.locations().len(),
            instance@.len() == self.locations().len(),
        ensures
            views(final(witness)@) == merged_row(
                views(structure@),
                views(instance@),
                views(old(witness)@),
                self.locations(),
            ),
    {
        let ghost goal = merged_row(views(structure@), views(instance@), views(witness@), self.locations());
        let ghost w0 = views(witness@);
        let n = witness.len();
        let mut j: usize = 0;
        while j < n
            invariant
                self.wf(),
                n == witness@.len(),
                n == self.locations().len(),
                structure@.len() == n,
                instance@.len() == n,
                j <= n,
                goal == merged_row(views(structure@), views(instance@), w0, self.locations()),
                forall|k: int| 0 <= k < j ==> #[trigger] views(witness@)[k] == goal[k],
                forall|k: int| j <= k < n ==> #[trigger] views(witness@)[k] == w0[k],
            decreases n - j,
        {
            let ghost before = views(witness@);
            if self.structure_filter[j] {
                witness.set(j, structure[j]);
            }
            if self.instance_filter[j] {
                witness.set(j, instance[j]);
            }
            proof {
                assert forall|k: int| 0 <= k < n && k != j implies #[trigger] views(witness@)[k]
                    == before[k] by {}
            }
            j = j + 1;
        }
        proof {
            assert(views(witness@) =~= goal);
        }
    }

    /// Completes every witness row that has a structure row beside it.
    pub fn prepare_witness(&self, witness: Vec<Vec<Scalar>>, instance_evals: &Vec<Scalar>) -> (r: Vec<
        Vec<Scalar>,
    >)
        requires
            self.wf(),
            instance_evals@.len() == self.locations().len(),
            forall|b: int|
                0 <= b < witness@.len() ==> (#[trigger] witness@[b])@.len()
                    == self.locations().len(),
            forall|b: int|
                0 <= b < self.structure().len() ==> (#[trigger] self.structure()[b]).len()
                    == self.locations().len(),
        ensures
            r@.len() == witness@.len(),
            forall|b: int|
                0 <= b < witness@.len() ==> #[trigger] rows(r@)[b] == if b < self.structure().len() {
                    merged_row(
                        self.structure()[b],
                        views(instance_evals@),
                        rows(witness@)[b],
                        self.locations(),
                    )
                } else {
                    rows(witness@)[b]
                },
    {
        let ghost w0 = rows(witness@);
        let mut witness = witness;
        let n = if witness.len() < self.structure_evals.len() {
            witness.len()
        } else {
            self.structure_evals.len()
        };
        let mut b: usize = 0;
        while b < n
            invariant
                self.wf(),
                n <= witness@.len(),
                n <= self.structure_evals@.len(),
                n == witness@.len() || n == self.structure_evals@.len(),
                w0.len() == witness@.len(),
                instance_evals@.len() == self.locations().len(),
                forall|k: int|
                    0 <= k < self.structure().len() ==> (#[trigger] self.structure()[k]).len()
                        == self.locations().len(),
                forall|k: int| 0 <= k < w0.len() ==> (#[trigger] w0[k]).len() == self.locations().len(),
                b <= n,
                forall|k: int|
                    0 <= k < b ==> #[trigger] rows(witness@)[k] == merged_row(
                        self.structure()[k],
                        views(instance_evals@),
                        w0[k],
                        self.locations(),
                    ),
                forall|k: int| b <= k < w0.len() ==> #[trigger] rows(witness@)[k] == w0[k],
            decreases n - b,
        {
            let mut row = copy_scalars(&witness[b]);
            proof {
                assert(rows(witness@)[b as int] == w0[b as int]);
                assert(self.structure()[b as int] == views(self.structure_evals@[b as int]@));
                assert(views(row@).len() == row@.len());
                assert(views(self.structure_evals@[b as int]@).len() == self.structure_evals@[b as int]@.len());
            }
            self.merge_evals(&mut row, &self.structure_evals[b], instance_evals);
            let ghost before = rows(witness@);
            witness.set(b, row);
            proof {
                assert forall|k: int| 0 <= k < w0.len() && k != b implies #[trigger] rows(witness@)[k]
                    == before[k] by {}
            }
            b = b + 1;
        }
        proof {
            assert forall|k: int| 0 <= k < w0.len() implies #[trigger] rows(witness@)[k] == if k
                < self.structure().len() {
                merged_row(self.structure()[k], views(instance_evals@), w0[k], self.locations())
            } else {
                w0[k]
            } by {
                if k < self.structure().len() {
                    assert(k < n);
                }
            }
        }
        witness
    }
}

/// A step along a line: adding the slope `r - l` to its value at `x` gives
/// its value at `x + 1`.
proof fn lemma_line_step(l: nat, r: nat, x: nat)
    ensures
        fadd(line_value(l, r, x), fsub(r, l)) == line_value(l, r, x + 1),
{
    let c = fsub(r, l);
    let xc = fmul(x, c);
    lemma_add_assoc(xc, l, c);
    lemma_add_comm(l, c);
    lemma_add_assoc(xc, c, l);
    crate::message::lemma_mul_succ(x, c);
}

/// The slopes of the lines through two rows: `right - left`, position by position.
fn diff_row(right: &Vec<Scalar>, left: &Vec<Scalar>) -> (r: Vec<Scalar>)
    requires
        right@.len() == left@.len(),
    ensures
        views(r@) == Seq::new(left@.len(), |j: int| fsub(views(right@)[j], views(left@)[j])),
{
    let ghost goal = Seq::new(left@.len(), |j: int| fsub(views(right@)[j], views(left@)[j]));
    let mut out: Vec<Scalar> = Vec::new();
    let mut j: usize = 0;
    while j < left.len()
        invariant
            j <= left@.len(),
            right@.len() == left@.len(),
            goal == Seq::new(left@.len(), |j: int| fsub(views(right@)[j], views(left@)[j])),
            views(out@) == goal.take(j as int),
        decreases left@.len() - j,
    {
        let v = right[j].sub(&left[j]);
        let ghost prev = views(out@);
        out.push(v);
        proof {
            assert(views(out@) =~= prev.push(v@));
            assert(views(out@) =~= goal.take(j + 1));
        }
        j = j + 1;
    }
    proof {
        assert(goal.take(j as int) =~= goal);
    }
    out
}

/// Adds the slopes to the row, position by position.
fn step_row(row: &mut Vec<Scalar>, slopes: &Vec<Scalar>)
    requires
        old(row)@.len() == slopes@.len(),
    ensures
        views(final(row)@) == Seq::new(
            old(row)@.len(),
            |j: int| fadd(views(old(row)@)[j], views(slopes@)[j]),
        ),
{
    let ghost r0 = views(row@);
    let n = row.len();
    let mut j: usize = 0;
    while j < n
        invariant
            n == row@.len(),
            n == slopes@.len(),
            r0.len() == n,
            j <= n,
            forall|k: int| 0 <= k < j ==> #[trigger] views(row@)[k] == fadd(r0[k], views(slopes@)[k]),
            forall|k: int| j <= k < n ==> #[trigger] views(row@)[k] == r0[k],
        decreases n - j,
    {
        let v = row[j].add(&slopes[j]);
        let ghost before = views(row@);
        proof {
            assert(before[j as int] == r0[j as int]);
        }
        row.set(j, v);
        proof {
            assert forall|k: int| 0 <= k < n && k != j implies #[trigger] views(row@)[k] == before[k] by {}
        }
        j = j + 1;
    }
    proof {
        assert(views(row@) =~= Seq::new(r0.len(), |j: int| fadd(r0[j], views(slopes@)[j])));
    }
}

impl ProverKey {
    /// The round's message: for each row of the lower half, the function is
    /// computed along the line to its partner in the upper half, stepping
    /// from one evaluation point to the next by adding the slopes.
    pub fn message(&self, mles: &Vec<Vec<Scalar>>) -> (r: SumcheckMessage)
        requires
            self.wf(),
            mles@.len() > 0,
            table_wf(rows(mles@), rows(mles@)[0].len()),
            expr_wf(self.function(), rows(mles@)[0].len(), 0),
        ensures
            r@ == round_poly(self.function(), rows(mles@), seq![], self.degree()),
    {
        let ghost t = rows(mles@);
        let ghost f = self.function;
        let ghost d = self.degree as nat;
        let ghost c = Seq::<nat>::empty();
        let ghost m = t[0].len();
        let half = mles.len() / 2;
        let mut message: Vec<Scalar> = Vec::new();
        let mut k: usize = 0;
        while k <= self.degree
            invariant
                1 <= self.degree < usize::MAX,
                k <= self.degree + 1,
                message@.len() == k,
                forall|x: int| 0 <= x < k ==> (#[trigger] message@[x])@ == 0,
            decreases self.degree + 1 - k,
        {
            message.push(Scalar::zero());
            k = k + 1;
        }
        proof {
            assert forall|x: int| 0 <= x < d + 1 implies (#[trigger] message@[x])@ == half_sum(
                f,
                t,
                c,
                x as nat,
                0,
            ) by {
                assert(Seq::new(0, |b: int| expr_eval(f, line_row(t[b], t[b + half], x as nat), c))
                    =~= Seq::<nat>::empty());
            }
        }
        let mut b: usize = 0;
        while b < half
            invariant
                self.wf(),
                half == mles@.len() / 2,
                t == rows(mles@),
                f == self.function,
                d == self.degree,
                c == Seq::<nat>::empty(),
                m == t[0].len(),
                mles@.len() > 0,
                table_wf(t, m),
                expr_wf(f, m, 0),
                b <= half,
                message@.len() == d + 1,
                forall|x: int|
                    0 <= x < d + 1 ==> (#[trigger] message@[x])@ == half_sum(f, t, c, x as nat, b as nat),
            decreases half - b,
        {
            assert(b + half < mles.len());
            let left = &mles[b];
            let right = &mles[b + half];
            proof {
                assert(t[b as int] == views(left@));
                assert(t[b + half] == views(right@));
                assert(t[b as int].len() == m);
                assert(t[b + half].len() == m);
            }
            let mut last = copy_scalars(left);
            let slopes = diff_row(right, left);
            proof {
                assert(views(slopes@).len() == slopes@.len());
                assert(views(left@).len() == left@.len());
                assert(views(last@) =~= line_row(t[b as int], t[b + half], 0)) by {
                    assert forall|j: int| 0 <= j < m implies views(last@)[j] == line_value(
                        t[b as int][j],
                        t[b + half][j],
                        0,
                    ) by {
                        crate::field::lemma_mul_zero(fsub(t[b + half][j], t[b as int][j]));
                        crate::algebra::lemma_views_reduced(left@);
                        crate::field::lemma_add_zero(t[b as int][j]);
                    }
                }
            }
            let mut x: usize = 0;
            while x <= self.degree
                invariant
                    self.wf(),
                    f == self.function,
                    d == self.degree,
                    c == Seq::<nat>::empty(),
                    b < half,
                    half == t.len() / 2,
                    t[b as int].len() == m,
                    t[b + half].len() == m,
                    expr_wf(f, m, 0),
                    x <= d + 1,
                    last@.len() == m,
                    slopes@.len() == m,
                    views(slopes@) == Seq::new(m, |j: int| fsub(t[b + half][j], t[b as int][j])),
                    views(last@) == line_row(t[b as int], t[b + half], x as nat),
                    message@.len() == d + 1,
                    forall|y: int|
                        0 <= y < x ==> (#[trigger] message@[y])@ == half_sum(f, t, c, y as nat, (b + 1) as nat),
                    forall|y: int|
                        x <= y < d + 1 ==> (#[trigger] message@[y])@ == half_sum(f, t, c, y as nat, b as nat),
                decreases d + 1 - x,
            {
                let no_challs: Vec<Scalar> = Vec::new();
                proof {
                    assert(views(no_challs@) =~= c);
                }
                let env = EvalCheckEnv::new(copy_scalars(&last), no_challs);
                let eval: Scalar = self.function.function(&env);
                proof {
                    assert(env_values(f, env)[0] == eval@);
                    let g = |k: int| expr_eval(f, line_row(t[k], t[k + half], x as nat), c);
                    assert(Seq::new((b + 1) as nat, g).drop_last() =~= Seq::new(b as nat, g));
                }
                let updated = message[x].add(&eval);
                let ghost before = message@;
                message.set(x, updated);
                proof {
                    assert forall|y: int| 0 <= y < d + 1 && y != x implies #[trigger] message@[y] == before[y] by {}
                }
                let ghost last_before = views(last@);
                step_row(&mut last, &slopes);
                proof {
                    assert forall|j: int| 0 <= j < m implies views(last@)[j] == line_value(
                        t[b as int][j],
                        t[b + half][j],
                        (x + 1) as nat,
                    ) by {
                        lemma_line_step(t[b as int][j], t[b + half][j], x as nat);
                    }
                    assert(views(last@) =~= line_row(t[b as int], t[b + half], (x + 1) as nat));
                }
                x = x + 1;
            }
            b = b + 1;
        }
        let r = SumcheckMessage::new(message);
        proof {
            assert(r@ =~= round_poly(f, t, c, d));
        }
        r
    }
}

/// The witness completed with the structure's and the instance's values.
pub open spec fn prepared_table(
    structure: Seq<Seq<nat>>,
    instance: Seq<nat>,
    witness: Seq<Seq<nat>>,
    locations: Seq<EvalLocation>,
) -> Seq<Seq<nat>> {
    Seq::new(
        witness.len(),
        |b: int| merged_row(structure[b], instance, witness[b], locations),
    )
}

impl ProverKey {
    /// Runs the prover's side of the sumcheck on the witness completed with
    /// the structure and the instance: each round sends the message and binds
    /// the round's variable to the challenge; it ends with the point (the
    /// challenges in reverse order) and the function's value there.
    pub fn prove(&self, witness: Vec<Vec<Scalar>>, transcript: &mut Transcript, instance_evals: &Vec<Scalar>) -> (r:
        Result<ProveOutput, SumcheckError>)
        requires
            self.wf(),
            old(transcript).wf(),
            witness@.len() == pow2(self.vars()),
            self.structure().len() == witness@.len(),
            forall|b: int|
                0 <= b < witness@.len() ==> (#[trigger] witness@[b])@.len()
                    == self.locations().len(),
            forall|b: int|
                0 <= b < self.structure().len() ==> (#[trigger] self.structure()[b]).len()
                    == self.locations().len(),
            instance_evals@.len() == self.locations().len(),
            expr_wf(self.function(), self.locations().len(), 0),
        ensures
            final(transcript).wf(),
            final(transcript)@.rounds == old(transcript)@.rounds,
            r is Ok <==> sumcheck_rounds_ok(old(transcript)@, self.vars(), self.degree()),
            r matches Err(e) ==> refused_at(old(transcript)@, self.vars(), self.degree(), e),
            r matches Ok(out) ==> ({
                let t = prepared_table(
                    self.structure(),
                    views(instance_evals@),
                    rows(witness@),
                    self.locations(),
                );
                let p = prover_run(
                    self.function(),
                    seq![],
                    self.degree(),
                    t,
                    old(transcript)@.sponge,
                    self.vars(),
                );
                &&& sumcheck_messages_view(out.messages@) == p.messages
                &&& out.point@ == p.challenges.reverse()
                &&& out.eval@ == expr_eval(self.function(), p.table[0], seq![])
                &&& final(transcript)@.sponge == p.sponge
                &&& final(transcript)@.next == old(transcript)@.next + self.vars()
            }),
    {
        let ghost f = self.function;
        let ghost d = self.degree as nat;
        let ghost m = self.locations().len();
        let ghost c = Seq::<nat>::empty();
        let ghost v0 = transcript@;
        let ghost t0 = prepared_table(self.structure(), views(instance_evals@), rows(witness@), self.locations());
        let mut table = self.prepare_witness(witness, instance_evals);
        proof {
            assert(rows(table@) =~= t0);
            assert forall|b: int| 0 <= b < t0.len() implies #[trigger] t0[b].len() == m by {}
        }
        let mut messages: Vec<SumcheckMessage> = Vec::new();
        let mut vars: Vec<Scalar> = Vec::new();
        let mut i: usize = 0;
        while i < self.vars
            invariant
                self.wf(),
                f == self.function,
                d == self.degree,
                c == Seq::<nat>::empty(),
                m == self.locations().len(),
                i <= self.vars,
                v0 == old(transcript)@,
                transcript.wf(),
                transcript@.rounds == v0.rounds,
                transcript@.next == v0.next + i,
                table@.len() == pow2((self.vars - i) as nat),
                table_wf(rows(table@), m),
                expr_wf(f, m, 0),
                rows(table@) == prover_run(f, c, d, t0, v0.sponge, i as nat).table,
                sumcheck_messages_view(messages@) == prover_run(f, c, d, t0, v0.sponge, i as nat).messages,
                views(vars@) == prover_run(f, c, d, t0, v0.sponge, i as nat).challenges,
                transcript@.sponge == prover_run(f, c, d, t0, v0.sponge, i as nat).sponge,
                sumcheck_rounds_ok(v0, i as nat, d),
            decreases self.vars - i,
        {
            let ghost p = prover_run(f, c, d, t0, v0.sponge, i as nat);
            proof {
                lemma_pow2_pos((self.vars - i) as nat);
                assert(rows(table@)[0].len() == m);
            }
            let msg = self.message(&table);
            let ghost transcript_sponge_before = transcript@.sponge;
            let tm = crate::transcript::TranscriptMessage {
                kind: MessageKind::Sumcheck,
                elements: copy_scalars(msg.inner()),
            };
            proof {
                assert(tm.elements@.len() == views(tm.elements@).len());
                assert(tm.elements@.len() == d + 1);
            }
            let ghost before = transcript@;
            match transcript.send_message(&tm, 1) {
                Err(e) => {
                    proof {
                        assert(transcript@ == before);
                        assert(!(v0.next + i < v0.rounds.len() && round_accepts(
                            v0.rounds[v0.next + i],
                            MessageKind::Sumcheck,
                            d + 1,
                            1,
                        )));
                        assert(!sumcheck_rounds_ok(v0, self.vars as nat, d)) by {
                            if sumcheck_rounds_ok(v0, self.vars as nat, d) {
                                lemma_sumcheck_round_at(v0, self.vars as nat, d, v0.next + i);
                            }
                        }
                    }
                    proof {
                        assert(!sumcheck_rounds_ok(v0, (i + 1) as nat, d)) by {
                            if sumcheck_rounds_ok(v0, (i + 1) as nat, d) {
                                lemma_sumcheck_round_at(v0, (i + 1) as nat, d, v0.next + i);
                            }
                        }
                        assert(sumcheck_rounds_ok(v0, i as nat, d));
                    }
                    return Err(SumcheckError::TranscriptError(e));
                },
                Ok(ch) => {
                    proof {
                        lemma_squeezed_len(spec_absorb_all(transcript_sponge_before, msg@), 1);
                        assert(views(ch@).len() == 1);
                    }
                    let r = ch[0];
                    proof {
                        assert(views(ch@)[0] == r@);
                        lemma_pow2_unfold((self.vars - i) as nat);
                        assert(rows(table@)[0].len() == m);
                    }
                    bind_variable(&mut table, &r);
                    assert(table@.len() == rows(table@).len());
                    assert(table@.len() == pow2((self.vars - i - 1) as nat));
                    let ghost ms = messages@;
                    messages.push(msg);
                    let ghost vs = vars@;
                    vars.push(r);
                    proof {
                        assert(round_accepts(v0.rounds[v0.next + i], MessageKind::Sumcheck, d + 1, 1));
                        assert(sumcheck_rounds_ok(v0, (i + 1) as nat, d));
                        assert(sumcheck_messages_view(messages@) =~= sumcheck_messages_view(ms).push(
                            msg@,
                        ));
                        assert(views(vars@) =~= views(vs).push(r@));
                        assert forall|b: int| 0 <= b < rows(table@).len() implies #[trigger] rows(
                            table@,
                        )[b].len() == m by {
                            assert(rows(table@)[b] == crate::sumcheck::fix_rows(p.table, r@)[b]);
                        }
                    }
                },
            }
            i = i + 1;
        }
        proof {
            lemma_pow2_pos(0);
            assert(rows(table@)[0].len() == m);
            assert(rows(table@)[0] == views(table@[0]@));
        }
        let no_challs: Vec<Scalar> = Vec::new();
        proof {
            assert(views(no_challs@) =~= c);
        }
        let env = EvalCheckEnv::new(copy_scalars(&table[0]), no_challs);
        let eval: Scalar = self.function.function(&env);
        proof {
            assert(env_values(f, env)[0] == eval@);
        }
        let point = MultiPoint::new(crate::sumcheck::reversed(&vars));
        proof {
            assert(views(vars@).reverse() =~= views(vars@.reverse()));
        }
        Ok(ProveOutput { messages, point, eval })
    }
}


} // verus!
