//! Completeness of the sumcheck: on the honest prover's messages the
//! verifier accepts every round and ends with the function's value on the
//! fully bound table.
//!
//! Along a line between two rows, the function is a polynomial of degree
//! at most the function's degree; the round message holds its values over
//! `0..=d`, from which the verifier's barycentric evaluation is exact in a
//! field (every non-zero value invertible).
use crate::algebra::{fsum, reduced};
use crate::barycentric::bary_eval;
use crate::field::{
    fadd, fmul, fsub, group_field, lemma_add_comm, lemma_add_zero, lemma_mul_zero, lemma_small,
    lemma_sub_self, modulus,
};
use crate::interpolation::{
    lemma_bary_eval_exact, lemma_padd, lemma_peval_lt, lemma_pmul, lemma_pmul_len, lemma_pscale,
    lemma_psub, nonzero_invertible, padd, peval, pmul, pscale, psub,
};
use crate::message::line_value;
use crate::sponge::{
    lemma_sponge_reduced_absorb_all, lemma_sponge_reduced_squeeze_n, spec_absorb_all,
    sponge_reduced, SpongeView,
};
use crate::sumcheck::{
    expr_degree, expr_eval, expr_wf, fix_rows, half_sum, lemma_line_constant, lemma_prover_run_len,
    lemma_round_sum, lemma_sumcheck_round_at, lemma_verifier_run_prefix, line_row, prover_run,
    round_poly, sumcheck_rounds_ok, table_reduced, table_sum, table_wf, verifier_run, EvalLocation,
    Expr, SumcheckError, VerifierRun,
};
use crate::transcript::{challenges_for, sponge_after, Round, TranscriptView};
use vstd::arithmetic::power2::{lemma_pow2_pos, lemma_pow2_unfold, pow2};
use vstd::prelude::*;

verus! {

broadcast use group_field;

/// The polynomial in `x` of the function along the line between two rows:
/// a polynomial of the instance is constant, the others are lines.
pub open spec fn expr_poly(
    f: Expr,
    left: Seq<nat>,
    right: Seq<nat>,
    challs: Seq<nat>,
    locations: Seq<EvalLocation>,
) -> Seq<nat>
    decreases f,
{
    match f {
        Expr::Mle(i) => if locations[i as int] == EvalLocation::Instance {
            seq![left[i as int]]
        } else {
            seq![left[i as int], fsub(right[i as int], left[i as int])]
        },
        Expr::Challenge(i) => seq![challs[i as int]],
        Expr::Add(a, b) => padd(
            expr_poly(*a, left, right, challs, locations),
            expr_poly(*b, left, right, challs, locations),
        ),
        Expr::Sub(a, b) => psub(
            expr_poly(*a, left, right, challs, locations),
            expr_poly(*b, left, right, challs, locations),
        ),
        Expr::Mul(a, b) => pmul(
            expr_poly(*a, left, right, challs, locations),
            expr_poly(*b, left, right, challs, locations),
        ),
        Expr::AddConst(a, c) => padd(expr_poly(*a, left, right, challs, locations), seq![c@]),
        Expr::SubConst(a, c) => psub(expr_poly(*a, left, right, challs, locations), seq![c@]),
        Expr::MulConst(a, c) => pscale(expr_poly(*a, left, right, challs, locations), c@),
    }
}

/// Two rows agree on the polynomials of the instance.
pub open spec fn instance_agrees(left: Seq<nat>, right: Seq<nat>, locations: Seq<EvalLocation>) -> bool {
    forall|i: int|
        0 <= i < locations.len() && locations[i] == EvalLocation::Instance ==> #[trigger] left[i]
            == right[i]
}

/// A constant polynomial.
proof fn lemma_peval_const(c: nat, x: nat)
    ensures
        peval(seq![c], x) == c % modulus(),
{
    assert(seq![c].skip(1).len() == 0);
    assert(peval(seq![c].skip(1), x) == 0);
    lemma_mul_zero(x);
}

/// The polynomial of a line.
pub proof fn lemma_peval_line(l: nat, r: nat, x: nat)
    ensures
        peval(seq![l, fsub(r, l)], x) == line_value(l, r, x),
{
    let s = seq![l, fsub(r, l)];
    assert(s.skip(1) =~= seq![fsub(r, l)]);
    lemma_peval_const(fsub(r, l), x);
    crate::field::lemma_fsub_lt(r, l);
    lemma_small(fsub(r, l));
    lemma_add_comm(l, fmul(x, fsub(r, l)));
}

/// Along the line between two rows, the function is the polynomial
/// `expr_poly`, of degree at most the function's.
pub proof fn lemma_expr_poly(
    f: Expr,
    left: Seq<nat>,
    right: Seq<nat>,
    challs: Seq<nat>,
    locations: Seq<EvalLocation>,
    x: nat,
)
    requires
        expr_wf(f, left.len(), challs.len()),
        left.len() == right.len(),
        locations.len() == left.len(),
        instance_agrees(left, right, locations),
        reduced(challs),
    ensures
        peval(expr_poly(f, left, right, challs, locations), x) == expr_eval(
            f,
            line_row(left, right, x),
            challs,
        ),
        1 <= expr_poly(f, left, right, challs, locations).len() <= expr_degree(f, locations) + 1,
    decreases f,
{
    match f {
        Expr::Mle(i) => {
            if locations[i as int] == EvalLocation::Instance {
                lemma_peval_const(left[i as int], x);
                assert(left[i as int] == right[i as int]);
                lemma_sub_self(left[i as int]);
                lemma_mul_zero(x);
                lemma_add_comm(0, left[i as int]);
            } else {
                lemma_peval_line(left[i as int], right[i as int], x);
            }
        },
        Expr::Challenge(i) => {
            lemma_peval_const(challs[i as int], x);
            lemma_small(challs[i as int]);
        },
        Expr::Add(a, b) => {
            lemma_expr_poly(*a, left, right, challs, locations, x);
            lemma_expr_poly(*b, left, right, challs, locations, x);
            lemma_padd(
                expr_poly(*a, left, right, challs, locations),
                expr_poly(*b, left, right, challs, locations),
                x,
            );
        },
        Expr::Sub(a, b) => {
            lemma_expr_poly(*a, left, right, challs, locations, x);
            lemma_expr_poly(*b, left, right, challs, locations, x);
            lemma_psub(
                expr_poly(*a, left, right, challs, locations),
                expr_poly(*b, left, right, challs, locations),
                x,
            );
        },
        Expr::Mul(a, b) => {
            lemma_expr_poly(*a, left, right, challs, locations, x);
            lemma_expr_poly(*b, left, right, challs, locations, x);
            lemma_pmul(
                expr_poly(*a, left, right, challs, locations),
                expr_poly(*b, left, right, challs, locations),
                x,
            );
            lemma_pmul_len(
                expr_poly(*a, left, right, challs, locations),
                expr_poly(*b, left, right, challs, locations),
            );
        },
        Expr::AddConst(a, c) => {
            lemma_expr_poly(*a, left, right, challs, locations, x);
            lemma_padd(expr_poly(*a, left, right, challs, locations), seq![c@], x);
            lemma_peval_const(c@, x);
            lemma_small(c@);
        },
        Expr::SubConst(a, c) => {
            lemma_expr_poly(*a, left, right, challs, locations, x);
            lemma_psub(expr_poly(*a, left, right, challs, locations), seq![c@], x);
            lemma_peval_const(c@, x);
            lemma_small(c@);
        },
        Expr::MulConst(a, c) => {
            lemma_expr_poly(*a, left, right, challs, locations, x);
            lemma_pscale(expr_poly(*a, left, right, challs, locations), c@, x);
        },
    }
}

/// The honest round message as a polynomial: the sum of the function's
/// polynomials along the lines of the first `n` rows.
pub open spec fn round_ppoly(
    f: Expr,
    t: Seq<Seq<nat>>,
    challs: Seq<nat>,
    locations: Seq<EvalLocation>,
    n: nat,
) -> Seq<nat>
    decreases n,
{
    if n == 0 {
        seq![]
    } else {
        let h = (t.len() / 2) as int;
        padd(
            round_ppoly(f, t, challs, locations, (n - 1) as nat),
            expr_poly(f, t[n - 1], t[n - 1 + h], challs, locations),
        )
    }
}

/// The rows of each pair agree on the instance's polynomials.
pub open spec fn pairs_agree(t: Seq<Seq<nat>>, locations: Seq<EvalLocation>) -> bool {
    forall|b: int|
        0 <= b < t.len() / 2 ==> #[trigger] instance_agrees(
            t[b],
            t[b + (t.len() / 2) as int],
            locations,
        )
}

/// The round polynomial gives the sums of the function along the lines,
/// and its degree is at most the function's.
pub proof fn lemma_round_ppoly(
    f: Expr,
    t: Seq<Seq<nat>>,
    challs: Seq<nat>,
    locations: Seq<EvalLocation>,
    n: nat,
    x: nat,
)
    requires
        n <= t.len() / 2,
        table_wf(t, locations.len()),
        expr_wf(f, locations.len(), challs.len()),
        reduced(challs),
        pairs_agree(t, locations),
    ensures
        peval(round_ppoly(f, t, challs, locations, n), x) == half_sum(f, t, challs, x, n),
        round_ppoly(f, t, challs, locations, n).len() <= expr_degree(f, locations) + 1,
    decreases n,
{
    let h = (t.len() / 2) as int;
    let g = |b: int| expr_eval(f, line_row(t[b], t[b + h], x), challs);
    if n == 0 {
        assert(Seq::new(0, g) =~= Seq::<nat>::empty());
    } else {
        let b = n - 1;
        lemma_round_ppoly(f, t, challs, locations, (n - 1) as nat, x);
        assert(t[b].len() == locations.len());
        assert(t[b + h].len() == locations.len());
        assert(instance_agrees(t[b], t[b + h], locations));
        lemma_expr_poly(f, t[b], t[b + h], challs, locations, x);
        lemma_padd(
            round_ppoly(f, t, challs, locations, (n - 1) as nat),
            expr_poly(f, t[b], t[b + h], challs, locations),
            x,
        );
        assert(Seq::new(n, g).drop_last() =~= Seq::new((n - 1) as nat, g));
    }
}

/// The verifier's evaluation of the honest round message at `r` is the sum
/// of the function over the table with the round's variable bound to `r`.
pub proof fn lemma_round_poly_exact(
    f: Expr,
    t: Seq<Seq<nat>>,
    challs: Seq<nat>,
    locations: Seq<EvalLocation>,
    d: nat,
    r: nat,
)
    requires
        nonzero_invertible(),
        d < modulus(),
        r < modulus(),
        expr_degree(f, locations) <= d,
        table_wf(t, locations.len()),
        expr_wf(f, locations.len(), challs.len()),
        reduced(challs),
        pairs_agree(t, locations),
    ensures
        bary_eval(d, round_poly(f, t, challs, d), r) == table_sum(f, fix_rows(t, r), challs),
{
    let h = t.len() / 2;
    let p = round_ppoly(f, t, challs, locations, h);
    lemma_round_ppoly(f, t, challs, locations, h, 0);
    assert forall|i: int| 0 <= i < d + 1 implies #[trigger] round_poly(f, t, challs, d)[i] == peval(
        p,
        i as nat,
    ) by {
        lemma_round_ppoly(f, t, challs, locations, h, i as nat);
    }
    assert(round_poly(f, t, challs, d) =~= Seq::new(d + 1, |i: int| peval(p, i as nat)));
    lemma_bary_eval_exact(p, d, r);
    lemma_round_ppoly(f, t, challs, locations, h, r);
    let g = |b: int| expr_eval(f, line_row(t[b], t[b + h as int], r), challs);
    assert(Seq::new(h, g) =~= Seq::new(fix_rows(t, r).len(), |b: int| expr_eval(f, fix_rows(t, r)[b], challs)));
}

/// The instance's polynomials have the same value in every row.
pub open spec fn instance_constant(t: Seq<Seq<nat>>, locations: Seq<EvalLocation>) -> bool {
    forall|b: int, i: int|
        0 <= b < t.len() && 0 <= i < locations.len() && locations[i] == EvalLocation::Instance
            ==> #[trigger] t[b][i] == t[0][i]
}

/// The invariant of the honest table along the run.
pub open spec fn table_ok(t: Seq<Seq<nat>>, locations: Seq<EvalLocation>, rows: nat) -> bool {
    &&& t.len() == rows
    &&& table_wf(t, locations.len())
    &&& table_reduced(t)
    &&& instance_constant(t, locations)
}

/// Binding a variable keeps the table's shape, its values reduced and its
/// instance columns constant.
proof fn lemma_fix_rows_ok(t: Seq<Seq<nat>>, locations: Seq<EvalLocation>, r: nat, n: nat)
    requires
        n >= 1,
        table_ok(t, locations, pow2(n)),
    ensures
        table_ok(fix_rows(t, r), locations, pow2((n - 1) as nat)),
        pairs_agree(t, locations),
{
    lemma_pow2_unfold(n);
    lemma_pow2_pos((n - 1) as nat);
    let h = t.len() / 2;
    let u = fix_rows(t, r);
    let m = locations.len();
    assert forall|b: int| 0 <= b < u.len() implies #[trigger] u[b].len() == m && reduced(u[b]) by {
        assert(t[b].len() == m);
        assert(t[b + h].len() == m);
        assert forall|j: int| 0 <= j < u[b].len() implies #[trigger] u[b][j] < modulus() by {}
    }
    assert forall|b: int, i: int|
        0 <= b < u.len() && 0 <= i < m && locations[i] == EvalLocation::Instance implies #[trigger] u[b][i]
        == u[0][i] by {
        let v = t[0][i];
        assert(t[b][i] == v);
        assert(t[b + h][i] == v);
        assert(t[h as int][i] == v);
        assert(t[0].len() == m);
        assert(reduced(t[0]));
        lemma_line_constant(v, r);
    }
    assert forall|b: int| 0 <= b < h implies #[trigger] instance_agrees(t[b], t[b + h as int], locations) by {
        assert forall|i: int| 0 <= i < m && locations[i] == EvalLocation::Instance implies #[trigger] t[b][i]
            == t[b + h as int][i] by {
            assert(t[b][i] == t[0][i]);
            assert(t[b + h as int][i] == t[0][i]);
        }
    }
}

/// The first `k` rounds of the honest interaction: the verifier accepts
/// them, draws the prover's challenges, and holds as its claim the sum of
/// the function over the table bound so far.
proof fn lemma_complete_rounds(
    f: Expr,
    challs: Seq<nat>,
    d: nat,
    t: Seq<Seq<nat>>,
    s: SpongeView,
    rounds: Seq<Round>,
    next: nat,
    locations: Seq<EvalLocation>,
    n: nat,
    k: nat,
)
    requires
        nonzero_invertible(),
        1 <= d < modulus(),
        expr_degree(f, locations) <= d,
        k <= n,
        sumcheck_rounds_ok(TranscriptView { sponge: s, rounds, next }, n, d),
        sponge_reduced(s),
        table_ok(t, locations, pow2(n)),
        expr_wf(f, locations.len(), challs.len()),
        reduced(challs),
    ensures
        ({
            let p = prover_run(f, challs, d, t, s, k);
            &&& verifier_run(
                p.messages,
                d,
                rounds,
                VerifierRun { sum: table_sum(f, t, challs), challenges: seq![], sponge: s, next },
                k,
            ) == Ok::<VerifierRun, SumcheckError>(
                VerifierRun {
                    sum: table_sum(f, p.table, challs),
                    challenges: p.challenges,
                    sponge: p.sponge,
                    next: next + k,
                },
            )
            &&& table_ok(p.table, locations, pow2((n - k) as nat))
            &&& sponge_reduced(p.sponge)
        }),
    decreases k,
{
    let start = VerifierRun { sum: table_sum(f, t, challs), challenges: seq![], sponge: s, next };
    if k > 0 {
        lemma_complete_rounds(f, challs, d, t, s, rounds, next, locations, n, (k - 1) as nat);
        let q = prover_run(f, challs, d, t, s, (k - 1) as nat);
        let p = prover_run(f, challs, d, t, s, k);
        let m = round_poly(f, q.table, challs, d);
        let view = TranscriptView { sponge: s, rounds, next };
        lemma_prover_run_len(f, challs, d, t, s, (k - 1) as nat);
        lemma_prover_run_len(f, challs, d, t, s, k);
        assert forall|i: int| 0 <= i < k - 1 implies p.messages[i] == q.messages[i] by {}
        lemma_verifier_run_prefix(p.messages, q.messages, d, rounds, start, (k - 1) as nat);
        // The round is accepted by the transcript.
        lemma_sumcheck_round_at(view, n, d, (next + k - 1) as int);
        // The challenge is the prover's, and reduced.
        lemma_sponge_reduced_absorb_all(q.sponge, m);
        lemma_sponge_reduced_squeeze_n(spec_absorb_all(q.sponge, m), 1);
        let r = challenges_for(q.sponge, m, 1)[0];
        // The round's check passes.
        let rows = pow2((n - (k - 1)) as nat);
        lemma_pow2_unfold((n - (k - 1)) as nat);
        assert(q.table.len() % 2 == 0);
        lemma_round_sum(f, q.table, challs, d, locations.len());
        lemma_fix_rows_ok(q.table, locations, r, (n - (k - 1)) as nat);
        lemma_round_poly_exact(f, q.table, challs, locations, d, r);
        assert(p.messages[k - 1] == m);
        assert(m.len() == d + 1);
        assert(((n - (k - 1)) - 1) as nat == (n - k) as nat);
    }
}

/// On reduced values, the function's value is reduced.
pub proof fn lemma_expr_eval_lt(f: Expr, row: Seq<nat>, challs: Seq<nat>)
    requires
        expr_wf(f, row.len(), challs.len()),
        reduced(row),
        reduced(challs),
    ensures
        expr_eval(f, row, challs) < modulus(),
    decreases f,
{
    match f {
        Expr::Mle(i) => {},
        Expr::Challenge(i) => {},
        Expr::Add(a, b) => {},
        Expr::Sub(a, b) => {
            crate::field::lemma_fsub_lt(expr_eval(*a, row, challs), expr_eval(*b, row, challs));
        },
        Expr::Mul(a, b) => {},
        Expr::AddConst(a, c) => {},
        Expr::SubConst(a, c) => {
            crate::field::lemma_fsub_lt(expr_eval(*a, row, challs), c@);
        },
        Expr::MulConst(a, c) => {},
    }
}

/// `r * beta + (1 - r)(1 - beta)` is the line through `(0, 1 - beta)` and
/// `(1, beta)` at `r`.
pub proof fn lemma_eq_factor_line(r: nat, beta: nat)
    ensures
        crate::polynomials::eq_factor(r, beta) == line_value(fsub(1, beta), beta, r),
{
    let m = modulus() as int;
    let (x, b) = (r as int, beta as int);
    vstd::arithmetic::div_mod::lemma_mul_mod_noop_left(1 - x, (1 - b) % m, m);
    vstd::arithmetic::div_mod::lemma_mul_mod_noop_right(1 - x, 1 - b, m);
    vstd::arithmetic::div_mod::lemma_add_mod_noop(x * b, (1 - x) * (1 - b), m);
    vstd::arithmetic::div_mod::lemma_sub_mod_noop(b, 1 - b, m);
    vstd::arithmetic::div_mod::lemma_mod_twice(b, m);
    vstd::arithmetic::div_mod::lemma_mul_mod_noop_right(x, b - (1 - b), m);
    vstd::arithmetic::div_mod::lemma_add_mod_noop(x * (b - (1 - b)), 1 - b, m);
    vstd::arithmetic::div_mod::lemma_mod_bound(1 - b, m);
    vstd::arithmetic::div_mod::lemma_mod_bound(1 - x, m);
    vstd::arithmetic::div_mod::lemma_mod_bound(b - (1 - b) % m, m);
    vstd::arithmetic::div_mod::lemma_mod_bound(x * b, m);
    vstd::arithmetic::div_mod::lemma_mod_bound((1 - x) * (1 - b), m);
    vstd::arithmetic::div_mod::lemma_mod_bound(x * (b - (1 - b)), m);
    vstd::arithmetic::mul::lemma_mul_nonnegative(x, b);
    assert(x * b + (1 - x) * (1 - b) == x * (b - (1 - b)) + (1 - b)) by (nonlinear_arith);
    vstd::arithmetic::div_mod::lemma_sub_mod_noop(b, (1 - b) % m, m);
    vstd::arithmetic::div_mod::lemma_mod_twice(1 - b, m);
}

/// Completeness of the zero-sumcheck: on a table whose first polynomial is
/// the product table of the powers, the verifier accepts the honest
/// prover's messages, and its final claim divided by the powers' value at
/// the point, as the reduction's verifier computes it, is the function's
/// value on the rest of the one row left, the prover's claim; this in a
/// field, where the powers do not vanish at the point.
pub proof fn lemma_zero_sumcheck_complete(
    f: Expr,
    d: nat,
    t: Seq<Seq<nat>>,
    powers: Seq<(nat, nat)>,
    s: SpongeView,
    rounds: Seq<Round>,
    next: nat,
    locations: Seq<EvalLocation>,
)
    requires
        nonzero_invertible(),
        1 <= d < modulus(),
        expr_degree(crate::zerocheck_reduction::zerocheck_function(f), seq![EvalLocation::Witness] + locations) <= d,
        sumcheck_rounds_ok(TranscriptView { sponge: s, rounds, next }, powers.len(), d),
        sponge_reduced(s),
        t.len() == pow2(powers.len()),
        locations.len() < usize::MAX,
        table_wf(t, locations.len() + 1),
        table_reduced(t),
        instance_constant(t, seq![EvalLocation::Witness] + locations),
        crate::sumcheck::col0(t) == crate::zerocheck::hyper_prod(powers, 1),
        expr_wf(f, locations.len(), 0),
    ensures
        ({
            let g = crate::zerocheck_reduction::zerocheck_function(f);
            let p = prover_run(g, seq![], d, t, s, powers.len());
            let point = p.challenges.reverse();
            &&& verifier_run(
                p.messages,
                d,
                rounds,
                VerifierRun { sum: table_sum(g, t, seq![]), challenges: seq![], sponge: s, next },
                powers.len(),
            ) == Ok::<VerifierRun, SumcheckError>(
                VerifierRun {
                    sum: expr_eval(g, p.table[0], seq![]),
                    challenges: p.challenges,
                    sponge: p.sponge,
                    next: next + powers.len(),
                },
            )
            &&& crate::zerocheck::factors_eval(powers, point) != 0 ==> fmul(
                expr_eval(g, p.table[0], seq![]),
                crate::field::finv(crate::zerocheck::factors_eval(powers, point)),
            ) == expr_eval(f, p.table[0].skip(1), seq![])
        }),
{
    let g = crate::zerocheck_reduction::zerocheck_function(f);
    let locs = seq![EvalLocation::Witness] + locations;
    let n = powers.len();
    let c = Seq::<nat>::empty();
    crate::zerocheck_reduction::lemma_zerocheck_function_wf(f, locations);
    lemma_sumcheck_complete(g, c, d, t, s, rounds, next, locs, n);
    let p = prover_run(g, c, d, t, s, n);
    let point = p.challenges.reverse();
    lemma_last_row(f, d, t, powers, s, rounds, next, locations);
    let row = p.table[0];
    lemma_zerocheck_function_eval(f, row, locations.len());
    let fz = crate::zerocheck::factors_eval(powers, point);
    let v = expr_eval(f, row.skip(1), c);
    lemma_expr_eval_lt(f, row.skip(1), c);
    if fz != 0 {
        lemma_divide_out(fz, v);
    }
}

/// The last row of the honest zero-sumcheck: as wide as the table, reduced,
/// and beginning with the powers' value at the point.
proof fn lemma_last_row(
    f: Expr,
    d: nat,
    t: Seq<Seq<nat>>,
    powers: Seq<(nat, nat)>,
    s: SpongeView,
    rounds: Seq<Round>,
    next: nat,
    locations: Seq<EvalLocation>,
)
    requires
        nonzero_invertible(),
        1 <= d < modulus(),
        expr_degree(crate::zerocheck_reduction::zerocheck_function(f), seq![EvalLocation::Witness] + locations) <= d,
        sumcheck_rounds_ok(TranscriptView { sponge: s, rounds, next }, powers.len(), d),
        sponge_reduced(s),
        t.len() == pow2(powers.len()),
        locations.len() < usize::MAX,
        table_wf(t, locations.len() + 1),
        table_reduced(t),
        instance_constant(t, seq![EvalLocation::Witness] + locations),
        crate::sumcheck::col0(t) == crate::zerocheck::hyper_prod(powers, 1),
        expr_wf(f, locations.len(), 0),
    ensures
        ({
            let g = crate::zerocheck_reduction::zerocheck_function(f);
            let p = prover_run(g, seq![], d, t, s, powers.len());
            &&& p.table.len() == 1
            &&& p.table[0].len() == locations.len() + 1
            &&& reduced(p.table[0])
            &&& p.table[0][0] == crate::zerocheck::factors_eval(powers, p.challenges.reverse())
        }),
{
    let g = crate::zerocheck_reduction::zerocheck_function(f);
    let locs = seq![EvalLocation::Witness] + locations;
    let n = powers.len();
    let c = Seq::<nat>::empty();
    crate::zerocheck_reduction::lemma_zerocheck_function_wf(f, locations);
    lemma_complete_rounds(g, c, d, t, s, rounds, next, locs, n, n);
    let p = prover_run(g, c, d, t, s, n);
    let point = p.challenges.reverse();
    let m = locations.len();
    assert(pow2(0) == 1) by {
        vstd::arithmetic::power2::lemma2_to64();
    }
    assert((n - n) as nat == 0);
    crate::sumcheck_reduction::lemma_prover_evals(g, c, d, t, s, n, m + 1);
    crate::sumcheck::lemma_prover_run_len(g, c, d, t, s, n);
    assert(crate::sumcheck_reduction::column(t, 0) =~= crate::sumcheck::col0(t));
    crate::zerocheck::lemma_mle_of_powers(powers, 1, point);
    let fz = crate::zerocheck::factors_eval(powers, point);
    crate::algebra::lemma_fprod_lt(
        Seq::new(powers.len(), |i: int| crate::zerocheck::powers_factor(point[i], powers[i])),
    );
    crate::field::lemma_mul_one(fz);
    assert(p.table[0][0] == crate::polynomials::mle_eval(crate::sumcheck_reduction::column(t, 0), point));
}

/// The zero-sumcheck's function on a row: the row's first value times the
/// function on the rest.
proof fn lemma_zerocheck_function_eval(f: Expr, row: Seq<nat>, m: nat)
    requires
        row.len() == m + 1,
        m < usize::MAX,
        crate::sumcheck::mles_below(f, m),
    ensures
        expr_eval(crate::zerocheck_reduction::zerocheck_function(f), row, seq![]) == fmul(
            row[0],
            expr_eval(f, row.skip(1), seq![]),
        ),
{
    let c = Seq::<nat>::empty();
    let rest = row.skip(1);
    assert(row =~= seq![row[0]] + rest);
    crate::zerocheck_reduction::lemma_shift_eval(f, row[0], rest, c);
    let sh = crate::zerocheck_reduction::shift_expr(f, 1);
    let g = crate::zerocheck_reduction::zerocheck_function(f);
    assert(g == Expr::Mul(Box::new(Expr::Mle(0)), Box::new(sh)));
    assert(expr_eval(Expr::Mle(0), row, c) == row[0]);
    assert(expr_eval(sh, row, c) == expr_eval(f, rest, c));
    assert(expr_eval(g, row, c) == fmul(expr_eval(Expr::Mle(0), row, c), expr_eval(sh, row, c)));
}

/// `(a v) / a == v` for an invertible `a` and a reduced `v`.
proof fn lemma_divide_out(a: nat, v: nat)
    requires
        nonzero_invertible(),
        0 < a < modulus(),
        v < modulus(),
    ensures
        fmul(fmul(a, v), crate::field::finv(a)) == v,
{
    assert(crate::interpolation::has_inverse(a));
    let ia = crate::field::finv(a);
    assert(crate::field::is_inverse(a, ia));
    crate::field::lemma_mul_comm(a, v);
    crate::field::lemma_mul_assoc(v, a, ia);
    crate::field::lemma_mul_one(v);
}

/// Soundness of the folded claim for honest witnesses: the claim the
/// folding reduces to, the folded message at `r` divided by
/// `eq(beta, r)`, is the sum of the function over the witnesses folded at
/// `r`; this in a field, for a degree at least the function's, where
/// `eq(beta, r)` is not zero.
pub proof fn lemma_fold_claim(
    f: Expr,
    t1: Seq<Seq<nat>>,
    t2: Seq<Seq<nat>>,
    locations: Seq<EvalLocation>,
    d: nat,
    beta: nat,
    r: nat,
)
    requires
        nonzero_invertible(),
        1 <= d,
        d + 1 < modulus(),
        r < modulus(),
        expr_degree(f, locations) <= d,
        t1.len() == t2.len(),
        t1.len() >= 1,
        table_wf(t1, locations.len()),
        table_wf(t2, locations.len()),
        expr_wf(f, locations.len(), 0),
        pairs_agree(t1 + t2, locations),
        crate::polynomials::eq_factor(r, beta) != 0,
    ensures
        crate::folding::reduced_sum(
            crate::folding::folded_message(round_poly(f, t1 + t2, seq![], d), d, beta),
            d,
            beta,
            r,
        ) == table_sum(f, fix_rows(t1 + t2, r), seq![]),
{
    let t = t1 + t2;
    let c = Seq::<nat>::empty();
    let h = t.len() / 2;
    assert(h == t1.len());
    assert(table_wf(t, locations.len())) by {
        assert forall|b: int| 0 <= b < t.len() implies #[trigger] t[b].len() == locations.len() by {
            if b < t1.len() {
                assert(t[b] == t1[b]);
            } else {
                assert(t[b] == t2[b - t1.len()]);
            }
        }
    }
    assert(reduced(c));
    let p = round_ppoly(f, t, c, locations, h);
    let msg = round_poly(f, t, c, d);
    lemma_round_ppoly(f, t, c, locations, h, 0);
    assert(p.len() >= 1) by {
        lemma_round_ppoly_nonempty(f, t, c, locations, h);
    }
    assert forall|i: int| 0 <= i < d + 1 implies #[trigger] msg[i] == peval(p, i as nat) by {
        lemma_round_ppoly(f, t, c, locations, h, i as nat);
    }
    assert(msg =~= Seq::new(d + 1, |i: int| peval(p, i as nat)));
    // The extension is the polynomial's value at `d + 1`.
    lemma_bary_eval_exact(p, d, d + 1);
    let a = fsub(1, beta);
    let e = seq![a, fsub(beta, a)];
    let q = pmul(p, e);
    lemma_pmul_len(p, e);
    let fm = crate::folding::folded_message(msg, d, beta);
    assert forall|x: int| 0 <= x < d + 2 implies #[trigger] fm[x] == peval(q, x as nat) by {
        lemma_pmul(p, e, x as nat);
        lemma_peval_line(a, beta, x as nat);
        if x <= d {
            assert(msg.push(bary_eval(d, msg, d + 1))[x] == msg[x]);
        } else {
            assert(msg.push(bary_eval(d, msg, d + 1))[x] == bary_eval(d, msg, d + 1));
        }
    }
    assert(fm =~= Seq::new(d + 2, |x: int| peval(q, x as nat)));
    lemma_bary_eval_exact(q, d + 1, r);
    lemma_pmul(p, e, r);
    lemma_peval_line(a, beta, r);
    lemma_eq_factor_line(r, beta);
    // (P(r) E(r)) / E(r) = P(r)
    let pr = peval(p, r);
    let er = line_value(a, beta, r);
    assert(0 < er < modulus());
    assert(crate::interpolation::has_inverse(er));
    let ie = crate::field::finv(er);
    assert(crate::field::is_inverse(er, ie));
    crate::field::lemma_mul_assoc(pr, er, ie);
    lemma_peval_lt(p, r);
    crate::field::lemma_mul_one(pr);
    // P(r) is the sum over the folded table.
    lemma_round_ppoly(f, t, c, locations, h, r);
    let g = |b: int| expr_eval(f, line_row(t[b], t[b + h as int], r), c);
    assert(Seq::new(h, g) =~= Seq::new(fix_rows(t, r).len(), |b: int| expr_eval(f, fix_rows(t, r)[b], c)));
}

proof fn lemma_round_ppoly_nonempty(
    f: Expr,
    t: Seq<Seq<nat>>,
    challs: Seq<nat>,
    locations: Seq<EvalLocation>,
    n: nat,
)
    requires
        1 <= n <= t.len() / 2,
        table_wf(t, locations.len()),
        expr_wf(f, locations.len(), challs.len()),
        reduced(challs),
        pairs_agree(t, locations),
    ensures
        round_ppoly(f, t, challs, locations, n).len() >= 1,
{
    let h = (t.len() / 2) as int;
    let b = n - 1;
    assert(t[b].len() == locations.len());
    assert(t[b + h].len() == locations.len());
    assert(instance_agrees(t[b], t[b + h], locations));
    lemma_expr_poly(f, t[b], t[b + h], challs, locations, 0);
}

/// Completeness of the sumcheck: on the honest prover's messages for a
/// table of `2^n` rows whose claimed sum is right, the verifier accepts
/// every round, draws the prover's challenges, and ends with the claim that
/// the function's value on the one row left, the polynomials' values at
/// the point, is its final claim; this in a field (every non-zero value
/// invertible), for a degree at least the function's.
pub proof fn lemma_sumcheck_complete(
    f: Expr,
    challs: Seq<nat>,
    d: nat,
    t: Seq<Seq<nat>>,
    s: SpongeView,
    rounds: Seq<Round>,
    next: nat,
    locations: Seq<EvalLocation>,
    n: nat,
)
    requires
        nonzero_invertible(),
        1 <= d < modulus(),
        expr_degree(f, locations) <= d,
        sumcheck_rounds_ok(TranscriptView { sponge: s, rounds, next }, n, d),
        sponge_reduced(s),
        t.len() == pow2(n),
        table_wf(t, locations.len()),
        table_reduced(t),
        instance_constant(t, locations),
        expr_wf(f, locations.len(), challs.len()),
        reduced(challs),
    ensures
        ({
            let p = prover_run(f, challs, d, t, s, n);
            &&& p.table.len() == 1
            &&& verifier_run(
                p.messages,
                d,
                rounds,
                VerifierRun { sum: table_sum(f, t, challs), challenges: seq![], sponge: s, next },
                n,
            ) == Ok::<VerifierRun, SumcheckError>(
                VerifierRun {
                    sum: expr_eval(f, p.table[0], challs),
                    challenges: p.challenges,
                    sponge: p.sponge,
                    next: next + n,
                },
            )
        }),
{
    lemma_complete_rounds(f, challs, d, t, s, rounds, next, locations, n, n);
    let p = prover_run(f, challs, d, t, s, n);
    assert(pow2(0) == 1) by {
        vstd::arithmetic::power2::lemma2_to64();
    }
    assert((n - n) as nat == 0);
    assert(p.table.len() == 1);
    let g = |b: int| expr_eval(f, p.table[b], challs);
    assert(Seq::new(1, g).drop_last() =~= Seq::<nat>::empty());
    assert(reduced(p.table[0]));
    assert(p.table[0].len() == locations.len());
    lemma_expr_eval_lt(f, p.table[0], challs);
    let v = expr_eval(f, p.table[0], challs);
    lemma_add_comm(0, v);
    lemma_add_zero(v);
    assert(table_sum(f, p.table, challs) == fadd(fsum(Seq::<nat>::empty()), v));
    assert(table_sum(f, p.table, challs) == v);
}

} // verus!
