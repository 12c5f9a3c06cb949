//! What the zerocheck folding's message is: over every point `x` of
//! `0..=d + vars`, the sum over the rows of the function along the line
//! between the two witnesses' rows, weighed by the product table of the
//! lines between the two instances' powers' factors, all taken at `x`.
//!
//! The message is computed variable after variable, each step extending
//! the previous messages by one point; the extensions are exact because
//! each block of messages holds the values of a polynomial of low enough
//! degree.
use crate::algebra::{fsum, lemma_fsum_concat, lemma_fsum_scale, reduced};
use crate::barycentric::bary_eval;
use crate::completeness::{
    expr_poly, instance_agrees, lemma_eq_factor_line, lemma_expr_poly, lemma_peval_line,
};
use crate::field::{fadd, fmul, fsub, lemma_mul_assoc, lemma_mul_comm, modulus};
use crate::folding::{
    folded_message, reduced_sum, fold_block, fold_blocks, lemma_row_line_evals_len, lemma_zero_layers_len, row_line_evals,
    zero_layers, zero_message,
};
use crate::interpolation::{
    lemma_peval_lt, lemma_bary_eval_exact, lemma_padd, lemma_pmul, lemma_pmul_len, nonzero_invertible, padd, peval,
    pmul,
};
use crate::message::{line_evals, line_value};
use crate::sumcheck::{
    expr_degree, expr_eval, expr_wf, fix_rows, fold_degree, line_row, max_nat, mles_below, table_wf,
    EvalLocation, Expr,
};
use crate::zerocheck::{hyper_prod, lemma_hyper_prod_len};
use vstd::arithmetic::power2::{lemma_pow2_unfold, pow2};
use vstd::prelude::*;

verus! {

/// The line through `(0, a)` and `(1, b)`, by its coefficients.
pub open spec fn line_poly(a: nat, b: nat) -> Seq<nat> {
    seq![a, fsub(b, a)]
}

/// The polynomials as the folding variable sees them: those of the
/// structure are the same in both instances, so constant, the others move.
pub open spec fn fold_locations(locations: Seq<EvalLocation>) -> Seq<EvalLocation> {
    Seq::new(
        locations.len(),
        |i: int|
            if locations[i] == EvalLocation::Structure {
                EvalLocation::Instance
            } else {
                EvalLocation::Witness
            },
    )
}

/// What the zerocheck folding of two tables needs for its message to be
/// the weighed sum: a function of folding degree at most `d` over rows of
/// the locations' width, structure columns that agree between the two
/// tables, reduced challenges, and enough powers' factors.
#[verifier::opaque]
pub open spec fn zero_fold_ok(
    f: Expr,
    t1: Seq<Seq<nat>>,
    t2: Seq<Seq<nat>>,
    c: Seq<nat>,
    locs: Seq<EvalLocation>,
    d: nat,
    pl: Seq<(nat, nat)>,
    pr: Seq<(nat, nat)>,
    vars: nat,
) -> bool {
    &&& d >= 1
    &&& d + vars + 1 < modulus()
    &&& t1.len() == pow2(vars)
    &&& t2.len() == t1.len()
    &&& table_wf(t1, locs.len())
    &&& table_wf(t2, locs.len())
    &&& expr_wf(f, locs.len(), c.len())
    &&& reduced(c)
    &&& fold_degree(f, locs) <= d
    &&& pl.len() >= vars
    &&& pr.len() >= vars
    &&& forall|b: int, i: int|
        0 <= b < t1.len() && 0 <= i < locs.len() && locs[i] == EvalLocation::Structure
            ==> #[trigger] t1[b][i] == t2[b][i]
}

/// Block `i` of the messages after `k` variables, as a polynomial in the
/// folding variable.
pub open spec fn zero_poly(
    f: Expr,
    t1: Seq<Seq<nat>>,
    t2: Seq<Seq<nat>>,
    c: Seq<nat>,
    locs: Seq<EvalLocation>,
    pl: Seq<(nat, nat)>,
    pr: Seq<(nat, nat)>,
    k: nat,
    i: nat,
) -> Seq<nat>
    decreases k,
{
    if k == 0 {
        expr_poly(f, t1[i as int], t2[i as int], c, fold_locations(locs))
    } else {
        let j = k - 1;
        padd(
            pmul(line_poly(pl[j].1, pr[j].1), zero_poly(f, t1, t2, c, locs, pl, pr, (k - 1) as nat, 2 * i)),
            pmul(
                line_poly(pl[j].0, pr[j].0),
                zero_poly(f, t1, t2, c, locs, pl, pr, (k - 1) as nat, 2 * i + 1),
            ),
        )
    }
}

/// The lines between the two instances' powers' factors, at `x`, as
/// factors of a product table.
pub open spec fn lines_at(pl: Seq<(nat, nat)>, pr: Seq<(nat, nat)>, x: nat, vars: nat) -> Seq<(nat, nat)> {
    Seq::new(vars, |j: int| (line_value(pl[j].0, pr[j].0, x), line_value(pl[j].1, pr[j].1, x)))
}

/// The function along the line between row `b` of the two tables, at `x`.
pub open spec fn row_value(f: Expr, t1: Seq<Seq<nat>>, t2: Seq<Seq<nat>>, c: Seq<nat>, b: int, x: nat) -> nat {
    expr_eval(f, line_row(t1[b], t2[b], x), c)
}

/// The weighed sum over the rows `i * 2^k .. (i + 1) * 2^k` of the function
/// along the lines, weighed by the product table of the first `k` lines of
/// the powers, at `x`.
pub open spec fn block_sum(
    f: Expr,
    t1: Seq<Seq<nat>>,
    t2: Seq<Seq<nat>>,
    c: Seq<nat>,
    pl: Seq<(nat, nat)>,
    pr: Seq<(nat, nat)>,
    k: nat,
    i: nat,
    x: nat,
) -> nat {
    let w = hyper_prod(lines_at(pl, pr, x, k), 1);
    fsum(Seq::new(pow2(k), |b: int| fmul(w[b], row_value(f, t1, t2, c, i * pow2(k) + b, x))))
}

/// The structure's polynomials are constant in the folding variable.
proof fn lemma_fold_locations_degree(f: Expr, locs: Seq<EvalLocation>)
    requires
        mles_below(f, locs.len()),
    ensures
        expr_degree(f, fold_locations(locs)) == fold_degree(f, locs),
    decreases f,
{
    match f {
        Expr::Mle(_) => {},
        Expr::Challenge(_) => {},
        Expr::Add(a, b) => {
            lemma_fold_locations_degree(*a, locs);
            lemma_fold_locations_degree(*b, locs);
        },
        Expr::Sub(a, b) => {
            lemma_fold_locations_degree(*a, locs);
            lemma_fold_locations_degree(*b, locs);
        },
        Expr::Mul(a, b) => {
            lemma_fold_locations_degree(*a, locs);
            lemma_fold_locations_degree(*b, locs);
        },
        Expr::AddConst(a, _) => lemma_fold_locations_degree(*a, locs),
        Expr::SubConst(a, _) => lemma_fold_locations_degree(*a, locs),
        Expr::MulConst(a, _) => lemma_fold_locations_degree(*a, locs),
    }
}

/// Along the line between a row of each table, the function is the base
/// polynomial, of degree at most `d`.
proof fn lemma_base_poly(
    f: Expr,
    t1: Seq<Seq<nat>>,
    t2: Seq<Seq<nat>>,
    c: Seq<nat>,
    locs: Seq<EvalLocation>,
    d: nat,
    pl: Seq<(nat, nat)>,
    pr: Seq<(nat, nat)>,
    vars: nat,
    b: int,
    x: nat,
)
    requires
        zero_fold_ok(f, t1, t2, c, locs, d, pl, pr, vars),
        0 <= b < t1.len(),
    ensures
        peval(zero_poly(f, t1, t2, c, locs, pl, pr, 0, b as nat), x) == row_value(f, t1, t2, c, b, x),
        1 <= zero_poly(f, t1, t2, c, locs, pl, pr, 0, b as nat).len() <= d + 1,
{
    reveal(zero_fold_ok);
    let fl = fold_locations(locs);
    assert(t1[b].len() == locs.len());
    assert(t2[b].len() == locs.len());
    assert(instance_agrees(t1[b], t2[b], fl)) by {
        assert forall|i: int| 0 <= i < fl.len() && fl[i] == EvalLocation::Instance implies #[trigger] t1[b][i]
            == t2[b][i] by {
            assert(locs[i] == EvalLocation::Structure);
        }
    }
    lemma_expr_poly(f, t1[b], t2[b], c, fl, x);
    lemma_fold_locations_degree(f, locs);
}

/// The blocks' polynomials have degree at most `d + k`.
proof fn lemma_zero_poly_len(
    f: Expr,
    t1: Seq<Seq<nat>>,
    t2: Seq<Seq<nat>>,
    c: Seq<nat>,
    locs: Seq<EvalLocation>,
    d: nat,
    pl: Seq<(nat, nat)>,
    pr: Seq<(nat, nat)>,
    vars: nat,
    k: nat,
    i: nat,
)
    requires
        zero_fold_ok(f, t1, t2, c, locs, d, pl, pr, vars),
        k <= vars,
        i < pow2((vars - k) as nat),
    ensures
        1 <= zero_poly(f, t1, t2, c, locs, pl, pr, k, i).len() <= d + k + 1,
    decreases k,
{
    if k == 0 {
        assert(t1.len() == pow2(vars)) by {
            reveal(zero_fold_ok);
        }
        lemma_base_poly(f, t1, t2, c, locs, d, pl, pr, vars, i as int, 0);
    } else {
        lemma_pow2_unfold((vars - k + 1) as nat);
        assert(pow2((vars - (k - 1)) as nat) == 2 * pow2((vars - k) as nat));
        lemma_zero_poly_len(f, t1, t2, c, locs, d, pl, pr, vars, (k - 1) as nat, 2 * i);
        lemma_zero_poly_len(f, t1, t2, c, locs, d, pl, pr, vars, (k - 1) as nat, 2 * i + 1);
        let j = k - 1;
        let c0 = zero_poly(f, t1, t2, c, locs, pl, pr, (k - 1) as nat, 2 * i);
        let c1 = zero_poly(f, t1, t2, c, locs, pl, pr, (k - 1) as nat, 2 * i + 1);
        lemma_pmul_len(line_poly(pl[j].1, pr[j].1), c0);
        lemma_pmul_len(line_poly(pl[j].0, pr[j].0), c1);
    }
}

/// The rows' values, one block of `d + 1` per row.
proof fn lemma_row_line_evals_at(
    f: Expr,
    t1: Seq<Seq<nat>>,
    t2: Seq<Seq<nat>>,
    c: Seq<nat>,
    d: nat,
    n: nat,
    i: nat,
    x: nat,
)
    requires
        i < n,
        x <= d,
    ensures
        i * (d + 1) + x < row_line_evals(f, t1, t2, c, d, n).len(),
        row_line_evals(f, t1, t2, c, d, n)[(i * (d + 1) + x) as int] == row_value(f, t1, t2, c, i as int, x),
    decreases n,
{
    lemma_row_line_evals_len(f, t1, t2, c, d, (n - 1) as nat);
    lemma_row_line_evals_len(f, t1, t2, c, d, n);
    if i == n - 1 {
        assert(i * (d + 1) == (n - 1) * (d + 1));
    } else {
        lemma_row_line_evals_at(f, t1, t2, c, d, (n - 1) as nat, i, x);
    }
}

/// The folded blocks, one after the other, each of `s + 1` values.
proof fn lemma_fold_blocks_at(
    msgs: Seq<nat>,
    s: nat,
    pe: Seq<nat>,
    po: Seq<nat>,
    pel: nat,
    pol: nat,
    count: nat,
    i: nat,
    x: nat,
)
    requires
        i < count,
        x <= s,
    ensures
        i * (s + 1) + x < fold_blocks(msgs, s, pe, po, pel, pol, count).len(),
        fold_blocks(msgs, s, pe, po, pel, pol, count)[(i * (s + 1) + x) as int] == fold_block(
            msgs,
            s,
            i,
            pe,
            po,
            pel,
            pol,
        )[x as int],
    decreases count,
{
    crate::folding::lemma_fold_blocks_len(msgs, s, pe, po, pel, pol, (count - 1) as nat);
    crate::folding::lemma_fold_blocks_len(msgs, s, pe, po, pel, pol, count);
    if i == count - 1 {
        assert(i * (s + 1) == (count - 1) * (s + 1));
    } else {
        lemma_fold_blocks_at(msgs, s, pe, po, pel, pol, (count - 1) as nat, i, x);
    }
}

/// The line's values over `0..=e` are those of its polynomial, and its
/// extension is exact.
proof fn lemma_line_ext(a: nat, b: nat, e: nat)
    requires
        nonzero_invertible(),
        1 <= e,
        e + 1 < modulus(),
    ensures
        line_evals(a, b, e) == Seq::new(e + 1, |y: int| peval(line_poly(a, b), y as nat)),
        bary_eval(e, line_evals(a, b, e), e + 1) == peval(line_poly(a, b), e + 1),
{
    assert forall|y: int| 0 <= y < e + 1 implies #[trigger] line_evals(a, b, e)[y] == peval(line_poly(a, b), y as nat) by {
        lemma_peval_line(a, b, y as nat);
    }
    assert(line_evals(a, b, e) =~= Seq::new(e + 1, |y: int| peval(line_poly(a, b), y as nat)));
    lemma_bary_eval_exact(line_poly(a, b), e, e + 1);
}

/// The step of the messages for variable `k - 1`: the previous messages
/// folded in `2^(vars - k)` blocks.
proof fn lemma_zero_layers_step(
    m0: Seq<nat>,
    pl: Seq<(nat, nat)>,
    pr: Seq<(nat, nat)>,
    d: nat,
    vars: nat,
    k: nat,
)
    requires
        1 <= k <= vars,
        m0.len() == pow2(vars) * (d + 1),
    ensures
        ({
            let j = k - 1;
            let e = (d + j) as nat;
            let pe = line_evals(pl[j].1, pr[j].1, e);
            let po = line_evals(pl[j].0, pr[j].0, e);
            let prev = zero_layers(m0, pl, pr, d, (k - 1) as nat);
            &&& prev.len() == (2 * pow2((vars - k) as nat)) * (e + 1)
            &&& zero_layers(m0, pl, pr, d, k) == fold_blocks(
                prev,
                e + 1,
                pe,
                po,
                bary_eval(e, pe, e + 1),
                bary_eval(e, po, e + 1),
                pow2((vars - k) as nat),
            )
        }),
{
    let e = (d + k - 1) as nat;
    let s = e + 1;
    let prev = zero_layers(m0, pl, pr, d, (k - 1) as nat);
    let q = pow2((vars - k) as nat);
    lemma_pow2_unfold((vars - k + 1) as nat);
    assert(pow2((vars - (k - 1)) as nat) == 2 * q);
    lemma_zero_layers_len(m0, pl, pr, d, vars, (k - 1) as nat);
    assert(prev.len() == (2 * q) * s);
    assert(prev.len() / s == 2 * q) by {
        vstd::arithmetic::div_mod::lemma_div_multiples_vanish((2 * q) as int, s as int);
        assert(s * (2 * q) == (2 * q) * s) by (nonlinear_arith);
    }
}

/// A folded block's value from the polynomials of its two halves: at a
/// point of the halves' domain, and at the point just past it.
proof fn lemma_fold_block_poly(
    prev: Seq<nat>,
    s: nat,
    i: nat,
    a: nat,
    b: nat,
    a2: nat,
    b2: nat,
    c0: Seq<nat>,
    c1: Seq<nat>,
    x: nat,
)
    requires
        nonzero_invertible(),
        2 <= s,
        s + 1 < modulus(),
        x <= s,
        (2 * i + 2) * s <= prev.len(),
        c0.len() <= s,
        c1.len() <= s,
        forall|y: int| 0 <= y < s ==> #[trigger] prev[(2 * i) * s + y] == peval(c0, y as nat),
        forall|y: int| 0 <= y < s ==> #[trigger] prev[(2 * i + 1) * s + y] == peval(c1, y as nat),
    ensures
        ({
            let e = (s - 1) as nat;
            let pe = line_evals(a, b, e);
            let po = line_evals(a2, b2, e);
            fold_block(prev, s, i, pe, po, bary_eval(e, pe, e + 1), bary_eval(e, po, e + 1))[x as int]
                == peval(padd(pmul(line_poly(a, b), c0), pmul(line_poly(a2, b2), c1)), x)
        }),
{
    let e = (s - 1) as nat;
    let l0 = line_poly(a, b);
    let l1 = line_poly(a2, b2);
    let off = (2 * i * s) as int;
    let m0b = prev.subrange(off, off + s);
    let m1b = prev.subrange(off + s, off + 2 * s);
    assert(2 * i * s == (2 * i) * s) by (nonlinear_arith);
    assert(2 * i * s + s == (2 * i + 1) * s) by (nonlinear_arith);
    assert((2 * i + 2) * s == 2 * i * s + 2 * s) by (nonlinear_arith);
    assert(off + 2 * s <= prev.len());
    assert forall|y: int| 0 <= y < s implies #[trigger] m0b[y] == peval(c0, y as nat) by {
        assert(m0b[y] == prev[(2 * i) * s + y]);
    }
    assert forall|y: int| 0 <= y < s implies #[trigger] m1b[y] == peval(c1, y as nat) by {
        assert(m1b[y] == prev[(2 * i + 1) * s + y]);
    }
    lemma_padd(pmul(l0, c0), pmul(l1, c1), x);
    lemma_pmul(l0, c0, x);
    lemma_pmul(l1, c1, x);
    lemma_mul_comm(peval(l0, x), peval(c0, x));
    lemma_mul_comm(peval(l1, x), peval(c1, x));
    if x < s {
        lemma_peval_line(a, b, x);
        lemma_peval_line(a2, b2, x);
    } else {
        lemma_line_ext(a, b, e);
        lemma_line_ext(a2, b2, e);
        assert(m0b =~= Seq::new(e + 1, |y: int| peval(c0, y as nat)));
        assert(m1b =~= Seq::new(e + 1, |y: int| peval(c1, y as nat)));
        lemma_bary_eval_exact(c0, e, e + 1);
        lemma_bary_eval_exact(c1, e, e + 1);
    }
}

/// The step of `lemma_zero_layers_poly`, from the two halves' values.
proof fn lemma_zero_layers_poly_step(
    m0: Seq<nat>,
    f: Expr,
    t1: Seq<Seq<nat>>,
    t2: Seq<Seq<nat>>,
    c: Seq<nat>,
    locs: Seq<EvalLocation>,
    d: nat,
    pl: Seq<(nat, nat)>,
    pr: Seq<(nat, nat)>,
    vars: nat,
    k: nat,
    i: nat,
    x: nat,
)
    requires
        nonzero_invertible(),
        d >= 1,
        d + vars + 1 < modulus(),
        1 <= k <= vars,
        i < pow2((vars - k) as nat),
        x <= d + k,
        m0.len() == pow2(vars) * (d + 1),
        zero_poly(f, t1, t2, c, locs, pl, pr, (k - 1) as nat, 2 * i).len() <= d + k,
        zero_poly(f, t1, t2, c, locs, pl, pr, (k - 1) as nat, 2 * i + 1).len() <= d + k,
        forall|y: int|
            0 <= y < d + k ==> #[trigger] zero_layers(m0, pl, pr, d, (k - 1) as nat)[(2 * i) * (d + k) + y]
                == peval(zero_poly(f, t1, t2, c, locs, pl, pr, (k - 1) as nat, 2 * i), y as nat),
        forall|y: int|
            0 <= y < d + k ==> #[trigger] zero_layers(m0, pl, pr, d, (k - 1) as nat)[(2 * i + 1) * (d + k) + y]
                == peval(zero_poly(f, t1, t2, c, locs, pl, pr, (k - 1) as nat, 2 * i + 1), y as nat),
    ensures
        i * (d + k + 1) + x < zero_layers(m0, pl, pr, d, k).len(),
        zero_layers(m0, pl, pr, d, k)[(i * (d + k + 1) + x) as int] == peval(
            zero_poly(f, t1, t2, c, locs, pl, pr, k, i),
            x,
        ),
{
    let j = k - 1;
    let e = (d + j) as nat;
    let s = e + 1;
    let q = pow2((vars - k) as nat);
    let prev = zero_layers(m0, pl, pr, d, (k - 1) as nat);
    let pe = line_evals(pl[j].1, pr[j].1, e);
    let po = line_evals(pl[j].0, pr[j].0, e);
    lemma_zero_layers_step(m0, pl, pr, d, vars, k);
    lemma_fold_blocks_at(prev, s, pe, po, bary_eval(e, pe, e + 1), bary_eval(e, po, e + 1), q, i, x);
    assert(d + k + 1 == s + 1);
    assert((2 * i + 2) * s <= prev.len()) by (nonlinear_arith)
        requires
            i < q,
            prev.len() == (2 * q) * s,
    ;
    let c0 = zero_poly(f, t1, t2, c, locs, pl, pr, (k - 1) as nat, 2 * i);
    let c1 = zero_poly(f, t1, t2, c, locs, pl, pr, (k - 1) as nat, 2 * i + 1);
    lemma_fold_block_poly(prev, s, i, pl[j].1, pr[j].1, pl[j].0, pr[j].0, c0, c1, x);
}

/// Block `i` of the messages after `k` variables holds, over `0..=d + k`,
/// the values of its polynomial.
pub proof fn lemma_zero_layers_poly(
    f: Expr,
    t1: Seq<Seq<nat>>,
    t2: Seq<Seq<nat>>,
    c: Seq<nat>,
    locs: Seq<EvalLocation>,
    d: nat,
    pl: Seq<(nat, nat)>,
    pr: Seq<(nat, nat)>,
    vars: nat,
    k: nat,
    i: nat,
    x: nat,
)
    requires
        nonzero_invertible(),
        zero_fold_ok(f, t1, t2, c, locs, d, pl, pr, vars),
        k <= vars,
        i < pow2((vars - k) as nat),
        x <= d + k,
    ensures
        i * (d + k + 1) + x < zero_layers(row_line_evals(f, t1, t2, c, d, t1.len()), pl, pr, d, k).len(),
        zero_layers(row_line_evals(f, t1, t2, c, d, t1.len()), pl, pr, d, k)[(i * (d + k + 1) + x) as int]
            == peval(zero_poly(f, t1, t2, c, locs, pl, pr, k, i), x),
    decreases k,
{
    let m0 = row_line_evals(f, t1, t2, c, d, t1.len());
    assert(d >= 1 && d + vars + 1 < modulus() && t1.len() == pow2(vars)) by {
        reveal(zero_fold_ok);
    }
    lemma_row_line_evals_len(f, t1, t2, c, d, t1.len());
    if k == 0 {
        lemma_row_line_evals_at(f, t1, t2, c, d, t1.len(), i, x);
        lemma_base_poly(f, t1, t2, c, locs, d, pl, pr, vars, i as int, x);
        assert(d + k + 1 == d + 1);
    } else {
        let km = (k - 1) as nat;
        lemma_pow2_unfold((vars - k + 1) as nat);
        assert(pow2((vars - km) as nat) == 2 * pow2((vars - k) as nat));
        assert(d + km + 1 == d + k);
        assert forall|y: int| 0 <= y < d + k implies #[trigger] zero_layers(m0, pl, pr, d, km)[(2 * i)
            * (d + k) + y] == peval(zero_poly(f, t1, t2, c, locs, pl, pr, km, 2 * i), y as nat) by {
            lemma_zero_layers_poly(f, t1, t2, c, locs, d, pl, pr, vars, km, 2 * i, y as nat);
        }
        assert forall|y: int| 0 <= y < d + k implies #[trigger] zero_layers(m0, pl, pr, d, km)[(2 * i
            + 1) * (d + k) + y] == peval(zero_poly(f, t1, t2, c, locs, pl, pr, km, 2 * i + 1), y as nat) by {
            lemma_zero_layers_poly(f, t1, t2, c, locs, d, pl, pr, vars, km, 2 * i + 1, y as nat);
        }
        lemma_zero_poly_len(f, t1, t2, c, locs, d, pl, pr, vars, km, 2 * i);
        lemma_zero_poly_len(f, t1, t2, c, locs, d, pl, pr, vars, km, 2 * i + 1);
        lemma_zero_layers_poly_step(m0, f, t1, t2, c, locs, d, pl, pr, vars, k, i, x);
    }
}

/// The product table of the first `k` lines, from that of the first
/// `k - 1`: the previous table times the line at zero, then times the line
/// at one.
proof fn lemma_lines_table_step(pl: Seq<(nat, nat)>, pr: Seq<(nat, nat)>, x: nat, k: nat)
    requires
        k >= 1,
    ensures
        ({
            let w = hyper_prod(lines_at(pl, pr, x, (k - 1) as nat), 1);
            let l = lines_at(pl, pr, x, k)[k - 1];
            &&& hyper_prod(lines_at(pl, pr, x, k), 1) == w.map_values(|v: nat| fmul(v, l.1)) + w.map_values(
                |v: nat| fmul(v, l.0),
            )
            &&& w.len() == pow2((k - 1) as nat)
            &&& l == (line_value(pl[k - 1].0, pr[k - 1].0, x), line_value(pl[k - 1].1, pr[k - 1].1, x))
        }),
{
    assert(lines_at(pl, pr, x, k).drop_last() =~= lines_at(pl, pr, x, (k - 1) as nat));
    lemma_hyper_prod_len(lines_at(pl, pr, x, (k - 1) as nat), 1);
}

/// A block of one row: its polynomial is the function along the line.
proof fn lemma_block_sum_base(
    f: Expr,
    t1: Seq<Seq<nat>>,
    t2: Seq<Seq<nat>>,
    c: Seq<nat>,
    locs: Seq<EvalLocation>,
    d: nat,
    pl: Seq<(nat, nat)>,
    pr: Seq<(nat, nat)>,
    vars: nat,
    i: nat,
    x: nat,
)
    requires
        zero_fold_ok(f, t1, t2, c, locs, d, pl, pr, vars),
        i < pow2(vars),
    ensures
        peval(zero_poly(f, t1, t2, c, locs, pl, pr, 0, i), x) == block_sum(f, t1, t2, c, pl, pr, 0, i, x),
{
    assert(t1.len() == pow2(vars)) by {
        reveal(zero_fold_ok);
    }
    lemma_base_poly(f, t1, t2, c, locs, d, pl, pr, vars, i as int, x);
    crate::interpolation::lemma_peval_lt(zero_poly(f, t1, t2, c, locs, pl, pr, 0, i), x);
    let rv = row_value(f, t1, t2, c, i as int, x);
    assert(pow2(0) == 1) by {
        vstd::arithmetic::power2::lemma2_to64();
    }
    assert(hyper_prod(lines_at(pl, pr, x, 0), 1) == seq![1nat]);
    let w = hyper_prod(lines_at(pl, pr, x, 0), 1);
    let t = Seq::new(pow2(0), |b: int| fmul(w[b], row_value(f, t1, t2, c, i * pow2(0) + b, x)));
    assert(t.len() == 1);
    assert(i * pow2(0) + 0 == i);
    assert(t[0] == fmul(1, rv));
    assert(t.drop_last() =~= Seq::<nat>::empty());
    assert(fsum(t.drop_last()) == 0);
    assert(t.last() == t[0]);
    assert(fsum(t) == fadd(0, t[0]));
    crate::field::lemma_mul_one(rv);
    crate::field::lemma_add_zero(rv);
    assert(block_sum(f, t1, t2, c, pl, pr, 0, i, x) == fsum(t));
}

/// Each block's polynomial is, at every point, the weighed sum over its
/// rows of the function along the lines, weighed by the product table of
/// the powers' lines.
pub proof fn lemma_block_sum_poly(
    f: Expr,
    t1: Seq<Seq<nat>>,
    t2: Seq<Seq<nat>>,
    c: Seq<nat>,
    locs: Seq<EvalLocation>,
    d: nat,
    pl: Seq<(nat, nat)>,
    pr: Seq<(nat, nat)>,
    vars: nat,
    k: nat,
    i: nat,
    x: nat,
)
    requires
        zero_fold_ok(f, t1, t2, c, locs, d, pl, pr, vars),
        k <= vars,
        i < pow2((vars - k) as nat),
    ensures
        peval(zero_poly(f, t1, t2, c, locs, pl, pr, k, i), x) == block_sum(f, t1, t2, c, pl, pr, k, i, x),
    decreases k,
{
    if k == 0 {
        lemma_block_sum_base(f, t1, t2, c, locs, d, pl, pr, vars, i, x);
    } else {
        let km = (k - 1) as nat;
        let j = km as int;
        lemma_pow2_unfold((vars - k + 1) as nat);
        assert(pow2((vars - km) as nat) == 2 * pow2((vars - k) as nat));
        lemma_block_sum_poly(f, t1, t2, c, locs, d, pl, pr, vars, km, 2 * i, x);
        lemma_block_sum_poly(f, t1, t2, c, locs, d, pl, pr, vars, km, 2 * i + 1, x);
        let l0 = line_poly(pl[j].1, pr[j].1);
        let l1 = line_poly(pl[j].0, pr[j].0);
        let c0 = zero_poly(f, t1, t2, c, locs, pl, pr, km, 2 * i);
        let c1 = zero_poly(f, t1, t2, c, locs, pl, pr, km, 2 * i + 1);
        lemma_padd(pmul(l0, c0), pmul(l1, c1), x);
        lemma_pmul(l0, c0, x);
        lemma_pmul(l1, c1, x);
        lemma_peval_line(pl[j].1, pr[j].1, x);
        lemma_peval_line(pl[j].0, pr[j].0, x);
        let a1 = line_value(pl[j].1, pr[j].1, x);
        let a0 = line_value(pl[j].0, pr[j].0, x);
        let s0 = block_sum(f, t1, t2, c, pl, pr, km, 2 * i, x);
        let s1 = block_sum(f, t1, t2, c, pl, pr, km, 2 * i + 1, x);
        assert(peval(zero_poly(f, t1, t2, c, locs, pl, pr, k, i), x) == fadd(fmul(a1, s0), fmul(a0, s1)));
        lemma_block_sum_split(f, t1, t2, c, pl, pr, k, i, x);
    }
}

/// A block's weighed sum splits into its two halves', each weighed by the
/// line of the block's variable at zero and at one.
proof fn lemma_block_sum_split(
    f: Expr,
    t1: Seq<Seq<nat>>,
    t2: Seq<Seq<nat>>,
    c: Seq<nat>,
    pl: Seq<(nat, nat)>,
    pr: Seq<(nat, nat)>,
    k: nat,
    i: nat,
    x: nat,
)
    requires
        k >= 1,
    ensures
        block_sum(f, t1, t2, c, pl, pr, k, i, x) == fadd(
            fmul(line_value(pl[k - 1].1, pr[k - 1].1, x), block_sum(f, t1, t2, c, pl, pr, (k - 1) as nat, 2 * i, x)),
            fmul(
                line_value(pl[k - 1].0, pr[k - 1].0, x),
                block_sum(f, t1, t2, c, pl, pr, (k - 1) as nat, 2 * i + 1, x),
            ),
        ),
{
    let km = (k - 1) as nat;
    let a1 = line_value(pl[k - 1].1, pr[k - 1].1, x);
    let a0 = line_value(pl[k - 1].0, pr[k - 1].0, x);
    let s0 = block_sum(f, t1, t2, c, pl, pr, km, 2 * i, x);
    let s1 = block_sum(f, t1, t2, c, pl, pr, km, 2 * i + 1, x);
        lemma_lines_table_step(pl, pr, x, k);
        let w = hyper_prod(lines_at(pl, pr, x, km), 1);
        let wk = hyper_prod(lines_at(pl, pr, x, k), 1);
        let n = pow2(km);
        lemma_pow2_unfold(k);
        assert(pow2(k) == 2 * n);
        let rv = |b: int| row_value(f, t1, t2, c, b, x);
        let whole = Seq::new(pow2(k), |b: int| fmul(wk[b], row_value(f, t1, t2, c, i * pow2(k) + b, x)));
        let a = Seq::new(n, |b: int| fmul(fmul(w[b], a1), row_value(f, t1, t2, c, (2 * i) * n + b, x)));
        let bb = Seq::new(n, |b: int| fmul(fmul(w[b], a0), row_value(f, t1, t2, c, (2 * i + 1) * n + b, x)));
        assert(whole =~= a + bb) by {
            assert forall|b: int| 0 <= b < 2 * n implies #[trigger] whole[b] == (a + bb)[b] by {
                if b < n {
                    assert(wk[b] == fmul(w[b], a1));
                    assert(i * (2 * n) + b == (2 * i) * n + b) by (nonlinear_arith);
                } else {
                    assert(wk[b] == fmul(w[b - n], a0));
                    assert(i * (2 * n) + b == (2 * i + 1) * n + (b - n)) by (nonlinear_arith);
                }
            }
        }
        lemma_fsum_concat(a, bb);
        let a_in = Seq::new(n, |b: int| fmul(w[b], row_value(f, t1, t2, c, (2 * i) * n + b, x)));
        let b_in = Seq::new(n, |b: int| fmul(w[b], row_value(f, t1, t2, c, (2 * i + 1) * n + b, x)));
        assert forall|b: int| 0 <= b < n implies #[trigger] a[b] == fmul(a1, a_in[b]) by {
            lemma_mul_comm(w[b], a1);
            lemma_mul_assoc(a1, w[b], row_value(f, t1, t2, c, (2 * i) * n + b, x));
        }
        assert forall|b: int| 0 <= b < n implies #[trigger] bb[b] == fmul(a0, b_in[b]) by {
            lemma_mul_comm(w[b], a0);
            lemma_mul_assoc(a0, w[b], row_value(f, t1, t2, c, (2 * i + 1) * n + b, x));
        }
        lemma_fsum_scale(a_in, a1, a);
        lemma_fsum_scale(b_in, a0, bb);
    assert(s0 == fsum(a_in));
    assert(s1 == fsum(b_in));
}

/// The zerocheck folding's message: at every point `x` of `0..=d + vars`,
/// the sum over the rows of the function along the line between the two
/// tables' rows, weighed by the product table of the lines between the two
/// instances' powers' factors, all at `x`. That the extensions are exact
/// rests on every non-zero value being invertible.
pub proof fn lemma_zero_message(
    f: Expr,
    t1: Seq<Seq<nat>>,
    t2: Seq<Seq<nat>>,
    c: Seq<nat>,
    locs: Seq<EvalLocation>,
    d: nat,
    pl: Seq<(nat, nat)>,
    pr: Seq<(nat, nat)>,
    vars: nat,
)
    requires
        nonzero_invertible(),
        zero_fold_ok(f, t1, t2, c, locs, d, pl, pr, vars),
    ensures
        zero_message(f, t1, t2, c, d, pl, pr, vars).len() == d + vars + 1,
        forall|x: nat|
            x <= d + vars ==> #[trigger] zero_message(f, t1, t2, c, d, pl, pr, vars)[x as int] == fsum(
                Seq::new(
                    pow2(vars),
                    |b: int| fmul(hyper_prod(lines_at(pl, pr, x, vars), 1)[b], row_value(f, t1, t2, c, b, x)),
                ),
            ),
{
    let m0 = row_line_evals(f, t1, t2, c, d, t1.len());
    assert(t1.len() == pow2(vars)) by {
        reveal(zero_fold_ok);
    }
    lemma_row_line_evals_len(f, t1, t2, c, d, t1.len());
    lemma_zero_layers_len(m0, pl, pr, d, vars, vars);
    assert(pow2(0) == 1) by {
        vstd::arithmetic::power2::lemma2_to64();
    }
    assert((vars - vars) as nat == 0);
    assert(1 * (d + vars + 1) == d + vars + 1);
    assert forall|x: nat| x <= d + vars implies #[trigger] zero_message(f, t1, t2, c, d, pl, pr, vars)[x as int]
        == fsum(
        Seq::new(
            pow2(vars),
            |b: int| fmul(hyper_prod(lines_at(pl, pr, x, vars), 1)[b], row_value(f, t1, t2, c, b, x)),
        ),
    ) by {
        lemma_zero_layers_poly(f, t1, t2, c, locs, d, pl, pr, vars, vars, 0, x);
        lemma_block_sum_poly(f, t1, t2, c, locs, d, pl, pr, vars, vars, 0, x);
        assert(0 * (d + vars + 1) + x == x);
        let w = hyper_prod(lines_at(pl, pr, x, vars), 1);
        assert(Seq::new(pow2(vars), |b: int| fmul(w[b], row_value(f, t1, t2, c, 0 * pow2(vars) + b, x)))
            =~= Seq::new(pow2(vars), |b: int| fmul(w[b], row_value(f, t1, t2, c, b, x))));
    }
}

/// The claim the zerocheck folding reduces to, the folded message at the
/// round's challenge `r` divided by `eq(beta, r)`, is the zerocheck sum of
/// the witness folded at `r`, weighed by the product table of the powers
/// folded at `r` (each factor on the line from the first instance's to the
/// second's); this in a field, where `eq(beta, r)` is not zero.
pub proof fn lemma_zero_fold_claim(
    f: Expr,
    t1: Seq<Seq<nat>>,
    t2: Seq<Seq<nat>>,
    c: Seq<nat>,
    locs: Seq<EvalLocation>,
    d: nat,
    pl: Seq<(nat, nat)>,
    pr: Seq<(nat, nat)>,
    vars: nat,
    beta: nat,
    r: nat,
)
    requires
        nonzero_invertible(),
        zero_fold_ok(f, t1, t2, c, locs, d, pl, pr, vars),
        r < modulus(),
        crate::polynomials::eq_factor(r, beta) != 0,
    ensures
        reduced_sum(
            folded_message(zero_message(f, t1, t2, c, d, pl, pr, vars), d + vars, beta),
            d + vars,
            beta,
            r,
        ) == fsum(
            Seq::new(
                pow2(vars),
                |b: int| fmul(hyper_prod(lines_at(pl, pr, r, vars), 1)[b], expr_eval(f, fix_rows(t1 + t2, r)[b], c)),
            ),
        ),
{
    let dd = d + vars;
    assert(d + vars + 1 < modulus() && t1.len() == pow2(vars) && t2.len() == t1.len()) by {
        reveal(zero_fold_ok);
    }
    let m = zero_message(f, t1, t2, c, d, pl, pr, vars);
    let p = zero_poly(f, t1, t2, c, locs, pl, pr, vars, 0);
    lemma_zero_message(f, t1, t2, c, locs, d, pl, pr, vars);
    assert(0 < pow2((vars - vars) as nat)) by {
        vstd::arithmetic::power2::lemma_pow2_pos(0);
    }
    lemma_zero_poly_len(f, t1, t2, c, locs, d, pl, pr, vars, vars, 0);
    assert forall|x: int| 0 <= x < dd + 1 implies #[trigger] m[x] == peval(p, x as nat) by {
        lemma_zero_layers_poly(f, t1, t2, c, locs, d, pl, pr, vars, vars, 0, x as nat);
        assert(0 * (d + vars + 1) + x == x);
    }
    assert(m =~= Seq::new(dd + 1, |i: int| peval(p, i as nat)));
    // The extension is the polynomial's value at `d + vars + 1`.
    lemma_bary_eval_exact(p, dd, dd + 1);
    let a = fsub(1, beta);
    let e = seq![a, fsub(beta, a)];
    let q = pmul(p, e);
    lemma_pmul_len(p, e);
    let fm = folded_message(m, dd, beta);
    assert forall|x: int| 0 <= x < dd + 2 implies #[trigger] fm[x] == peval(q, x as nat) by {
        lemma_pmul(p, e, x as nat);
        lemma_peval_line(a, beta, x as nat);
        if x <= dd {
            assert(m.push(bary_eval(dd, m, dd + 1))[x] == m[x]);
        } else {
            assert(m.push(bary_eval(dd, m, dd + 1))[x] == bary_eval(dd, m, dd + 1));
        }
    }
    assert(fm =~= Seq::new(dd + 2, |x: int| peval(q, x as nat)));
    lemma_bary_eval_exact(q, dd + 1, r);
    lemma_pmul(p, e, r);
    lemma_peval_line(a, beta, r);
    lemma_eq_factor_line(r, beta);
    // (P(r) E(r)) / E(r) = P(r)
    let pv = peval(p, r);
    let er = line_value(a, beta, r);
    assert(0 < er < modulus());
    assert(crate::interpolation::has_inverse(er));
    let ie = crate::field::finv(er);
    assert(crate::field::is_inverse(er, ie));
    crate::field::lemma_mul_assoc(pv, er, ie);
    lemma_peval_lt(p, r);
    crate::field::lemma_mul_one(pv);
    // P(r) is the weighed sum over the rows folded at `r`.
    lemma_block_sum_poly(f, t1, t2, c, locs, d, pl, pr, vars, vars, 0, r);
    let t = t1 + t2;
    let h = t1.len() as int;
    assert(t.len() / 2 == h);
    let w = hyper_prod(lines_at(pl, pr, r, vars), 1);
    assert forall|b: int| 0 <= b < pow2(vars) implies #[trigger] fix_rows(t, r)[b] == line_row(t1[b], t2[b], r) by {
        assert(t[b] == t1[b]);
        assert(t[b + h] == t2[b]);
    }
    assert(Seq::new(pow2(vars), |b: int| fmul(w[b], row_value(f, t1, t2, c, 0 * pow2(vars) + b, r)))
        =~= Seq::new(pow2(vars), |b: int| fmul(w[b], expr_eval(f, fix_rows(t, r)[b], c))));
}

} // verus!
