//! The sumcheck protocol over a polynomial given as a function of
//! multilinear polynomials.
//!
//! The function is an arithmetic expression over the multilinear
//! polynomials (by index), challenges and constants.  The multilinear
//! polynomials are held as a table of rows: row `b` holds the evaluation of
//! each of them at the hypercube point `b`.  In each round the prover sends
//! the evaluations over `0..=d` of the univariate polynomial
//! `x -> sum_b f(row_b + x * (row_{b + half} - row_b))`, and both sides bind the
//! round's variable to the verifier's challenge.
use crate::algebra::{fsum, lemma_fsum_concat, lemma_views_reduced, reduced, views};
use crate::barycentric::{bary_eval, BarycentricWeights};
use crate::field::{
    fadd, fmul, fsub, group_field, lemma_add_zero, lemma_line_forms, lemma_mul_zero,
    lemma_sub_zero, modulus, Scalar,
};
use crate::message::{line_value, lemma_line_endpoints, Message};
use crate::polynomials::{fix_top, MultiPoint};
use crate::zerocheck::{
    hyper_prod, lemma_hyper_prod_len, lemma_shrinking_matches_fix_var, powers_factor,
    CompactPowers, ShrinkingPowers,
};
use crate::sponge::{lemma_squeezed_len, spec_absorb_all, SpongeView};
use crate::transcript::{
    challenges_for, round_accepts, sponge_after, Error, GuardedProof, MessageKind, Round,
    Transcript, TranscriptBuilder, TranscriptMessage, TranscriptView, VerifierTranscript,
};
use vstd::arithmetic::power2::{lemma_pow2_pos, lemma_pow2_unfold, pow2};
use vstd::prelude::*;

verus! {

broadcast use {group_field, crate::transcript::lemma_verifier_wf_valid};

/// How a commitment to a multilinear polynomial is made.
#[derive(Clone, Copy, PartialEq, Eq, Structural, Debug)]
pub enum CommitType {
    /// Structure commitments to public multilinear polynomials.
    Structure,
    /// Instance commitments, generally provided by a prover.
    Instance,
}

/// How a given multilinear polynomial is to be evaluated at a point.
#[derive(Clone, Copy, PartialEq, Eq, Structural, Debug)]
pub enum EvalKind {
    /// By opening a commitment.
    Committed(CommitType),
    /// A small representation that the verifier can evaluate itself.
    FixedSmall,
    /// A polynomial that cannot be evaluated directly: its evaluation is
    /// a claim to be verified later by other means.
    Virtual,
}

/// Where a multilinear polynomial of the function comes from.  Instance
/// polynomials are constant over the hypercube (challenges, for instance).
#[derive(Clone, Copy, PartialEq, Eq, Structural, Debug)]
pub enum EvalLocation {
    Structure,
    Instance,
    Witness,
}

/// The function of a sumcheck: an arithmetic expression over the
/// multilinear polynomials, challenges and constants.
pub enum Expr {
    /// The multilinear polynomial of that index.
    Mle(usize),
    /// The challenge of that index.
    Challenge(usize),
    Add(Box<Expr>, Box<Expr>),
    Sub(Box<Expr>, Box<Expr>),
    Mul(Box<Expr>, Box<Expr>),
    /// The expression plus a constant.
    AddConst(Box<Expr>, Scalar),
    /// The expression minus a constant.
    SubConst(Box<Expr>, Scalar),
    /// The expression times a constant.
    MulConst(Box<Expr>, Scalar),
}

/// The value of the expression, given the values of the multilinear
/// polynomials and of the challenges.
pub open spec fn expr_eval(e: Expr, row: Seq<nat>, challs: Seq<nat>) -> nat
    decreases e,
{
    match e {
        Expr::Mle(i) => row[i as int],
        Expr::Challenge(i) => challs[i as int],
        Expr::Add(a, b) => fadd(expr_eval(*a, row, challs), expr_eval(*b, row, challs)),
        Expr::Sub(a, b) => fsub(expr_eval(*a, row, challs), expr_eval(*b, row, challs)),
        Expr::Mul(a, b) => fmul(expr_eval(*a, row, challs), expr_eval(*b, row, challs)),
        Expr::AddConst(a, c) => fadd(expr_eval(*a, row, challs), c@),
        Expr::SubConst(a, c) => fsub(expr_eval(*a, row, challs), c@),
        Expr::MulConst(a, c) => fmul(expr_eval(*a, row, challs), c@),
    }
}

/// Every multilinear polynomial the expression names is below `mles`.
pub open spec fn mles_below(e: Expr, mles: nat) -> bool
    decreases e,
{
    match e {
        Expr::Mle(i) => i < mles,
        Expr::Challenge(_) => true,
        Expr::Add(a, b) => mles_below(*a, mles) && mles_below(*b, mles),
        Expr::Sub(a, b) => mles_below(*a, mles) && mles_below(*b, mles),
        Expr::Mul(a, b) => mles_below(*a, mles) && mles_below(*b, mles),
        Expr::AddConst(a, _) => mles_below(*a, mles),
        Expr::SubConst(a, _) => mles_below(*a, mles),
        Expr::MulConst(a, _) => mles_below(*a, mles),
    }
}

/// Every challenge the expression names is below `challs`.
pub open spec fn challs_below(e: Expr, challs: nat) -> bool
    decreases e,
{
    match e {
        Expr::Mle(_) => true,
        Expr::Challenge(i) => i < challs,
        Expr::Add(a, b) => challs_below(*a, challs) && challs_below(*b, challs),
        Expr::Sub(a, b) => challs_below(*a, challs) && challs_below(*b, challs),
        Expr::Mul(a, b) => challs_below(*a, challs) && challs_below(*b, challs),
        Expr::AddConst(a, _) => challs_below(*a, challs),
        Expr::SubConst(a, _) => challs_below(*a, challs),
        Expr::MulConst(a, _) => challs_below(*a, challs),
    }
}

/// Every index of the expression is in range.
pub open spec fn expr_wf(e: Expr, mles: nat, challs: nat) -> bool {
    mles_below(e, mles) && challs_below(e, challs)
}

/// The degree of the expression in the hypercube variables: instance
/// polynomials, challenges and constants have degree zero, the others one;
/// a sum has the larger degree of its terms, a product their sum.
pub open spec fn expr_degree(e: Expr, locations: Seq<EvalLocation>) -> nat
    decreases e,
{
    match e {
        Expr::Mle(i) => if locations[i as int] == EvalLocation::Instance {
            0
        } else {
            1
        },
        Expr::Challenge(_) => 0,
        Expr::Add(a, b) => max_nat(expr_degree(*a, locations), expr_degree(*b, locations)),
        Expr::Sub(a, b) => max_nat(expr_degree(*a, locations), expr_degree(*b, locations)),
        Expr::Mul(a, b) => expr_degree(*a, locations) + expr_degree(*b, locations),
        Expr::AddConst(a, _) => expr_degree(*a, locations),
        Expr::SubConst(a, _) => expr_degree(*a, locations),
        Expr::MulConst(a, _) => expr_degree(*a, locations),
    }
}

/// The degree of the expression in the folding variable: what matters is
/// whether a polynomial differs between the two instances folded, so the
/// structure's polynomials (the same in both) have degree zero, the
/// instance's and the witness's one.
pub open spec fn fold_degree(e: Expr, locations: Seq<EvalLocation>) -> nat
    decreases e,
{
    match e {
        Expr::Mle(i) => if locations[i as int] == EvalLocation::Structure {
            0
        } else {
            1
        },
        Expr::Challenge(_) => 0,
        Expr::Add(a, b) => max_nat(fold_degree(*a, locations), fold_degree(*b, locations)),
        Expr::Sub(a, b) => max_nat(fold_degree(*a, locations), fold_degree(*b, locations)),
        Expr::Mul(a, b) => fold_degree(*a, locations) + fold_degree(*b, locations),
        Expr::AddConst(a, _) => fold_degree(*a, locations),
        Expr::SubConst(a, _) => fold_degree(*a, locations),
        Expr::MulConst(a, _) => fold_degree(*a, locations),
    }
}

pub open spec fn max_nat(a: nat, b: nat) -> nat {
    if a >= b {
        a
    } else {
        b
    }
}

/// The row of values of the lines through `left` and `right`, at `x`.
pub open spec fn line_row(left: Seq<nat>, right: Seq<nat>, x: nat) -> Seq<nat> {
    Seq::new(left.len(), |j: int| line_value(left[j], right[j], x))
}

/// Values that the function of a sumcheck can be computed on: each holds
/// one value per evaluation point, and the operations act point by point.
pub trait Var: Sized {
    /// The values, one per evaluation point.
    spec fn values(&self) -> Seq<nat>;

    fn var_add(self, rhs: &Self) -> (r: Self)
        requires
            self.values().len() == rhs.values().len(),
        ensures
            r.values() == Seq::new(
                self.values().len(),
                |k: int| fadd(self.values()[k], rhs.values()[k]),
            ),
    ;

    fn var_sub(self, rhs: &Self) -> (r: Self)
        requires
            self.values().len() == rhs.values().len(),
        ensures
            r.values() == Seq::new(
                self.values().len(),
                |k: int| fsub(self.values()[k], rhs.values()[k]),
            ),
    ;

    fn var_mul(self, rhs: &Self) -> (r: Self)
        requires
            self.values().len() == rhs.values().len(),
        ensures
            r.values() == Seq::new(
                self.values().len(),
                |k: int| fmul(self.values()[k], rhs.values()[k]),
            ),
    ;

    fn var_add_scalar(self, rhs: &Scalar) -> (r: Self)
        ensures
            r.values() == Seq::new(self.values().len(), |k: int| fadd(self.values()[k], rhs@)),
    ;

    fn var_sub_scalar(self, rhs: &Scalar) -> (r: Self)
        ensures
            r.values() == Seq::new(self.values().len(), |k: int| fsub(self.values()[k], rhs@)),
    ;

    fn var_mul_scalar(self, rhs: &Scalar) -> (r: Self)
        ensures
            r.values() == Seq::new(self.values().len(), |k: int| fmul(self.values()[k], rhs@)),
    ;
}

/// Gives access to the multilinear polynomials and the challenges, as
/// values of `V` over some evaluation points.
pub trait Env<V: Var> {
    /// The number of evaluation points.
    spec fn points(&self) -> nat;

    /// The values of the multilinear polynomials at evaluation point `x`.
    spec fn row(&self, x: int) -> Seq<nat>;

    /// The number of multilinear polynomials.
    spec fn mle_count(&self) -> nat;

    /// The values of the challenges.
    spec fn challenges(&self) -> Seq<nat>;

    spec fn env_wf(&self) -> bool;

    /// The multilinear polynomial of index `i`.
    fn get(&self, i: usize) -> (r: V)
        requires
            self.env_wf(),
            i < self.mle_count(),
        ensures
            r.values() == Seq::new(self.points(), |x: int| self.row(x)[i as int]),
    ;

    /// The challenge of index `i`, the same at every point.
    fn get_chall(&self, i: usize) -> (r: V)
        requires
            self.env_wf(),
            i < self.challenges().len(),
        ensures
            r.values() == Seq::new(self.points(), |x: int| self.challenges()[i as int]),
    ;
}

impl Var for Scalar {
    open spec fn values(&self) -> Seq<nat> {
        seq![self@]
    }

    fn var_add(self, rhs: &Scalar) -> (r: Scalar) {
        let r = Scalar::add(&self, rhs);
        proof {
            assert(r.values() =~= Seq::new(1, |k: int| fadd(self.values()[k], rhs.values()[k])));
        }
        r
    }

    fn var_sub(self, rhs: &Scalar) -> (r: Scalar) {
        let r = Scalar::sub(&self, rhs);
        proof {
            assert(r.values() =~= Seq::new(1, |k: int| fsub(self.values()[k], rhs.values()[k])));
        }
        r
    }

    fn var_mul(self, rhs: &Scalar) -> (r: Scalar) {
        let r = Scalar::mul(&self, rhs);
        proof {
            assert(r.values() =~= Seq::new(1, |k: int| fmul(self.values()[k], rhs.values()[k])));
        }
        r
    }

    fn var_add_scalar(self, rhs: &Scalar) -> (r: Scalar) {
        let r = Scalar::add(&self, rhs);
        proof {
            assert(r.values() =~= Seq::new(1, |k: int| fadd(self.values()[k], rhs@)));
        }
        r
    }

    fn var_sub_scalar(self, rhs: &Scalar) -> (r: Scalar) {
        let r = Scalar::sub(&self, rhs);
        proof {
            assert(r.values() =~= Seq::new(1, |k: int| fsub(self.values()[k], rhs@)));
        }
        r
    }

    fn var_mul_scalar(self, rhs: &Scalar) -> (r: Scalar) {
        let r = Scalar::mul(&self, rhs);
        proof {
            assert(r.values() =~= Seq::new(1, |k: int| fmul(self.values()[k], rhs@)));
        }
        r
    }
}

impl Var for Message {
    open spec fn values(&self) -> Seq<nat> {
        self@
    }

    fn var_add(self, rhs: &Message) -> (r: Message) {
        let ghost n = self@.len();
        let r = self.add(rhs);
        proof {
            assert(r@ =~= Seq::new(n, |k: int| fadd(self@[k], rhs@[k])));
        }
        r
    }

    fn var_sub(self, rhs: &Message) -> (r: Message) {
        let ghost n = self@.len();
        let r = self.sub(rhs);
        proof {
            assert(r@ =~= Seq::new(n, |k: int| fsub(self@[k], rhs@[k])));
        }
        r
    }

    fn var_mul(self, rhs: &Message) -> (r: Message) {
        let ghost n = self@.len();
        let r = self.mul(rhs);
        proof {
            assert(r@ =~= Seq::new(n, |k: int| fmul(self@[k], rhs@[k])));
        }
        r
    }

    fn var_add_scalar(self, rhs: &Scalar) -> (r: Message) {
        let ghost n = self@.len();
        let r = self.add_scalar(rhs);
        proof {
            assert(r@ =~= Seq::new(n, |k: int| fadd(self@[k], rhs@)));
        }
        r
    }

    fn var_sub_scalar(self, rhs: &Scalar) -> (r: Message) {
        let ghost n = self@.len();
        let r = self.sub_scalar(rhs);
        proof {
            assert(r@ =~= Seq::new(n, |k: int| fsub(self@[k], rhs@)));
        }
        r
    }

    fn var_mul_scalar(self, rhs: &Scalar) -> (r: Message) {
        let ghost n = self@.len();
        let r = self.mul_scalar(rhs);
        proof {
            assert(r@ =~= Seq::new(n, |k: int| fmul(self@[k], rhs@)));
        }
        r
    }
}

/// The values of an expression at every evaluation point of an environment.
pub open spec fn env_values<V: Var, E: Env<V>>(e: Expr, env: E) -> Seq<nat> {
    Seq::new(env.points(), |x: int| expr_eval(e, env.row(x), env.challenges()))
}

impl Expr {
    /// Computes the expression in an environment, at every one of its
    /// evaluation points.
    pub fn function<V: Var, E: Env<V>>(&self, env: &E) -> (r: V)
        requires
            env.env_wf(),
            expr_wf(*self, env.mle_count(), env.challenges().len()),
        ensures
            r.values() == env_values(*self, *env),
        decreases self,
    {
        let ghost n = env.points();
        let r = match self {
            Expr::Mle(i) => env.get(*i),
            Expr::Challenge(i) => env.get_chall(*i),
            Expr::Add(a, b) => {
                let vb = b.function(env);
                a.function(env).var_add(&vb)
            },
            Expr::Sub(a, b) => {
                let vb = b.function(env);
                a.function(env).var_sub(&vb)
            },
            Expr::Mul(a, b) => {
                let vb = b.function(env);
                a.function(env).var_mul(&vb)
            },
            Expr::AddConst(a, c) => a.function(env).var_add_scalar(c),
            Expr::SubConst(a, c) => a.function(env).var_sub_scalar(c),
            Expr::MulConst(a, c) => a.function(env).var_mul_scalar(c),
        };
        proof {
            assert(r.values() =~= env_values(*self, *env));
        }
        r
    }

    /// The degree of the expression, given the location of each
    /// multilinear polynomial.
    pub fn degree(&self, locations: &Vec<EvalLocation>) -> (r: usize)
        requires
            mles_below(*self, locations@.len() as nat),
            expr_degree(*self, locations@) <= usize::MAX,
        ensures
            r == expr_degree(*self, locations@),
        decreases self,
    {
        match self {
            Expr::Mle(i) => {
                if locations[*i] == EvalLocation::Instance {
                    0
                } else {
                    1
                }
            },
            Expr::Challenge(_) => 0,
            Expr::AddConst(a, _) | Expr::SubConst(a, _) | Expr::MulConst(a, _) => {
                a.degree(locations)
            },
            Expr::Add(a, b) | Expr::Sub(a, b) => {
                let da = a.degree(locations);
                let db = b.degree(locations);
                if da >= db {
                    da
                } else {
                    db
                }
            },
            Expr::Mul(a, b) => {
                let da = a.degree(locations);
                let db = b.degree(locations);
                da + db
            },
        }
    }

    /// The degree of the expression in the folding variable.
    pub fn folding_degree(&self, locations: &Vec<EvalLocation>) -> (r: usize)
        requires
            mles_below(*self, locations@.len() as nat),
            fold_degree(*self, locations@) <= usize::MAX,
        ensures
            r == fold_degree(*self, locations@),
        decreases self,
    {
        match self {
            Expr::Mle(i) => {
                if locations[*i] == EvalLocation::Structure {
                    0
                } else {
                    1
                }
            },
            Expr::Challenge(_) => 0,
            Expr::AddConst(a, _) | Expr::SubConst(a, _) | Expr::MulConst(a, _) => {
                a.folding_degree(locations)
            },
            Expr::Add(a, b) | Expr::Sub(a, b) => {
                let da = a.folding_degree(locations);
                let db = b.folding_degree(locations);
                if da >= db {
                    da
                } else {
                    db
                }
            },
            Expr::Mul(a, b) => {
                let da = a.folding_degree(locations);
                let db = b.folding_degree(locations);
                da + db
            },
        }
    }
}

/// The environment of a prover's round: each multilinear polynomial is the
/// line through its values at the two halves of the hypercube, evaluated
/// over `0..=degree`.
pub struct MessageEnv<'a> {
    evals_left: &'a Vec<Scalar>,
    evals_right: &'a Vec<Scalar>,
    challs: Vec<Scalar>,
    degree: usize,
}

impl<'a> MessageEnv<'a> {
    pub closed spec fn left(&self) -> Seq<nat> {
        views(self.evals_left@)
    }

    pub closed spec fn right(&self) -> Seq<nat> {
        views(self.evals_right@)
    }

    pub closed spec fn challs(&self) -> Seq<nat> {
        views(self.challs@)
    }

    pub closed spec fn degree(&self) -> nat {
        self.degree as nat
    }

    pub fn new(evals_left: &'a Vec<Scalar>, evals_right: &'a Vec<Scalar>, degree: usize, challs: Vec<Scalar>) -> (r: MessageEnv<'a>)
        ensures
            r.left() == views(evals_left@),
            r.right() == views(evals_right@),
            r.challs() == views(challs@),
            r.degree() == degree,
    {
        MessageEnv { evals_left, evals_right, challs, degree }
    }
}

/// The line through `(0, c)` and `(1, c)` is the constant `c`.
pub proof fn lemma_line_constant(c: nat, x: nat)
    requires
        c < modulus(),
    ensures
        line_value(c, c, x) == c,
{
    lemma_sub_zero(c);
    lemma_mul_zero(x);
    lemma_add_zero(c);
}

impl<'a> Env<Message> for MessageEnv<'a> {
    open spec fn points(&self) -> nat {
        self.degree() + 1
    }

    open spec fn row(&self, x: int) -> Seq<nat> {
        line_row(self.left(), self.right(), x as nat)
    }

    open spec fn mle_count(&self) -> nat {
        self.left().len()
    }

    open spec fn challenges(&self) -> Seq<nat> {
        self.challs()
    }

    open spec fn env_wf(&self) -> bool {
        &&& 1 <= self.degree() < usize::MAX
        &&& self.left().len() == self.right().len()
    }

    fn get(&self, i: usize) -> (r: Message) {
        let r = Message::new_degree_n(&self.evals_left[i], &self.evals_right[i], self.degree);
        proof {
            assert(r@ =~= Seq::new(self.points(), |x: int| self.row(x)[i as int]));
        }
        r
    }

    fn get_chall(&self, i: usize) -> (r: Message) {
        let c = self.challs[i];
        let r = Message::new_degree_n(&c, &c, self.degree);
        proof {
            assert forall|x: int| 0 <= x < self.points() implies #[trigger] r@[x] == self.challenges()[i as int] by {
                lemma_line_constant(c@, x as nat);
            }
            assert(r@ =~= Seq::new(self.points(), |x: int| self.challenges()[i as int]));
        }
        r
    }
}

/// The environment of the final check: the evaluations of the multilinear
/// polynomials at one point.
pub struct EvalCheckEnv {
    evals: Vec<Scalar>,
    challs: Vec<Scalar>,
}

impl EvalCheckEnv {
    pub closed spec fn evals(&self) -> Seq<nat> {
        views(self.evals@)
    }

    pub closed spec fn challs(&self) -> Seq<nat> {
        views(self.challs@)
    }

    pub fn new(evals: Vec<Scalar>, challs: Vec<Scalar>) -> (r: EvalCheckEnv)
        ensures
            r.evals() == views(evals@),
            r.challs() == views(challs@),
    {
        EvalCheckEnv { evals, challs }
    }
}

impl Env<Scalar> for EvalCheckEnv {
    open spec fn points(&self) -> nat {
        1
    }

    open spec fn row(&self, x: int) -> Seq<nat> {
        self.evals()
    }

    open spec fn mle_count(&self) -> nat {
        self.evals().len()
    }

    open spec fn challenges(&self) -> Seq<nat> {
        self.challs()
    }

    open spec fn env_wf(&self) -> bool {
        true
    }

    fn get(&self, i: usize) -> (r: Scalar) {
        let r = self.evals[i];
        proof {
            assert(r.values() =~= Seq::new(1, |x: int| self.row(x)[i as int]));
        }
        r
    }

    fn get_chall(&self, i: usize) -> (r: Scalar) {
        let r = self.challs[i];
        proof {
            assert(r.values() =~= Seq::new(1, |x: int| self.challenges()[i as int]));
        }
        r
    }
}

/// The values of a table of rows.
pub open spec fn rows(t: Seq<Vec<Scalar>>) -> Seq<Seq<nat>> {
    t.map_values(|r: Vec<Scalar>| views(r@))
}

/// Every row holds one value per multilinear polynomial.
pub open spec fn table_wf(t: Seq<Seq<nat>>, mles: nat) -> bool {
    forall|b: int| 0 <= b < t.len() ==> #[trigger] t[b].len() == mles
}

/// `sum_{b < n} f(line through rows b and b + half, at x)`.
pub open spec fn half_sum(f: Expr, t: Seq<Seq<nat>>, challs: Seq<nat>, x: nat, n: nat) -> nat {
    fsum(
        Seq::new(
            n,
            |b: int| expr_eval(f, line_row(t[b], t[b + (t.len() / 2) as int], x), challs),
        ),
    )
}

/// The honest round message: the evaluations over `0..=d` of
/// `x -> sum_{b < half} f(row_b + x * (row_{b + half} - row_b))`.
pub open spec fn round_poly(f: Expr, t: Seq<Seq<nat>>, challs: Seq<nat>, d: nat) -> Seq<nat> {
    Seq::new(d + 1, |x: int| half_sum(f, t, challs, x as nat, t.len() / 2))
}

/// The table with its last variable bound to `r`.
pub open spec fn fix_rows(t: Seq<Seq<nat>>, r: nat) -> Seq<Seq<nat>> {
    Seq::new(t.len() / 2, |b: int| line_row(t[b], t[b + (t.len() / 2) as int], r))
}

/// The sum of the function over every row of the table.
pub open spec fn table_sum(f: Expr, t: Seq<Seq<nat>>, challs: Seq<nat>) -> nat {
    fsum(Seq::new(t.len(), |b: int| expr_eval(f, t[b], challs)))
}

/// The row of values, one per position, of the line through two rows at `var`.
pub(crate) fn fix_row(left: &Vec<Scalar>, right: &Vec<Scalar>, var: &Scalar) -> (r: Vec<Scalar>)
    requires
        left@.len() == right@.len(),
    ensures
        views(r@) == line_row(views(left@), views(right@), var@),
{
    let mut out: Vec<Scalar> = Vec::new();
    let mut j: usize = 0;
    while j < left.len()
        invariant
            j <= left@.len(),
            left@.len() == right@.len(),
            out@.len() == j,
            views(out@) == line_row(views(left@), views(right@), var@).take(j as int),
        decreases left@.len() - j,
    {
        let v = var.mul(&right[j].sub(&left[j])).add(&left[j]);
        let ghost before = out@;
        out.push(v);
        proof {
            assert(views(left@)[j as int] == left@[j as int]@);
            assert(views(right@)[j as int] == right@[j as int]@);
            assert forall|k: int| 0 <= k < j + 1 implies #[trigger] views(out@)[k] == line_row(
                views(left@),
                views(right@),
                var@,
            )[k] by {
                if k < j {
                    assert(out@[k] == before[k]);
                    assert(views(before)[k] == views(out@)[k]);
                }
            }
            assert(views(out@) =~= line_row(views(left@), views(right@), var@).take(j + 1));
        }
        j = j + 1;
    }
    proof {
        assert(line_row(views(left@), views(right@), var@).take(j as int) =~= line_row(
            views(left@),
            views(right@),
            var@,
        ));
    }
    out
}

/// A copy of a vector of elements.
pub(crate) fn copy_scalars(v: &Vec<Scalar>) -> (r: Vec<Scalar>)
    ensures
        r@ == v@,
{
    let mut out: Vec<Scalar> = Vec::new();
    let mut j: usize = 0;
    while j < v.len()
        invariant
            j <= v@.len(),
            out@ == v@.take(j as int),
        decreases v@.len() - j,
    {
        out.push(v[j]);
        proof {
            assert(out@ =~= v@.take(j + 1));
        }
        j = j + 1;
    }
    proof {
        assert(v@.take(j as int) =~= v@);
    }
    out
}

/// Binds the last variable of the table to `var`, halving it.
pub fn bind_variable(mles: &mut Vec<Vec<Scalar>>, var: &Scalar)
    requires
        table_wf(rows(old(mles)@), rows(old(mles)@)[0].len()),
    ensures
        rows(final(mles)@) == fix_rows(rows(old(mles)@), var@),
{
    let ghost t = rows(mles@);
    let len = mles.len();
    let half = len / 2;
    let mut b: usize = 0;
    while b < half
        invariant
            half == len / 2,
            len == mles@.len(),
            t.len() == len,
            b <= half,
            table_wf(t, t[0].len()),
            forall|k: int| 0 <= k < b ==> #[trigger] rows(mles@)[k] == fix_rows(t, var@)[k],
            forall|k: int| b <= k < len ==> #[trigger] rows(mles@)[k] == t[k],
        decreases half - b,
    {
        proof {
            assert(rows(mles@)[b as int] == t[b as int]);
            assert(rows(mles@)[b + half] == t[b + half]);
        }
        let row = fix_row(&mles[b], &mles[b + half], var);
        let ghost before = rows(mles@);
        mles.set(b, row);
        proof {
            assert forall|k: int| 0 <= k < b + 1 implies #[trigger] rows(mles@)[k] == fix_rows(
                t,
                var@,
            )[k] by {
                if k < b {
                    assert(rows(mles@)[k] == before[k]);
                }
            }
            assert forall|k: int| b + 1 <= k < len implies #[trigger] rows(mles@)[k] == t[k] by {
                assert(rows(mles@)[k] == before[k]);
            }
        }
        b = b + 1;
    }
    let ghost before = rows(mles@);
    mles.truncate(half);
    proof {
        assert forall|k: int| 0 <= k < half implies #[trigger] rows(mles@)[k] == fix_rows(t, var@)[k]
            by {
            assert(rows(mles@)[k] == before[k]);
        }
        assert(rows(mles@) =~= fix_rows(t, var@));
    }
}

/// The honest round message of the table: the sum over the lower half of
/// the function on the lines through each row and its partner in the
/// upper half, evaluated over `0..=degree`.
pub fn round_message(f: &Expr, mles: &Vec<Vec<Scalar>>, challs: &Vec<Scalar>, degree: usize) -> (r:
    Message)
    requires
        1 <= degree < usize::MAX,
        mles@.len() > 0,
        table_wf(rows(mles@), rows(mles@)[0].len()),
        expr_wf(*f, rows(mles@)[0].len(), challs@.len() as nat),
    ensures
        r@ == round_poly(*f, rows(mles@), views(challs@), degree as nat),
{
    let ghost t = rows(mles@);
    let ghost c = views(challs@);
    let ghost d = degree as nat;
    let half = mles.len() / 2;
    let zero = Scalar::zero();
    let mut message = Message::new_degree_n(&zero, &zero, degree);
    proof {
        assert forall|x: int| 0 <= x < d + 1 implies #[trigger] message@[x] == half_sum(
            *f,
            t,
            c,
            x as nat,
            0,
        ) by {
            lemma_line_constant(0, x as nat);
            assert(Seq::new(0, |b: int| expr_eval(*f, line_row(t[b], t[b + half], x as nat), c))
                =~= Seq::<nat>::empty());
        }
    }
    let mut b: usize = 0;
    while b < half
        invariant
            half == mles@.len() / 2,
            t == rows(mles@),
            c == views(challs@),
            d == degree,
            1 <= degree < usize::MAX,
            mles@.len() > 0,
            table_wf(t, t[0].len()),
            expr_wf(*f, t[0].len(), c.len()),
            b <= half,
            message@.len() == d + 1,
            forall|x: int| 0 <= x < d + 1 ==> #[trigger] message@[x] == half_sum(*f, t, c, x as nat, b as nat),
        decreases half - b,
    {
        assert(b + half < mles.len());
        proof {
            assert(t[b as int].len() == t[0].len());
            assert(t[b + half].len() == t[0].len());
        }
        let env = MessageEnv::new(&mles[b], &mles[b + half], degree, copy_scalars(challs));
        let m: Message = f.function(&env);
        let ghost before = message@;
        message.add_assign(&m);
        proof {
            assert forall|x: int| 0 <= x < d + 1 implies #[trigger] message@[x] == half_sum(
                *f,
                t,
                c,
                x as nat,
                (b + 1) as nat,
            ) by {
                let g = |k: int| expr_eval(*f, line_row(t[k], t[k + half], x as nat), c);
                assert(Seq::new((b + 1) as nat, g).drop_last() =~= Seq::new(b as nat, g));
                assert(env.row(x) == line_row(t[b as int], t[b + half], x as nat));
            }
        }
        b = b + 1;
    }
    proof {
        assert(message@ =~= round_poly(*f, t, c, d));
    }
    message
}

/// Every value of the table is reduced.
pub open spec fn table_reduced(t: Seq<Seq<nat>>) -> bool {
    forall|b: int| 0 <= b < t.len() ==> reduced(#[trigger] t[b])
}

/// The rows of a table of elements are reduced.
pub proof fn lemma_rows_reduced(t: Seq<Vec<Scalar>>)
    ensures
        table_reduced(rows(t)),
        rows(t).len() == t.len(),
{
    assert forall|b: int| 0 <= b < rows(t).len() implies reduced(#[trigger] rows(t)[b]) by {
        lemma_views_reduced(t[b]@);
    }
}

/// The line through two rows passes through the first at zero and the
/// second at one.
pub proof fn lemma_line_row_endpoints(left: Seq<nat>, right: Seq<nat>)
    requires
        left.len() == right.len(),
        reduced(left),
        reduced(right),
    ensures
        line_row(left, right, 0) == left,
        line_row(left, right, 1) == right,
{
    assert forall|j: int| 0 <= j < left.len() implies line_value(left[j], right[j], 0) == left[j]
        && line_value(left[j], right[j], 1) == right[j] by {
        lemma_line_endpoints(left[j], right[j]);
    }
    assert(line_row(left, right, 0) =~= left);
    assert(line_row(left, right, 1) =~= right);
}

/// The honest round message adds up to the sum it reduces: its values at
/// zero and one add up to the sum of the function over the whole table.
pub proof fn lemma_round_sum(f: Expr, t: Seq<Seq<nat>>, challs: Seq<nat>, d: nat, mles: nat)
    requires
        d >= 1,
        t.len() % 2 == 0,
        table_wf(t, mles),
        table_reduced(t),
    ensures
        fadd(round_poly(f, t, challs, d)[0], round_poly(f, t, challs, d)[1]) == table_sum(
            f,
            t,
            challs,
        ),
{
    let h = t.len() / 2;
    let a = Seq::new(h, |b: int| expr_eval(f, line_row(t[b], t[b + h as int], 0), challs));
    let c = Seq::new(h, |b: int| expr_eval(f, line_row(t[b], t[b + h as int], 1), challs));
    let all = Seq::new(t.len(), |b: int| expr_eval(f, t[b], challs));
    assert forall|b: int| 0 <= b < h implies a[b] == all[b] && c[b] == all[b + h] by {
        lemma_line_row_endpoints(t[b], t[b + h as int]);
    }
    assert(a + c =~= all);
    lemma_fsum_concat(a, c);
}

/// On the domain, the honest round message gives the sum of the function
/// over the table with the round's variable bound to that point.
pub proof fn lemma_round_poly_on_domain(f: Expr, t: Seq<Seq<nat>>, challs: Seq<nat>, d: nat, x: nat)
    requires
        x <= d,
    ensures
        round_poly(f, t, challs, d)[x as int] == table_sum(f, fix_rows(t, x), challs),
{
    let h = t.len() / 2;
    assert(Seq::new(h, |b: int| expr_eval(f, line_row(t[b], t[b + h as int], x), challs)) =~= Seq::new(
        fix_rows(t, x).len(),
        |b: int| expr_eval(f, fix_rows(t, x)[b], challs),
    ));
}

/// A sumcheck message had an unexpected degree.
#[derive(Clone, Copy, PartialEq, Eq, Structural, Debug)]
pub struct UnexpectedDegree;

/// A sumcheck round message as sent in a proof: the evaluations over
/// `0..=d` of the round polynomial.
pub struct SumcheckMessage {
    evals: Vec<Scalar>,
}

impl View for SumcheckMessage {
    type V = Seq<nat>;

    closed spec fn view(&self) -> Seq<nat> {
        views(self.evals@)
    }
}

impl SumcheckMessage {
    /// The message with the given evaluations.
    pub fn new(evals: Vec<Scalar>) -> (r: SumcheckMessage)
        ensures
            r@ == views(evals@),
    {
        SumcheckMessage { evals }
    }

    /// The evaluations.
    pub fn inner(&self) -> (r: &Vec<Scalar>)
        ensures
            views(r@) == self@,
    {
        &self.evals
    }

    /// The zero polynomial of degree `degree`.
    pub fn zero(degree: usize) -> (r: SumcheckMessage)
        requires
            degree < usize::MAX,
        ensures
            r@ == Seq::new((degree + 1) as nat, |i: int| 0nat),
    {
        let mut evals: Vec<Scalar> = Vec::new();
        let mut i: usize = 0;
        while i <= degree
            invariant
                i <= degree + 1,
                degree < usize::MAX,
                views(evals@) == Seq::new(i as nat, |k: int| 0nat),
            decreases degree + 1 - i,
        {
            let ghost prev = views(evals@);
            evals.push(Scalar::zero());
            proof {
                assert(views(evals@) =~= prev.push(0nat));
                assert(views(evals@) =~= Seq::new((i + 1) as nat, |k: int| 0nat));
            }
            i = i + 1;
        }
        SumcheckMessage { evals }
    }

    /// The degree `degree` line through `(0, eval_at_0)` and `(1, eval_at_1)`.
    pub fn new_degree_n(eval_at_0: &Scalar, eval_at_1: &Scalar, degree: usize) -> (r: SumcheckMessage)
        requires
            degree >= 1,
            degree < usize::MAX,
        ensures
            r@ == crate::message::line_evals(eval_at_0@, eval_at_1@, degree as nat),
    {
        let m = Message::new_degree_n(eval_at_0, eval_at_1, degree);
        SumcheckMessage { evals: copy_scalars(m.inner()) }
    }

    /// Adds the evaluation at `d + 1`, for a polynomial of a degree one larger.
    pub fn extend(self, weights: &BarycentricWeights) -> (r: SumcheckMessage)
        requires
            weights.wf(),
            self@.len() == weights.degree() + 1,
        ensures
            r@ == self@.push(bary_eval(weights.degree(), self@, weights.degree() + 1)),
    {
        proof {
            assert(views(self.evals@).len() == self.evals@.len());
        }
        let extra = weights.extend(&self.evals);
        let mut evals = self.evals;
        let ghost prev = views(evals@);
        evals.push(extra);
        proof {
            assert(views(evals@) =~= prev.push(extra@));
        }
        SumcheckMessage { evals }
    }

    /// The product, point by point, over the points both have.
    pub fn mul(self, rhs: &SumcheckMessage) -> (r: SumcheckMessage)
        ensures
            r@ == crate::message::zip_with(self@, rhs@, |a: nat, b: nat| fmul(a, b)),
    {
        let m = Message::new(self.evals).mul(&Message::new(copy_scalars(&rhs.evals)));
        SumcheckMessage { evals: copy_scalars(m.inner()) }
    }

    /// The message as a round message.
    pub fn to_message(&self) -> (r: Message)
        ensures
            r@ == self@,
    {
        Message::new(copy_scalars(&self.evals))
    }

    /// The field elements of the message, where it has the expected number
    /// of evaluations.
    pub fn to_field_elements(&self, expected_len: usize) -> (r: Result<Vec<Scalar>, UnexpectedDegree>)
        ensures
            self@.len() == expected_len ==> (r matches Ok(v) && views(v@) == self@),
            self@.len() != expected_len ==> r == Err::<Vec<Scalar>, UnexpectedDegree>(UnexpectedDegree),
    {
        if self.evals.len() == expected_len {
            Ok(copy_scalars(&self.evals))
        } else {
            Err(UnexpectedDegree)
        }
    }
}

/// The errors of the sumcheck protocol.
#[derive(Clone, Copy, PartialEq, Eq, Structural, Debug)]
pub enum SumcheckError {
    /// Some message had the wrong degree.
    Degree(UnexpectedDegree),
    /// In some round, the two new sums did not add up to the previous sum.
    RoundSum,
    /// The transcript refused a message.
    TranscriptError(Error),
    /// The proof does not carry one message per variable.
    MessageCount,
}

/// The transcript form of a round message.
pub fn message_to_transcript(m: &Message) -> (r: TranscriptMessage)
    ensures
        r.kind == MessageKind::Sumcheck,
        views(r.elements@) == m@,
{
    TranscriptMessage { kind: MessageKind::Sumcheck, elements: copy_scalars(m.inner()) }
}

/// The values of a sequence of messages.
pub open spec fn messages_view(ms: Seq<Message>) -> Seq<Seq<nat>> {
    ms.map_values(|m: Message| m@)
}

/// The state of an honest prover after some rounds: the messages sent, the
/// challenges received, the transcript's sponge and the bound table.
pub struct ProverRun {
    pub messages: Seq<Seq<nat>>,
    pub challenges: Seq<nat>,
    pub sponge: SpongeView,
    pub table: Seq<Seq<nat>>,
}

/// The first `k` rounds of the honest prover on the table `t`, starting
/// from the sponge `s`.
pub open spec fn prover_run(
    f: Expr,
    challs: Seq<nat>,
    d: nat,
    t: Seq<Seq<nat>>,
    s: SpongeView,
    k: nat,
) -> ProverRun
    decreases k,
{
    if k == 0 {
        ProverRun { messages: seq![], challenges: seq![], sponge: s, table: t }
    } else {
        let p = prover_run(f, challs, d, t, s, (k - 1) as nat);
        let m = round_poly(f, p.table, challs, d);
        let r = challenges_for(p.sponge, m, 1)[0];
        ProverRun {
            messages: p.messages.push(m),
            challenges: p.challenges.push(r),
            sponge: sponge_after(p.sponge, m, 1),
            table: fix_rows(p.table, r),
        }
    }
}

/// The next `n` rounds of the transcript are sumcheck rounds of degree `d`,
/// each answered by one challenge.
pub open spec fn sumcheck_rounds_ok(v: TranscriptView, n: nat, d: nat) -> bool {
    forall|j: int|
        v.next <= j < v.next + n ==> {
            &&& j < v.rounds.len()
            &&& (#[trigger] v.rounds[j]).kind == MessageKind::Sumcheck
            &&& v.rounds[j].message_len == d + 1
            &&& v.rounds[j].challenges == 1
        }
}

/// The error of the transcript at the first of the next `n` rounds that is
/// not a sumcheck round of degree `d`.
pub open spec fn refused_at(v: TranscriptView, n: nat, d: nat, e: SumcheckError) -> bool {
    exists|k: nat|
        #![trigger sumcheck_rounds_ok(v, k, d)]
        k < n && sumcheck_rounds_ok(v, k, d) && !sumcheck_rounds_ok(v, k + 1, d) && e
            == SumcheckError::TranscriptError(
            if v.next + k >= v.rounds.len() {
                Error::TranscriptFinished
            } else {
                Error::UnexpectedMessage
            },
        )
}

/// A round among the next `n` of a transcript whose next `n` rounds are
/// sumcheck rounds is one.
pub proof fn lemma_sumcheck_round_at(v: TranscriptView, n: nat, d: nat, j: int)
    requires
        sumcheck_rounds_ok(v, n, d),
        v.next <= j < v.next + n,
    ensures
        j < v.rounds.len(),
        round_accepts(v.rounds[j], MessageKind::Sumcheck, d + 1, 1),
{
    let r = v.rounds[j];
    assert(r.kind == MessageKind::Sumcheck);
}

/// The table with the value of the first polynomial of each row replaced.
pub open spec fn with_col0(t: Seq<Seq<nat>>, col: Seq<nat>) -> Seq<Seq<nat>> {
    Seq::new(t.len(), |b: int| t[b].update(0, col[b]))
}

/// The values of the first polynomial of each row.
pub open spec fn col0(t: Seq<Seq<nat>>) -> Seq<nat> {
    Seq::new(t.len(), |b: int| t[b][0])
}

/// The state of the zerocheck prover: the prover's state, and the factors
/// of the powers that are left with the product of those already bound.
pub struct ZeroRun {
    pub run: ProverRun,
    pub remaining: Seq<(nat, nat)>,
    pub scale: nat,
}

/// The first `k` rounds of the zerocheck prover: as the honest prover, but
/// the first polynomial of each row (the powers) is recomputed from the
/// factors left rather than bound like the others.
pub open spec fn zerocheck_run(
    f: Expr,
    challs: Seq<nat>,
    d: nat,
    t: Seq<Seq<nat>>,
    s: SpongeView,
    powers: Seq<(nat, nat)>,
    k: nat,
) -> ZeroRun
    decreases k,
{
    if k == 0 {
        ZeroRun {
            run: ProverRun { messages: seq![], challenges: seq![], sponge: s, table: t },
            remaining: powers,
            scale: 1,
        }
    } else {
        let z = zerocheck_run(f, challs, d, t, s, powers, (k - 1) as nat);
        let p = z.run;
        let m = round_poly(f, p.table, challs, d);
        let r = challenges_for(p.sponge, m, 1)[0];
        let remaining = z.remaining.drop_last();
        let scale = fmul(z.scale, powers_factor(r, z.remaining.last()));
        ZeroRun {
            run: ProverRun {
                messages: p.messages.push(m),
                challenges: p.challenges.push(r),
                sponge: sponge_after(p.sponge, m, 1),
                table: with_col0(fix_rows(p.table, r), hyper_prod(remaining, scale)),
            },
            remaining,
            scale,
        }
    }
}

/// Binds the last variable of the table to `var`, the first polynomial of
/// each row taking its value from `col` instead.
fn bind_variable_custom(mles: &mut Vec<Vec<Scalar>>, var: &Scalar, col: &Vec<Scalar>)
    requires
        old(mles)@.len() > 0,
        table_wf(rows(old(mles)@), rows(old(mles)@)[0].len()),
        rows(old(mles)@)[0].len() >= 1,
        col@.len() == old(mles)@.len() / 2,
    ensures
        rows(final(mles)@) == with_col0(fix_rows(rows(old(mles)@), var@), views(col@)),
{
    let ghost t = rows(mles@);
    let ghost goal = with_col0(fix_rows(t, var@), views(col@));
    let len = mles.len();
    let half = len / 2;
    let mut b: usize = 0;
    while b < half
        invariant
            half == len / 2,
            len == mles@.len(),
            t.len() == len,
            len > 0,
            col@.len() == half,
            b <= half,
            table_wf(t, t[0].len()),
            t[0].len() >= 1,
            goal == with_col0(fix_rows(t, var@), views(col@)),
            forall|k: int| 0 <= k < b ==> #[trigger] rows(mles@)[k] == goal[k],
            forall|k: int| b <= k < len ==> #[trigger] rows(mles@)[k] == t[k],
        decreases half - b,
    {
        assert(b + half < len);
        proof {
            assert(rows(mles@)[b as int] == t[b as int]);
            assert(rows(mles@)[b + half] == t[b + half]);
            assert(t[b as int].len() == t[0].len());
        }
        let mut row = fix_row(&mles[b], &mles[b + half], var);
        let ghost fixed = views(row@);
        assert(row@.len() == fixed.len());
        row.set(0, col[b]);
        proof {
            assert(views(row@) =~= fixed.update(0, views(col@)[b as int]));
        }
        let ghost before = rows(mles@);
        mles.set(b, row);
        proof {
            assert forall|k: int| 0 <= k < b + 1 implies #[trigger] rows(mles@)[k] == goal[k] by {
                if k < b {
                    assert(rows(mles@)[k] == before[k]);
                }
            }
            assert forall|k: int| b + 1 <= k < len implies #[trigger] rows(mles@)[k] == t[k] by {
                assert(rows(mles@)[k] == before[k]);
            }
        }
        b = b + 1;
    }
    let ghost before = rows(mles@);
    mles.truncate(half);
    proof {
        assert forall|k: int| 0 <= k < half implies #[trigger] rows(mles@)[k] == goal[k] by {
            assert(rows(mles@)[k] == before[k]);
        }
        assert(rows(mles@) =~= goal);
    }
}

/// On tables whose first polynomial is the product table of the powers,
/// the zerocheck prover is the honest prover: binding a variable of the
/// product table gives the product table of the remaining factors, scaled by
/// the bound factor.
pub proof fn lemma_zerocheck_is_sumcheck(
    f: Expr,
    challs: Seq<nat>,
    d: nat,
    t: Seq<Seq<nat>>,
    s: SpongeView,
    powers: Seq<(nat, nat)>,
    m: nat,
    k: nat,
)
    requires
        k <= powers.len(),
        m >= 1,
        t.len() == pow2(powers.len()),
        table_wf(t, m),
        table_reduced(t),
        col0(t) == hyper_prod(powers, 1),
    ensures
        ({
            let z = zerocheck_run(f, challs, d, t, s, powers, k);
            &&& z.run == prover_run(f, challs, d, t, s, k)
            &&& z.remaining == powers.take(powers.len() - k)
            &&& z.run.table.len() == pow2(z.remaining.len())
            &&& table_wf(z.run.table, m)
            &&& table_reduced(z.run.table)
            &&& col0(z.run.table) == hyper_prod(z.remaining, z.scale)
        }),
    decreases k,
{
    if k == 0 {
        assert(powers.take(powers.len() as int) =~= powers);
    } else {
        lemma_zerocheck_is_sumcheck(f, challs, d, t, s, powers, m, (k - 1) as nat);
        let z = zerocheck_run(f, challs, d, t, s, powers, (k - 1) as nat);
        let p = z.run;
        let tb = p.table;
        let msg = round_poly(f, tb, challs, d);
        let r = challenges_for(p.sponge, msg, 1)[0];
        let rem = z.remaining.drop_last();
        let scale = fmul(z.scale, powers_factor(r, z.remaining.last()));
        let fixed = fix_rows(tb, r);
        assert(z.remaining.len() > 0);
        lemma_pow2_unfold(z.remaining.len());
        lemma_hyper_prod_len(z.remaining, z.scale);
        lemma_hyper_prod_len(rem, scale);
        lemma_shrinking_matches_fix_var(z.remaining, z.scale, r);
        let h = tb.len() / 2;
        assert forall|b: int| 0 <= b < fixed.len() implies #[trigger] fixed[b][0] == hyper_prod(rem, scale)[b]
            by {
            assert(tb[b].len() == m);
            assert(tb[b + h].len() == m);
            assert(tb[b][0] == col0(tb)[b]);
            assert(tb[b + h][0] == col0(tb)[b + h]);
            lemma_line_forms(tb[b][0], tb[b + h][0], r);
            assert(fix_top(col0(tb), r)[b] == hyper_prod(rem, scale)[b]);
        }
        assert(with_col0(fixed, hyper_prod(rem, scale)) =~= fixed) by {
            assert forall|b: int| 0 <= b < fixed.len() implies #[trigger] fixed[b].update(0, hyper_prod(rem, scale)[b]) =~= fixed[b] by {}
        }
        assert(z.remaining.take(z.remaining.len() - 1) =~= powers.take(powers.len() - k));
        assert forall|b: int| 0 <= b < fixed.len() implies #[trigger] fixed[b].len() == m && reduced(fixed[b]) by {
            assert(tb[b].len() == m);
            assert(tb[b + h].len() == m);
            assert forall|j: int| 0 <= j < fixed[b].len() implies #[trigger] fixed[b][j] < modulus() by {}
        }
        assert(col0(fixed) =~= hyper_prod(rem, scale));
    }
}

/// The messages of a sumcheck proof.
pub struct Proof {
    pub messages: Vec<Message>,
}

impl Proof {
    pub fn from_messages(messages: Vec<Message>) -> (r: Proof)
        ensures
            r.messages@ == messages@,
    {
        Proof { messages }
    }

    /// The field elements of the proof: the messages' evaluations, one
    /// message after the other.
    pub fn to_field_elements(&self) -> (r: Vec<Scalar>)
        ensures
            views(r@) == crate::oracles::flatten_all(messages_view(self.messages@)),
    {
        let mut out: Vec<Scalar> = Vec::new();
        let mut k: usize = 0;
        while k < self.messages.len()
            invariant
                k <= self.messages@.len(),
                views(out@) == crate::oracles::flatten_all(messages_view(self.messages@).take(k as int)),
            decreases self.messages@.len() - k,
        {
            let ghost before = views(out@);
            let evals = self.messages[k].inner();
            let mut j: usize = 0;
            while j < evals.len()
                invariant
                    j <= evals@.len(),
                    views(out@) == before + views(evals@).take(j as int),
                decreases evals@.len() - j,
            {
                let ghost prev = views(out@);
                out.push(evals[j]);
                proof {
                    assert(views(out@) =~= prev.push(evals@[j as int]@));
                    assert(views(out@) =~= before + views(evals@).take(j + 1));
                }
                j = j + 1;
            }
            proof {
                assert(views(evals@).take(j as int) =~= views(evals@));
                assert(messages_view(self.messages@).take(k + 1).drop_last() =~= messages_view(
                    self.messages@,
                ).take(k as int));
            }
            k = k + 1;
        }
        proof {
            assert(messages_view(self.messages@).take(k as int) =~= messages_view(self.messages@));
        }
        out
    }
}

/// What the prover ends with.
pub struct ProverOutput {
    /// Point where to evaluate the sumcheck polynomial.
    pub point: MultiPoint,
    pub proof: Proof,
    /// Evaluation of each multilinear polynomial at the point.
    pub evals: Vec<Scalar>,
}

/// The reverse of a vector.
pub(crate) fn reversed(v: &Vec<Scalar>) -> (r: Vec<Scalar>)
    ensures
        r@ == v@.reverse(),
{
    let mut out: Vec<Scalar> = Vec::new();
    let n = v.len();
    let mut j: usize = 0;
    while j < n
        invariant
            n == v@.len(),
            j <= n,
            out@ == v@.reverse().take(j as int),
        decreases n - j,
    {
        out.push(v[n - 1 - j]);
        proof {
            assert(out@ =~= v@.reverse().take(j + 1));
        }
        j = j + 1;
    }
    proof {
        assert(v@.reverse().take(n as int) =~= v@.reverse());
    }
    out
}

/// The prover of the sumcheck protocol for a function over `vars` variables.
pub struct SumcheckProver {
    vars: usize,
    degree: usize,
    function: Expr,
}

impl SumcheckProver {
    pub closed spec fn vars(&self) -> nat {
        self.vars as nat
    }

    pub closed spec fn degree(&self) -> nat {
        self.degree as nat
    }

    pub closed spec fn function(&self) -> Expr {
        self.function
    }

    pub closed spec fn wf(&self) -> bool {
        1 <= self.degree < usize::MAX
    }

    /// The prover for `function`, whose multilinear polynomials come from
    /// the given locations; the messages have the function's degree.
    pub fn new(vars: usize, function: Expr, locations: &Vec<EvalLocation>) -> (r: SumcheckProver)
        requires
            mles_below(function, locations@.len() as nat),
            1 <= expr_degree(function, locations@) < usize::MAX,
        ensures
            r.wf(),
            r.vars() == vars,
            r.degree() == expr_degree(function, locations@),
            r.function() == function,
    {
        let degree = function.degree(locations);
        SumcheckProver { vars, degree, function }
    }

    /// The honest round message of the table.
    pub fn message(&self, mles: &Vec<Vec<Scalar>>, challs: &Vec<Scalar>) -> (r: Message)
        requires
            self.wf(),
            mles@.len() > 0,
            table_wf(rows(mles@), rows(mles@)[0].len()),
            expr_wf(self.function(), rows(mles@)[0].len(), challs@.len() as nat),
        ensures
            r@ == round_poly(self.function(), rows(mles@), views(challs@), self.degree()),
    {
        round_message(&self.function, mles, challs, self.degree)
    }

    /// Runs the prover's side of the protocol on the table `mle` of
    /// `2^vars` rows: each round sends the honest message and binds the
    /// round's variable to the challenge; the point is the challenges in
    /// reverse order.
    pub fn prove(&self, transcript: &mut Transcript, mle: Vec<Vec<Scalar>>, challs: &Vec<Scalar>) -> (r: Result<
        ProverOutput,
        SumcheckError,
    >)
        requires
            self.wf(),
            old(transcript).wf(),
            mle@.len() == pow2(self.vars()),
            table_wf(rows(mle@), rows(mle@)[0].len()),
            expr_wf(self.function(), rows(mle@)[0].len(), challs@.len() as nat),
        ensures
            final(transcript).wf(),
            final(transcript)@.rounds == old(transcript)@.rounds,
            r is Ok <==> sumcheck_rounds_ok(old(transcript)@, self.vars(), self.degree()),
            r matches Err(e) ==> refused_at(old(transcript)@, self.vars(), self.degree(), e),
            r matches Ok(out) ==> ({
                let p = prover_run(
                    self.function(),
                    views(challs@),
                    self.degree(),
                    rows(mle@),
                    old(transcript)@.sponge,
                    self.vars(),
                );
                &&& messages_view(out.proof.messages@) == p.messages
                &&& out.point@ == p.challenges.reverse()
                &&& views(out.evals@) == p.table[0]
                &&& final(transcript)@.sponge == p.sponge
                &&& final(transcript)@.next == old(transcript)@.next + self.vars()
            }),
    {
        let ghost f = self.function;
        let ghost c = views(challs@);
        let ghost d = self.degree as nat;
        let ghost t0 = rows(mle@);
        let ghost v0 = transcript@;
        let ghost m = t0[0].len();
        let mut table = mle;
        let mut messages: Vec<Message> = Vec::new();
        let mut vars: Vec<Scalar> = Vec::new();
        let mut i: usize = 0;
        while i < self.vars
            invariant
                self.wf(),
                f == self.function,
                d == self.degree,
                c == views(challs@),
                m == t0[0].len(),
                i <= self.vars,
                v0 == old(transcript)@,
                transcript.wf(),
                transcript@.rounds == v0.rounds,
                transcript@.next == v0.next + i,
                table@.len() == pow2((self.vars - i) as nat),
                table_wf(rows(table@), m),
                expr_wf(f, m, c.len()),
                rows(table@) == prover_run(f, c, d, t0, v0.sponge, i as nat).table,
                messages_view(messages@) == prover_run(f, c, d, t0, v0.sponge, i as nat).messages,
                views(vars@) == prover_run(f, c, d, t0, v0.sponge, i as nat).challenges,
                transcript@.sponge == prover_run(f, c, d, t0, v0.sponge, i as nat).sponge,
                sumcheck_rounds_ok(v0, i as nat, d),
            decreases self.vars - i,
        {
            let ghost p = prover_run(f, c, d, t0, v0.sponge, i as nat);
            proof {
                lemma_pow2_pos((self.vars - i) as nat);
                assert(rows(table@)[0].len() == m);
            }
            let msg = self.message(&table, challs);
            let ghost transcript_sponge_before = transcript@.sponge;
            let tm = message_to_transcript(&msg);
            proof {
                assert(tm.elements@.len() == views(tm.elements@).len());
                assert(tm.elements@.len() == d + 1);
            }
            let ghost before = transcript@;
            match transcript.send_message(&tm, 1) {
                Err(e) => {
                    proof {
                        assert(transcript@ == before);
                        assert(!(v0.next + i < v0.rounds.len() && round_accepts(
                            v0.rounds[v0.next + i],
                            MessageKind::Sumcheck,
                            d + 1,
                            1,
                        )));
                        assert(!sumcheck_rounds_ok(v0, self.vars as nat, d)) by {
                            if sumcheck_rounds_ok(v0, self.vars as nat, d) {
                                let k = v0.next + i;
                                lemma_sumcheck_round_at(v0, self.vars as nat, d, k);
                                assert(k < v0.rounds.len() && round_accepts(
                                    v0.rounds[k],
                                    MessageKind::Sumcheck,
                                    d + 1,
                                    1,
                                ));
                            }
                        }
                    }
                    proof {
                        assert(!sumcheck_rounds_ok(v0, (i + 1) as nat, d)) by {
                            if sumcheck_rounds_ok(v0, (i + 1) as nat, d) {
                                lemma_sumcheck_round_at(v0, (i + 1) as nat, d, v0.next + i);
                            }
                        }
                        assert(sumcheck_rounds_ok(v0, i as nat, d));
                    }
                    return Err(SumcheckError::TranscriptError(e));
                },
                Ok(ch) => {
                    proof {
                        lemma_squeezed_len(spec_absorb_all(transcript_sponge_before, msg@), 1);
                        assert(views(ch@).len() == 1);
                    }
                    let r = ch[0];
                    proof {
                        assert(views(ch@)[0] == r@);
                        lemma_pow2_unfold((self.vars - i) as nat);
                        assert(rows(table@)[0].len() == m);
                    }
                    bind_variable(&mut table, &r);
                    assert(table@.len() == rows(table@).len());
                    assert(table@.len() == pow2((self.vars - i - 1) as nat));
                    let ghost ms = messages@;
                    messages.push(msg);
                    let ghost vs = vars@;
                    vars.push(r);
                    proof {
                        assert(round_accepts(v0.rounds[v0.next + i], MessageKind::Sumcheck, d + 1, 1));
                        assert(sumcheck_rounds_ok(v0, (i + 1) as nat, d));
                        assert(messages_view(messages@) =~= messages_view(ms).push(msg@));
                        assert(views(vars@) =~= views(vs).push(r@));
                        assert forall|b: int| 0 <= b < rows(table@).len() implies #[trigger] rows(
                            table@,
                        )[b].len() == m by {
                            assert(rows(table@)[b] == fix_rows(p.table, r@)[b]);
                        }
                    }
                },
            }
            i = i + 1;
        }
        proof {
            lemma_pow2_pos(0);
            assert(rows(table@)[0].len() == m);
            assert(sumcheck_rounds_ok(v0, self.vars as nat, d));
        }
        let evals = copy_scalars(&table[0]);
        let point = MultiPoint::new(reversed(&vars));
        proof {
            assert(views(vars@).reverse() =~= views(vars@.reverse()));
        }
        Ok(ProverOutput { point, proof: Proof { messages }, evals })
    }

    /// Runs the prover's side of a zerocheck: as `prove`, but the first
    /// polynomial of each row holds the product table of `powers`, which is
    /// recomputed from the factors left after each round instead of being
    /// bound like the others.
    pub fn prove_zerocheck(
        &self,
        powers: CompactPowers,
        transcript: &mut Transcript,
        mle: Vec<Vec<Scalar>>,
        challs: &Vec<Scalar>,
    ) -> (r: Result<ProverOutput, SumcheckError>)
        requires
            self.wf(),
            old(transcript).wf(),
            mle@.len() == pow2(powers@.len()),
            table_wf(rows(mle@), rows(mle@)[0].len()),
            rows(mle@)[0].len() >= 1,
            expr_wf(self.function(), rows(mle@)[0].len(), challs@.len() as nat),
            forall|j: int| 0 <= j < powers@.len() - 1 ==> #[trigger] powers@[j].1 != 0,
        ensures
            final(transcript).wf(),
            final(transcript)@.rounds == old(transcript)@.rounds,
            r is Ok <==> sumcheck_rounds_ok(old(transcript)@, powers@.len(), self.degree()),
            r matches Err(e) ==> refused_at(old(transcript)@, powers@.len(), self.degree(), e),
            r matches Ok(out) ==> ({
                let p = zerocheck_run(
                    self.function(),
                    views(challs@),
                    self.degree(),
                    rows(mle@),
                    old(transcript)@.sponge,
                    powers@,
                    powers@.len(),
                ).run;
                &&& messages_view(out.proof.messages@) == p.messages
                &&& out.point@ == p.challenges.reverse()
                &&& views(out.evals@) == p.table[0]
                &&& final(transcript)@.sponge == p.sponge
                &&& final(transcript)@.next == old(transcript)@.next + powers@.len()
            }),
    {
        let ghost f = self.function;
        let ghost c = views(challs@);
        let ghost d = self.degree as nat;
        let ghost t0 = rows(mle@);
        let ghost v0 = transcript@;
        let ghost m = t0[0].len();
        let ghost pw = powers@;
        let nvars = powers.vars();
        let mut shrinking = ShrinkingPowers::new(powers);
        let mut table = mle;
        let mut messages: Vec<Message> = Vec::new();
        let mut vars: Vec<Scalar> = Vec::new();
        let mut i: usize = 0;
        proof {
            assert(pw.take(pw.len() as int) =~= pw);
        }
        while i < nvars
            invariant
                self.wf(),
                f == self.function,
                d == self.degree,
                c == views(challs@),
                m == t0[0].len(),
                m >= 1,
                pw == powers@,
                nvars == pw.len(),
                forall|j: int| 0 <= j < pw.len() - 1 ==> #[trigger] pw[j].1 != 0,
                i <= nvars,
                v0 == old(transcript)@,
                transcript.wf(),
                transcript@.rounds == v0.rounds,
                transcript@.next == v0.next + i,
                table@.len() == pow2((nvars - i) as nat),
                table_wf(rows(table@), m),
                expr_wf(f, m, c.len()),
                shrinking.remaining() == pw.take(nvars - i),
                shrinking.remaining() == zerocheck_run(f, c, d, t0, v0.sponge, pw, i as nat).remaining,
                shrinking.scale() == zerocheck_run(f, c, d, t0, v0.sponge, pw, i as nat).scale,
                rows(table@) == zerocheck_run(f, c, d, t0, v0.sponge, pw, i as nat).run.table,
                messages_view(messages@) == zerocheck_run(f, c, d, t0, v0.sponge, pw, i as nat).run.messages,
                views(vars@) == zerocheck_run(f, c, d, t0, v0.sponge, pw, i as nat).run.challenges,
                transcript@.sponge == zerocheck_run(f, c, d, t0, v0.sponge, pw, i as nat).run.sponge,
                sumcheck_rounds_ok(v0, i as nat, d),
            decreases nvars - i,
        {
            let ghost z = zerocheck_run(f, c, d, t0, v0.sponge, pw, i as nat);
            proof {
                lemma_pow2_pos((nvars - i) as nat);
                assert(rows(table@)[0].len() == m);
            }
            let msg = self.message(&table, challs);
            let ghost transcript_sponge_before = transcript@.sponge;
            let tm = message_to_transcript(&msg);
            proof {
                assert(tm.elements@.len() == views(tm.elements@).len());
                assert(tm.elements@.len() == d + 1);
            }
            let ghost before = transcript@;
            match transcript.send_message(&tm, 1) {
                Err(e) => {
                    proof {
                        assert(transcript@ == before);
                        assert(!(v0.next + i < v0.rounds.len() && round_accepts(
                            v0.rounds[v0.next + i],
                            MessageKind::Sumcheck,
                            d + 1,
                            1,
                        )));
                        assert(!sumcheck_rounds_ok(v0, nvars as nat, d)) by {
                            if sumcheck_rounds_ok(v0, nvars as nat, d) {
                                let k = v0.next + i;
                                lemma_sumcheck_round_at(v0, nvars as nat, d, k);
                            }
                        }
                    }
                    proof {
                        assert(!sumcheck_rounds_ok(v0, (i + 1) as nat, d)) by {
                            if sumcheck_rounds_ok(v0, (i + 1) as nat, d) {
                                lemma_sumcheck_round_at(v0, (i + 1) as nat, d, v0.next + i);
                            }
                        }
                        assert(sumcheck_rounds_ok(v0, i as nat, d));
                    }
                    return Err(SumcheckError::TranscriptError(e));
                },
                Ok(ch) => {
                    proof {
                        lemma_squeezed_len(spec_absorb_all(transcript_sponge_before, msg@), 1);
                        assert(views(ch@).len() == 1);
                    }
                    let r = ch[0];
                    proof {
                        assert(views(ch@)[0] == r@);
                        lemma_pow2_unfold((nvars - i) as nat);
                        assert(rows(table@)[0].len() == m);
                        assert forall|j: int|
                            0 <= j < shrinking.remaining().len() - 1 implies #[trigger] shrinking.remaining()[j].1 != 0 by {
                            assert(shrinking.remaining()[j] == pw[j]);
                        }
                    }
                    let rows_left = table.len();
                    assert(rows_left == pow2(shrinking.remaining().len()));
                    let col = shrinking.fix(&r);
                    proof {
                        lemma_hyper_prod_len(shrinking.remaining(), shrinking.scale());
                        assert(shrinking.remaining() =~= pw.take(nvars - i - 1));
                        assert(col@.len() == views(col@).len());
                    }
                    bind_variable_custom(&mut table, &r, &col);
                    assert(table@.len() == rows(table@).len());
                    let ghost ms = messages@;
                    messages.push(msg);
                    let ghost vs = vars@;
                    vars.push(r);
                    proof {
                        assert(round_accepts(v0.rounds[v0.next + i], MessageKind::Sumcheck, d + 1, 1));
                        assert(sumcheck_rounds_ok(v0, (i + 1) as nat, d));
                        assert(messages_view(messages@) =~= messages_view(ms).push(msg@));
                        assert(views(vars@) =~= views(vs).push(r@));
                        assert forall|b: int| 0 <= b < rows(table@).len() implies #[trigger] rows(
                            table@,
                        )[b].len() == m by {
                            assert(rows(table@)[b] == with_col0(fix_rows(z.run.table, r@), views(col@))[b]);
                        }
                    }
                },
            }
            i = i + 1;
        }
        proof {
            lemma_pow2_pos(0);
            assert(rows(table@)[0].len() == m);
        }
        let evals = copy_scalars(&table[0]);
        let point = MultiPoint::new(reversed(&vars));
        proof {
            assert(views(vars@).reverse() =~= views(vars@.reverse()));
        }
        Ok(ProverOutput { point, proof: Proof { messages }, evals })
    }
}

/// The verifier's check of one round: a message of the expected length
/// whose values at zero and one add up to the claimed sum; the new claim is
/// its value at the challenge.
pub open spec fn check_round(m: Seq<nat>, d: nat, sum: nat, r: nat) -> Result<nat, SumcheckError> {
    if m.len() != d + 1 {
        Err(SumcheckError::Degree(UnexpectedDegree))
    } else if fadd(m[0], m[1]) != sum {
        Err(SumcheckError::RoundSum)
    } else {
        Ok(bary_eval(d, m, r))
    }
}

/// The claim after checking the first `k` messages against the challenges
/// `rs`, the first message against `sum`.
pub open spec fn verify_fold(msgs: Seq<Seq<nat>>, rs: Seq<nat>, d: nat, sum: nat, k: nat) -> Result<
    nat,
    SumcheckError,
>
    decreases k,
{
    if k == 0 {
        Ok(sum)
    } else {
        match verify_fold(msgs, rs, d, sum, (k - 1) as nat) {
            Ok(s) => check_round(msgs[k - 1], d, s, rs[k - 1]),
            Err(e) => Err(e),
        }
    }
}

/// Once the check fails, it stays failed.
proof fn lemma_verify_fold_err(msgs: Seq<Seq<nat>>, rs: Seq<nat>, d: nat, sum: nat, k: nat, n: nat)
    requires
        k <= n,
        verify_fold(msgs, rs, d, sum, k) is Err,
    ensures
        verify_fold(msgs, rs, d, sum, n) == verify_fold(msgs, rs, d, sum, k),
    decreases n - k,
{
    if k < n {
        lemma_verify_fold_err(msgs, rs, d, sum, k + 1, n);
    }
}


/// The state of the verifier after some rounds: the claimed sum, the
/// challenges drawn, and the transcript's sponge and next round.
pub struct VerifierRun {
    pub sum: nat,
    pub challenges: Seq<nat>,
    pub sponge: SpongeView,
    pub next: nat,
}

/// The first `k` rounds of the verifier against a transcript with the given
/// rounds: each message must have the expected length, be accepted by the
/// transcript, and pass the round check with the challenge it draws.
pub open spec fn verifier_run(
    msgs: Seq<Seq<nat>>,
    d: nat,
    rounds: Seq<Round>,
    start: VerifierRun,
    k: nat,
) -> Result<VerifierRun, SumcheckError>
    decreases k,
{
    if k == 0 {
        Ok(start)
    } else {
        match verifier_run(msgs, d, rounds, start, (k - 1) as nat) {
            Err(e) => Err(e),
            Ok(st) => {
                let m = msgs[k - 1];
                if m.len() != d + 1 {
                    Err(SumcheckError::Degree(UnexpectedDegree))
                } else if st.next >= rounds.len() {
                    Err(SumcheckError::TranscriptError(Error::TranscriptFinished))
                } else if !round_accepts(rounds[st.next as int], MessageKind::Sumcheck, d + 1, 1) {
                    Err(SumcheckError::TranscriptError(Error::UnexpectedMessage))
                } else {
                    let r = challenges_for(st.sponge, m, 1)[0];
                    match check_round(m, d, st.sum, r) {
                        Err(e) => Err(e),
                        Ok(s) => Ok(
                            VerifierRun {
                                sum: s,
                                challenges: st.challenges.push(r),
                                sponge: sponge_after(st.sponge, m, 1),
                                next: st.next + 1,
                            },
                        ),
                    }
                }
            },
        }
    }
}

/// The claim that round `k`'s message must meet: the starting sum for the
/// first round, otherwise the previous round's message at the previous
/// round's challenge.
pub open spec fn claim_before(msgs: Seq<Seq<nat>>, chals: Seq<nat>, d: nat, sum: nat, k: int) -> nat {
    if k == 0 {
        sum
    } else {
        bary_eval(d, msgs[k - 1], chals[k - 1])
    }
}

/// Every one of the first `n` rounds is sound: its message has `d + 1`
/// values, and its values at zero and one add up to the claim before it.
pub open spec fn rounds_sound(msgs: Seq<Seq<nat>>, chals: Seq<nat>, d: nat, sum: nat, n: nat) -> bool {
    forall|k: int|
        0 <= k < n ==> (#[trigger] msgs[k]).len() == d + 1 && fadd(msgs[k][0], msgs[k][1])
            == claim_before(msgs, chals, d, sum, k)
}

/// Soundness and completeness of the verifier's check of the messages
/// against the challenges: it accepts the first `n` messages exactly when
/// every one of those rounds is sound (each message's values at zero and one
/// add up to the claim left by the round before), and then ends with the
/// last message's value at its challenge.
pub proof fn lemma_verify_fold_rounds(msgs: Seq<Seq<nat>>, rs: Seq<nat>, d: nat, sum: nat, n: nat)
    requires
        n <= msgs.len(),
        n <= rs.len(),
    ensures
        verify_fold(msgs, rs, d, sum, n) is Ok <==> rounds_sound(msgs, rs, d, sum, n),
        verify_fold(msgs, rs, d, sum, n) matches Ok(c) ==> c == claim_before(msgs, rs, d, sum, n as int),
    decreases n,
{
    if n > 0 {
        let k = (n - 1) as nat;
        lemma_verify_fold_rounds(msgs, rs, d, sum, k);
        if rounds_sound(msgs, rs, d, sum, n) {
            assert(rounds_sound(msgs, rs, d, sum, k));
            assert(msgs[k as int].len() == d + 1);
        }
        if verify_fold(msgs, rs, d, sum, n) is Ok {
            assert(verify_fold(msgs, rs, d, sum, k) is Ok);
            assert forall|j: int| 0 <= j < n implies (#[trigger] msgs[j]).len() == d + 1 && fadd(msgs[j][0], msgs[j][1])
                == claim_before(msgs, rs, d, sum, j) by {
                if j < k {
                    assert(rounds_sound(msgs, rs, d, sum, k));
                }
            }
        }
    }
}

/// The sponge after absorbing the first `k` messages, each followed by
/// one challenge.
pub open spec fn sponge_chain(s: SpongeView, msgs: Seq<Seq<nat>>, k: nat) -> SpongeView
    decreases k,
{
    if k == 0 {
        s
    } else {
        sponge_after(sponge_chain(s, msgs, (k - 1) as nat), msgs[k - 1], 1)
    }
}

/// Soundness of the verifier's run through the transcript: when it goes
/// through `n` rounds, it has drawn one challenge per round, every one of
/// those rounds is sound against the challenges it drew (each message's
/// values at zero and one add up to the claim left by the round before),
/// and the claim it ends with is the last message at its challenge.
pub proof fn lemma_verifier_run_rounds(
    msgs: Seq<Seq<nat>>,
    d: nat,
    rounds: Seq<Round>,
    start: VerifierRun,
    n: nat,
)
    requires
        n <= msgs.len(),
    ensures
        verifier_run(msgs, d, rounds, start, n) matches Ok(st) ==> {
            let chals = st.challenges.skip(start.challenges.len() as int);
            &&& st.challenges.len() == start.challenges.len() + n
            &&& st.challenges.take(start.challenges.len() as int) == start.challenges
            &&& rounds_sound(msgs, chals, d, start.sum, n)
            &&& st.sum == claim_before(msgs, chals, d, start.sum, n as int)
            &&& st.sponge == sponge_chain(start.sponge, msgs, n)
            &&& st.next == start.next + n
            &&& forall|k: int|
                0 <= k < n ==> #[trigger] chals[k] == challenges_for(sponge_chain(start.sponge, msgs, k as nat), msgs[k], 1)[0]
                    && start.next + k < rounds.len() && round_accepts(
                    rounds[start.next + k],
                    MessageKind::Sumcheck,
                    d + 1,
                    1,
                )
        },
    decreases n,
{
    if n > 0 {
        let k = (n - 1) as nat;
        lemma_verifier_run_rounds(msgs, d, rounds, start, k);
        if verifier_run(msgs, d, rounds, start, n) is Ok {
            let prev = verifier_run(msgs, d, rounds, start, k)->Ok_0;
            let st = verifier_run(msgs, d, rounds, start, n)->Ok_0;
            let l = start.challenges.len() as int;
            let pc = prev.challenges.skip(l);
            let chals = st.challenges.skip(l);
            assert(st.challenges == prev.challenges.push(chals[k as int]));
            assert(chals =~= pc.push(chals[k as int]));
            assert(st.challenges.take(l) =~= prev.challenges.take(l));
            assert forall|j: int| 0 <= j < n implies #[trigger] chals[j] == challenges_for(
                sponge_chain(start.sponge, msgs, j as nat),
                msgs[j],
                1,
            )[0] && start.next + j < rounds.len() && round_accepts(
                rounds[start.next + j],
                MessageKind::Sumcheck,
                d + 1,
                1,
            ) by {
                if j < k {
                    assert(chals[j] == pc[j]);
                }
            }
            assert forall|j: int| 0 <= j < n implies (#[trigger] msgs[j]).len() == d + 1 && fadd(msgs[j][0], msgs[j][1])
                == claim_before(msgs, chals, d, start.sum, j) by {
                if j < k {
                    assert(rounds_sound(msgs, pc, d, start.sum, k));
                    assert(msgs[j].len() == d + 1 && fadd(msgs[j][0], msgs[j][1]) == claim_before(msgs, pc, d, start.sum, j));
                    if j > 0 {
                        assert(chals[j - 1] == pc[j - 1]);
                    }
                } else {
                    if j > 0 {
                        assert(chals[j - 1] == pc[j - 1]);
                    }
                }
            }
        }
    }
}

/// Once the verifier fails, it stays failed.
proof fn lemma_verifier_run_err(
    msgs: Seq<Seq<nat>>,
    d: nat,
    rounds: Seq<Round>,
    start: VerifierRun,
    k: nat,
    n: nat,
)
    requires
        k <= n,
        verifier_run(msgs, d, rounds, start, k) is Err,
    ensures
        verifier_run(msgs, d, rounds, start, n) == verifier_run(msgs, d, rounds, start, k),
    decreases n - k,
{
    if k < n {
        lemma_verifier_run_err(msgs, d, rounds, start, k + 1, n);
    }
}

/// A verifier's run that goes through draws one challenge per round.
pub proof fn lemma_verifier_run_len(
    msgs: Seq<Seq<nat>>,
    d: nat,
    rounds: Seq<Round>,
    start: VerifierRun,
    k: nat,
)
    ensures
        verifier_run(msgs, d, rounds, start, k) matches Ok(st) ==> st.challenges.len()
            == start.challenges.len() + k,
    decreases k,
{
    if k > 0 {
        lemma_verifier_run_len(msgs, d, rounds, start, (k - 1) as nat);
    }
}

/// The claim the sumcheck reduces to: the polynomial evaluates to `eval` at
/// the point `vars`.
pub struct PolyEvalCheck {
    pub vars: Vec<Scalar>,
    pub eval: Scalar,
}

/// The verifier of the sumcheck protocol for a function over `vars` variables.
pub struct SumcheckVerifier {
    vars: usize,
    weights: BarycentricWeights,
    degree: usize,
    function: Expr,
}

impl SumcheckVerifier {
    pub closed spec fn vars(&self) -> nat {
        self.vars as nat
    }

    pub closed spec fn degree(&self) -> nat {
        self.degree as nat
    }

    pub closed spec fn function(&self) -> Expr {
        self.function
    }

    pub closed spec fn wf(&self) -> bool {
        &&& self.weights.wf()
        &&& self.weights.degree() == self.degree
        &&& 1 <= self.degree < u32::MAX
    }

    /// The verifier for `function`, whose multilinear polynomials come from
    /// the given locations.
    pub fn new(vars: usize, function: Expr, locations: &Vec<EvalLocation>) -> (r: SumcheckVerifier)
        requires
            mles_below(function, locations@.len() as nat),
            1 <= expr_degree(function, locations@) < u32::MAX,
        ensures
            r.wf(),
            r.vars() == vars,
            r.degree() == expr_degree(function, locations@),
            r.function() == function,
    {
        let degree = function.degree(locations);
        let weights = BarycentricWeights::compute(degree as u32);
        SumcheckVerifier { vars, weights, degree, function }
    }

    /// The rounds of the protocol: one per variable, each a message of
    /// `degree + 1` evaluations answered by one challenge.
    pub fn transcript_pattern(&self, builder: TranscriptBuilder) -> (r: TranscriptBuilder)
        requires
            self.wf(),
            builder.wf(),
        ensures
            r.wf(),
            r@.vars == builder@.vars,
            r@.rounds == builder@.rounds + Seq::new(
                self.vars(),
                |k: int| Round { kind: MessageKind::Sumcheck, message_len: (self.degree() + 1) as usize, challenges: 1 },
            ),
    {
        let ghost start = builder@.rounds;
        let ghost vars0 = builder@.vars;
        let ghost round = Round { kind: MessageKind::Sumcheck, message_len: (self.degree + 1) as usize, challenges: 1 };
        let mut builder = builder;
        let mut i: usize = 0;
        proof {
            assert(start + Seq::new(0, |k: int| round) =~= start);
        }
        while i < self.vars
            invariant
                self.wf(),
                builder.wf(),
                i <= self.vars,
                round == (Round { kind: MessageKind::Sumcheck, message_len: (self.degree + 1) as usize, challenges: 1 }),
                builder@.vars == vars0,
                builder@.rounds == start + Seq::new(i as nat, |k: int| round),
            decreases self.vars - i,
        {
            builder = builder.round(MessageKind::Sumcheck, self.degree + 1, 1);
            proof {
                assert(builder@.rounds =~= start + Seq::new((i + 1) as nat, |k: int| round));
            }
            i = i + 1;
        }
        builder
    }

    /// Checks the final claim: the function, computed on the evaluations of
    /// the multilinear polynomials at the point, gives `c`.
    pub fn check_evals_at_r(&self, evals: Vec<Scalar>, c: &Scalar, challs: &Vec<Scalar>) -> (r: bool)
        requires
            expr_wf(self.function(), evals@.len() as nat, challs@.len() as nat),
        ensures
            r == (expr_eval(self.function(), views(evals@), views(challs@)) == c@),
    {
        let env = EvalCheckEnv::new(evals, copy_scalars(challs));
        let eval: Scalar = self.function.function(&env);
        proof {
            assert(env_values(self.function, env)[0] == eval@);
        }
        eval.equals(c)
    }

    /// Checks the messages of a proof against the challenges of the point
    /// `r`, taken from its last variable, starting from the claim `sum`;
    /// it leaves to the caller the check that the polynomial evaluates at
    /// `r` to the claim it returns. A proof must carry exactly one message
    /// per variable.
    pub fn verify(&self, r: &MultiPoint, proof: Proof, sum: Scalar) -> (res: Result<Scalar, SumcheckError>)
        requires
            self.wf(),
            r@.len() == self.vars(),
        ensures
            proof.messages@.len() != self.vars() ==> res == Err::<Scalar, SumcheckError>(
                SumcheckError::MessageCount,
            ),
            res matches Ok(v) ==> proof.messages@.len() == self.vars() && rounds_sound(
                messages_view(proof.messages@),
                r@.reverse(),
                self.degree(),
                sum@,
                self.vars(),
            ) && v@ == claim_before(messages_view(proof.messages@), r@.reverse(), self.degree(), sum@, self.vars() as int),
            proof.messages@.len() == self.vars() && rounds_sound(
                messages_view(proof.messages@),
                r@.reverse(),
                self.degree(),
                sum@,
                self.vars(),
            ) ==> res is Ok,
            proof.messages@.len() == self.vars() ==> match verify_fold(
                messages_view(proof.messages@),
                r@.reverse(),
                self.degree(),
                sum@,
                proof.messages@.len() as nat,
            ) {
                Ok(c) => res matches Ok(v) && v@ == c,
                Err(e) => res == Err::<Scalar, SumcheckError>(e),
            },
    {
        let ghost msgs = messages_view(proof.messages@);
        let ghost rs = r@.reverse();
        let ghost d = self.degree as nat;
        let ghost sum0 = sum@;
        let messages = &proof.messages;
        if messages.len() != self.vars {
            return Err(SumcheckError::MessageCount);
        }
        proof {
            assert(messages_view(proof.messages@).len() == proof.messages@.len());
            lemma_verify_fold_rounds(msgs, rs, d, sum0, self.vars as nat);
        }
        let mut point = MultiPoint::new(copy_scalars(r.inner_ref()));
        let mut claim = sum;
        let n = messages.len();
        let mut k: usize = 0;
        proof {
            assert(r@.take(r@.len() as int) =~= r@);
        }
        while k < n
            invariant
                self.wf(),
                d == self.degree,
                n == messages@.len(),
                n == self.vars(),
                n <= r@.len(),
                msgs == messages_view(messages@),
                msgs == messages_view(proof.messages@),
                messages@ == proof.messages@,
                sum0 == sum@,
                rs == r@.reverse(),
                k <= n,
                point@ == r@.take(r@.len() - k),
                verify_fold(msgs, rs, d, sum0, k as nat) == Ok::<nat, SumcheckError>(claim@),
            decreases n - k,
        {
            let message = &messages[k];
            proof {
                assert(msgs[k as int] == message@);
            }
            let evals = message.inner();
            proof {
                assert(views(evals@).len() == evals@.len());
            }
            if evals.len() != self.degree + 1 {
                proof {
                    assert(msgs[k as int].len() != d + 1);
                    assert(verify_fold(msgs, rs, d, sum0, (k + 1) as nat) == check_round(msgs[k as int], d, claim@, rs[k as int]));
                    lemma_verify_fold_err(msgs, rs, d, sum0, (k + 1) as nat, n as nat);
                }
                return Err(SumcheckError::Degree(UnexpectedDegree));
            }
            let e0 = message.eval_at_0();
            let e1 = message.eval_at_1();
            if !e0.add(&e1).equals(&claim) {
                proof {
                    assert(verify_fold(msgs, rs, d, sum0, (k + 1) as nat) == check_round(msgs[k as int], d, claim@, rs[k as int]));
                    lemma_verify_fold_err(msgs, rs, d, sum0, (k + 1) as nat, n as nat);
                }
                return Err(SumcheckError::RoundSum);
            }
            let var = point.pop_mut();
            proof {
                assert(var@ == rs[k as int]);
                assert(r@.take(r@.len() - k).drop_last() =~= r@.take(r@.len() - (k + 1)));
            }
            claim = message.eval_at_x(&var, &self.weights);
            k = k + 1;
        }
        Ok(claim)
    }

    /// Runs the verifier's side of the protocol through the transcript:
    /// each round reads the next message of the guarded proof, checks its
    /// length, passes it through the transcript for a challenge, and checks
    /// it against the claimed sum.  It reduces the claim `sum` to the claim
    /// that the polynomial evaluates at the challenges (in reverse order) to
    /// the returned evaluation.
    pub fn verify_reduction(
        &self,
        sum: Scalar,
        proof: &GuardedProof<Proof>,
        transcript: &mut VerifierTranscript,
    ) -> (r: Result<PolyEvalCheck, SumcheckError>)
        requires
            self.wf(),
            old(transcript).wf(),
            proof.value().messages@.len() >= self.vars(),
        ensures
            final(transcript).valid(),
            r is Ok ==> final(transcript).wf(),
            final(transcript)@.rounds == old(transcript)@.rounds,
            match verifier_run(
                messages_view(proof.value().messages@),
                self.degree(),
                old(transcript)@.rounds,
                VerifierRun {
                    sum: sum@,
                    challenges: seq![],
                    sponge: old(transcript)@.sponge,
                    next: old(transcript)@.next,
                },
                self.vars(),
            ) {
                Ok(st) => r matches Ok(c) && views(c.vars@) == st.challenges.reverse() && c.eval@
                    == st.sum && final(transcript)@.sponge == st.sponge && final(transcript)@.next
                    == st.next,
                Err(e) => r == Err::<PolyEvalCheck, SumcheckError>(e),
            },
            r matches Ok(c) ==> rounds_sound(
                messages_view(proof.value().messages@),
                views(c.vars@).reverse(),
                self.degree(),
                sum@,
                self.vars(),
            ) && c.eval@ == claim_before(
                messages_view(proof.value().messages@),
                views(c.vars@).reverse(),
                self.degree(),
                sum@,
                self.vars() as int,
            ) && views(c.vars@).len() == self.vars(),
            r matches Ok(c) ==> final(transcript)@.sponge == sponge_chain(
                old(transcript)@.sponge,
                messages_view(proof.value().messages@),
                self.vars(),
            ) && final(transcript)@.next == old(transcript)@.next + self.vars() && forall|k: int|
                0 <= k < self.vars() ==> #[trigger] views(c.vars@).reverse()[k] == challenges_for(
                    sponge_chain(old(transcript)@.sponge, messages_view(proof.value().messages@), k as nat),
                    messages_view(proof.value().messages@)[k],
                    1,
                )[0],
    {
        let ghost msgs = messages_view(proof.value().messages@);
        let ghost d = self.degree as nat;
        let ghost v0 = transcript@;
        let ghost start = VerifierRun {
            sum: sum@,
            challenges: seq![],
            sponge: v0.sponge,
            next: v0.next,
        };
        proof {
            lemma_verifier_run_rounds(msgs, d, v0.rounds, start, self.vars as nat);
        }
        let mut claim = sum;
        let mut vars: Vec<Scalar> = Vec::new();
        proof {
            assert(views(vars@) =~= Seq::<nat>::empty());
        }
        let mut i: usize = 0;
        while i < self.vars
            invariant
                self.wf(),
                d == self.degree,
                v0 == old(transcript)@,
                msgs == messages_view(proof.value().messages@),
                start == (VerifierRun {
                    sum: sum@,
                    challenges: seq![],
                    sponge: v0.sponge,
                    next: v0.next,
                }),
                proof.value().messages@.len() >= self.vars,
                i <= self.vars,
                transcript.wf(),
                transcript@.rounds == v0.rounds,
                verifier_run(msgs, d, v0.rounds, start, i as nat) == Ok::<VerifierRun, SumcheckError>(
                    VerifierRun {
                        sum: claim@,
                        challenges: views(vars@),
                        sponge: transcript@.sponge,
                        next: transcript@.next,
                    },
                ),
            decreases self.vars - i,
        {
            let ghost st = VerifierRun {
                sum: claim@,
                challenges: views(vars@),
                sponge: transcript@.sponge,
                next: transcript@.next,
            };
            let ghost m = msgs[i as int];
            let evals = proof.inner().messages[i].inner();
            let len = evals.len();
            proof {
                assert(m == proof.value().messages@[i as int]@);
                assert(views(evals@).len() == len);
            }
            if len != self.degree + 1 {
                proof {
                    lemma_verifier_run_err(msgs, d, v0.rounds, start, (i + 1) as nat, self.vars as nat);
                }
                // The message cannot be read as the round's: the round is
                // consumed, and nothing enters the sponge.
                transcript.skip_round();
                return Err(SumcheckError::Degree(UnexpectedDegree));
            }
            let query = |p: &Proof| -> (tm: TranscriptMessage)
                requires
                    i < p.messages@.len(),
                ensures
                    tm.kind == MessageKind::Sumcheck,
                    views(tm.elements@) == p.messages@[i as int]@,
                { message_to_transcript(&p.messages[i]) };
            let received = transcript.receive_message(query, proof, 1);
            match received {
                Err(e) => {
                    proof {
                        let w = choose|w: TranscriptMessage|
                            #[trigger] query.ensures((&proof.value(),), w) && !(st.next
                                < v0.rounds.len() && round_accepts(
                                v0.rounds[st.next as int],
                                w.kind,
                                w.elements@.len() as nat,
                                1,
                            ));
                        assert(views(w.elements@).len() == w.elements@.len());
                        lemma_verifier_run_err(msgs, d, v0.rounds, start, (i + 1) as nat, self.vars as nat);
                    }
                    return Err(SumcheckError::TranscriptError(e));
                },
                Ok(pair) => {
                    let (tm, ch) = pair;
                    let message = Message::new(tm.elements);
                    proof {
                        lemma_squeezed_len(spec_absorb_all(st.sponge, m), 1);
                        assert(message@ == m);
                    }
                    let e0 = message.eval_at_0();
                    let e1 = message.eval_at_1();
                    if !e0.add(&e1).equals(&claim) {
                        proof {
                            lemma_verifier_run_err(msgs, d, v0.rounds, start, (i + 1) as nat, self.vars as nat);
                        }
                        return Err(SumcheckError::RoundSum);
                    }
                    let r = ch[0];
                    proof {
                        assert(views(ch@)[0] == r@);
                    }
                    let ghost before = views(vars@);
                    vars.push(r);
                    claim = message.eval_at_x(&r, &self.weights);
                    proof {
                        assert(views(vars@) =~= before.push(r@));
                    }
                },
            }
            i = i + 1;
        }
        let point = reversed(&vars);
        proof {
            assert(views(vars@).reverse() =~= views(vars@.reverse()));
            assert(views(vars@).reverse().reverse() =~= views(vars@));
            assert(views(vars@).skip(0) =~= views(vars@));
        }
        Ok(PolyEvalCheck { vars: point, eval: claim })
    }
}

/// The verifier's run depends only on the first `k` messages.
pub proof fn lemma_verifier_run_prefix(
    a: Seq<Seq<nat>>,
    b: Seq<Seq<nat>>,
    d: nat,
    rounds: Seq<Round>,
    start: VerifierRun,
    k: nat,
)
    requires
        k <= a.len(),
        k <= b.len(),
        forall|i: int| 0 <= i < k ==> a[i] == b[i],
    ensures
        verifier_run(a, d, rounds, start, k) == verifier_run(b, d, rounds, start, k),
    decreases k,
{
    if k > 0 {
        lemma_verifier_run_prefix(a, b, d, rounds, start, (k - 1) as nat);
        assert(a[k - 1] == b[k - 1]);
    }
}

/// The honest prover's run sends `k` messages.
pub proof fn lemma_prover_run_len(
    f: Expr,
    challs: Seq<nat>,
    d: nat,
    t: Seq<Seq<nat>>,
    s: SpongeView,
    k: nat,
)
    ensures
        prover_run(f, challs, d, t, s, k).messages.len() == k,
        prover_run(f, challs, d, t, s, k).challenges.len() == k,
    decreases k,
{
    if k > 0 {
        lemma_prover_run_len(f, challs, d, t, s, (k - 1) as nat);
    }
}

/// Prover and verifier agree: on the honest prover's messages, over a
/// transcript whose next `n` rounds are sumcheck rounds, the verifier draws
/// the same challenges and leaves the sponge in the same state as the
/// prover; the only check that can fail is a round sum.
pub proof fn lemma_honest_agreement(
    f: Expr,
    challs: Seq<nat>,
    d: nat,
    t: Seq<Seq<nat>>,
    s: SpongeView,
    rounds: Seq<Round>,
    next: nat,
    sum: nat,
    n: nat,
)
    requires
        sumcheck_rounds_ok(TranscriptView { sponge: s, rounds, next }, n, d),
    ensures
        ({
            let p = prover_run(f, challs, d, t, s, n);
            let v = verifier_run(
                p.messages,
                d,
                rounds,
                VerifierRun { sum, challenges: seq![], sponge: s, next },
                n,
            );
            &&& (v is Ok || v == Err::<VerifierRun, SumcheckError>(SumcheckError::RoundSum))
            &&& (v matches Ok(st) ==> st.challenges == p.challenges && st.sponge == p.sponge
                && st.next == next + n)
        }),
    decreases n,
{
    let start = VerifierRun { sum, challenges: seq![], sponge: s, next };
    if n > 0 {
        let k = (n - 1) as nat;
        let view = TranscriptView { sponge: s, rounds, next };
        assert(sumcheck_rounds_ok(view, k, d));
        lemma_honest_agreement(f, challs, d, t, s, rounds, next, sum, k);
        let q = prover_run(f, challs, d, t, s, k);
        let p = prover_run(f, challs, d, t, s, n);
        lemma_prover_run_len(f, challs, d, t, s, k);
        assert forall|i: int| 0 <= i < k implies p.messages[i] == q.messages[i] by {}
        lemma_verifier_run_prefix(p.messages, q.messages, d, rounds, start, k);
        match verifier_run(q.messages, d, rounds, start, k) {
            Err(e) => {},
            Ok(st) => {
                lemma_sumcheck_round_at(view, n, d, (next + k) as int);
                assert(p.messages[k as int] == round_poly(f, q.table, challs, d));
            },
        }
    }
}

/// The rounds that `transcript_pattern` adds are sumcheck rounds for the
/// verifier's degree: a transcript standing at the first of them accepts
/// the prover's messages.
pub proof fn lemma_pattern_rounds_ok(pre: Seq<Round>, sponge: SpongeView, n: nat, d: nat)
    requires
        d + 1 <= usize::MAX,
    ensures
        sumcheck_rounds_ok(
            TranscriptView {
                sponge,
                rounds: pre + Seq::new(
                    n,
                    |k: int| Round { kind: MessageKind::Sumcheck, message_len: (d + 1) as usize, challenges: 1 },
                ),
                next: pre.len(),
            },
            n,
            d,
        ),
{
}


} // verus!
