//! Folding of two sumcheck instances over the same function into one.
//!
//! The two witnesses are the two halves of a table with one more variable;
//! a round of sumcheck on that variable, weighed by `eq(beta, x)` for a
//! challenge `beta`, reduces the claim `(1 - beta) * s0 + beta * s1` to a
//! claim on the witness folded at the round's challenge.
use crate::algebra::views;
use crate::barycentric::{bary_eval, BarycentricWeights};
use crate::field::{fadd, finv, fmul, fsub, group_field, lemma_mul_comm, Scalar};
use crate::message::{line_evals, line_value, Message};
use crate::polynomials::eq_factor;
use crate::sponge::{lemma_squeezed_len, spec_absorb_all};
use crate::sumcheck::{
    bind_variable, copy_scalars, expr_degree, expr_eval, fold_degree, expr_wf, line_row, fix_rows, lemma_line_row_endpoints,
    lemma_rows_reduced, mles_below, round_message, round_poly, rows, table_reduced, table_sum,
    table_wf, EvalLocation, Expr, MessageEnv, SumcheckError, SumcheckMessage, UnexpectedDegree,
};
use crate::sumcheck_relations::SumcheckInstance;
use crate::zerocheck::CompactPowers;
use vstd::arithmetic::power2::{lemma_pow2_unfold, pow2};
use crate::transcript::{
    challenges_for, round_accepts, sponge_after, GuardedProof, MessageKind, Round, Transcript,
    TranscriptBuilder, TranscriptMessage, TranscriptView, VerifierTranscript,
};
use vstd::prelude::*;

verus! {

broadcast use {group_field, crate::transcript::lemma_verifier_wf_valid};

/// The folded round message: the honest message extended to `d + 2`
/// points, weighed point by point by `eq(beta, x)`.
pub open spec fn folded_message(m: Seq<nat>, d: nat, beta: nat) -> Seq<nat> {
    Seq::new(
        d + 2,
        |x: int|
            fmul(m.push(bary_eval(d, m, d + 1))[x], line_value(fsub(1, beta), beta, x as nat)),
    )
}

/// The claim the two sums are folded into: `(1 - beta) * s0 + beta * s1`.
pub open spec fn folded_sum(s0: nat, s1: nat, beta: nat) -> nat {
    fadd(fmul(fsub(1, beta), s0), fmul(beta, s1))
}

/// The claim after the round: the message at `r`, divided by `eq(beta, r)`.
pub open spec fn reduced_sum(msg: Seq<nat>, d: nat, beta: nat, r: nat) -> nat {
    fmul(bary_eval(d + 1, msg, r), finv(eq_factor(r, beta)))
}

/// The empty message that asks for the folding challenge.
pub open spec fn no_elements() -> Seq<nat> {
    Seq::<nat>::empty()
}

/// Block `i` of the zerocheck folding: the pair of messages of size `s`
/// at `2 * i * s`, weighed by the powers' lines and added, then their
/// extensions weighed by the lines' extensions.
pub open spec fn fold_block(
    msgs: Seq<nat>,
    s: nat,
    i: nat,
    pe: Seq<nat>,
    po: Seq<nat>,
    pel: nat,
    pol: nat,
) -> Seq<nat> {
    let off = (2 * i * s) as int;
    let m0 = msgs.subrange(off, off + s);
    let m1 = msgs.subrange(off + s, off + 2 * s);
    let d = (s - 1) as nat;
    Seq::new(
        s + 1,
        |k: int|
            if k < s {
                fadd(fmul(m0[k], pe[k]), fmul(m1[k], po[k]))
            } else {
                fadd(fmul(bary_eval(d, m0, d + 1), pel), fmul(bary_eval(d, m1, d + 1), pol))
            },
    )
}

/// The first `count` blocks of the zerocheck folding, one after the other.
pub open spec fn fold_blocks(
    msgs: Seq<nat>,
    s: nat,
    pe: Seq<nat>,
    po: Seq<nat>,
    pel: nat,
    pol: nat,
    count: nat,
) -> Seq<nat>
    decreases count,
{
    if count == 0 {
        seq![]
    } else {
        fold_blocks(msgs, s, pe, po, pel, pol, (count - 1) as nat) + fold_block(
            msgs,
            s,
            (count - 1) as nat,
            pe,
            po,
            pel,
            pol,
        )
    }
}

/// A copy of `v[start..end]`.
fn copy_range(v: &Vec<Scalar>, start: usize, end: usize) -> (r: Vec<Scalar>)
    requires
        start <= end <= v@.len(),
    ensures
        views(r@) == views(v@).subrange(start as int, end as int),
{
    let mut out: Vec<Scalar> = Vec::new();
    let mut j: usize = start;
    while j < end
        invariant
            start <= j <= end,
            end <= v@.len(),
            views(out@) == views(v@).subrange(start as int, j as int),
        decreases end - j,
    {
        let ghost prev = views(out@);
        out.push(v[j]);
        proof {
            assert(views(out@) =~= prev.push(v@[j as int]@));
            assert(views(out@) =~= views(v@).subrange(start as int, j + 1));
        }
        j = j + 1;
    }
    out
}

/// Folds the messages of the zerocheck folding by one more variable: each
/// pair of consecutive messages is weighed by the lines through the powers'
/// factors of that variable (the even and the odd one) and added, one more
/// evaluation being taken from the extensions.
pub fn fold_with_powers(powers: [[Scalar; 2]; 2], messages: &Vec<Scalar>, weights: &BarycentricWeights) -> (r:
    Vec<Scalar>)
    requires
        weights.wf(),
        1 <= weights.degree() < usize::MAX - 1,
        messages@.len() % (weights.degree() + 1) == 0,
    ensures
        ({
            let d = weights.degree();
            let s = d + 1;
            let pe = crate::message::line_evals(powers[0][0]@, powers[0][1]@, d);
            let po = crate::message::line_evals(powers[1][0]@, powers[1][1]@, d);
            let n = messages@.len() / s;
            views(r@) == fold_blocks(
                views(messages@),
                s,
                pe,
                po,
                bary_eval(d, pe, d + 1),
                bary_eval(d, po, d + 1),
                n / 2,
            )
        }),
{
    let ghost d = weights.degree();
    let powers_even = powers[0];
    let powers_odd = powers[1];
    let size = weights.domain_size();
    let even = Message::new_degree_n(&powers_even[0], &powers_even[1], size - 1);
    let even = even.inner();
    proof {
        assert(views(even@).len() == even@.len());
    }
    let even_last = weights.extend(even);
    let odd = Message::new_degree_n(&powers_odd[0], &powers_odd[1], size - 1);
    let odd = odd.inner();
    proof {
        assert(views(odd@).len() == odd@.len());
    }
    let odd_last = weights.extend(odd);
    let ghost msgs = views(messages@);
    let ghost pe = views(even@);
    let ghost po = views(odd@);
    let len = messages.len();
    let n = len / size;
    let mut res: Vec<Scalar> = Vec::new();
    let mut i: usize = 0;
    proof {
        assert(fold_blocks(msgs, size as nat, pe, po, even_last@, odd_last@, 0) =~= Seq::<nat>::empty());
        assert(views(res@) =~= Seq::<nat>::empty());
    }
    while i < n / 2
        invariant
            size == d + 1,
            1 <= d < usize::MAX - 1,
            weights.wf(),
            weights.degree() == d,
            len == messages@.len(),
            n == len / size,
            len % size == 0,
            msgs == views(messages@),
            even@.len() == size,
            odd@.len() == size,
            pe == views(even@),
            po == views(odd@),
            i <= n / 2,
            views(res@) == fold_blocks(msgs, size as nat, pe, po, even_last@, odd_last@, i as nat),
        decreases n / 2 - i,
    {
        proof {
            assert(n * size == len) by {
                vstd::arithmetic::div_mod::lemma_fundamental_div_mod(len as int, size as int);
            }
            assert(i * size <= i * size * 2) by (nonlinear_arith);
            assert((i + 1) * 2 * size <= n * size) by (nonlinear_arith)
                requires
                    i < n / 2,
                    size > 0,
            ;
            assert(i * size * 2 + size * 2 == (i + 1) * 2 * size) by (nonlinear_arith);
            assert(i * size * 2 == 2 * i * size) by (nonlinear_arith);
        }
        let offset = i * size * 2;
        let msg0 = copy_range(messages, offset, offset + size);
        let msg1 = copy_range(messages, offset + size, offset + size * 2);
        let ghost block = fold_block(msgs, size as nat, i as nat, pe, po, even_last@, odd_last@);
        let ghost start = views(res@);
        proof {
            assert(views(msg0@).len() == msg0@.len());
            assert(views(msg1@).len() == msg1@.len());
        }
        let mut k: usize = 0;
        while k < size
            invariant
                size == d + 1,
                msg0@.len() == size,
                msg1@.len() == size,
                even@.len() == size,
                odd@.len() == size,
                pe == views(even@),
                po == views(odd@),
                views(msg0@) == msgs.subrange(2 * i * size, 2 * i * size + size),
                views(msg1@) == msgs.subrange(2 * i * size + size, 2 * i * size + 2 * size),
                block == fold_block(msgs, size as nat, i as nat, pe, po, even_last@, odd_last@),
                k <= size,
                views(res@) == start + block.take(k as int),
            decreases size - k,
        {
            let v = msg0[k].mul(&even[k]).add(&msg1[k].mul(&odd[k]));
            let ghost prev = views(res@);
            res.push(v);
            proof {
                assert(views(msg0@)[k as int] == msg0@[k as int]@);
                assert(views(msg1@)[k as int] == msg1@[k as int]@);
                assert(views(res@) =~= prev.push(v@));
                assert(views(res@) =~= start + block.take(k + 1));
            }
            k = k + 1;
        }
        let e0 = weights.extend(&msg0);
        let e1 = weights.extend(&msg1);
        let v = e0.mul(&even_last).add(&e1.mul(&odd_last));
        let ghost prev = views(res@);
        res.push(v);
        proof {
            assert(views(res@) =~= prev.push(v@));
            assert(block.take(size as int).push(v@) =~= block);
            assert(views(res@) =~= start + block);
        }
        i = i + 1;
    }
    res
}

/// The key of the folding: the function, its degree, and the weights for
/// that degree and the next.
pub struct SumFoldKey {
    weights: BarycentricWeights,
    extended_weights: BarycentricWeights,
    degree: usize,
    function: Expr,
}

/// What the folding prover ends with.
pub struct SumFoldProverOutput {
    /// The folded claim.
    pub sum: Scalar,
    /// The witness folded at the round's challenge.
    pub folded_witness: Vec<Vec<Scalar>>,
    pub proof: SumcheckMessage,
    /// The round's challenge, at which everything is folded.
    pub challenge: Scalar,
    /// The two instances' claims, the unfolded message's values at zero
    /// and one.
    pub sums: (Scalar, Scalar),
}

/// The two rounds of the folding: the challenge `beta`, then the folded
/// message of `degree + 2` evaluations and its challenge.
pub open spec fn fold_rounds_ok(v: TranscriptView, d: nat) -> bool {
    &&& v.next + 1 < v.rounds.len()
    &&& round_accepts(v.rounds[v.next as int], MessageKind::Unit, 0, 1)
    &&& round_accepts(v.rounds[v.next + 1 as int], MessageKind::Sumcheck, d + 2, 1)
}

/// The verifier's answer on a transcript standing at `v`, for the claims
/// `s0`, `s1` and the message `m`.
pub open spec fn fold_verify(v: TranscriptView, d: nat, s0: nat, s1: nat, m: Seq<nat>) -> Result<
    nat,
    SumcheckError,
> {
    if !(v.next < v.rounds.len() && round_accepts(v.rounds[v.next as int], MessageKind::Unit, 0, 1)) {
        Err(
            SumcheckError::TranscriptError(
                if v.next >= v.rounds.len() {
                    crate::transcript::Error::TranscriptFinished
                } else {
                    crate::transcript::Error::UnexpectedMessage
                },
            ),
        )
    } else {
        let beta = challenges_for(v.sponge, no_elements(), 1)[0];
        let sponge = sponge_after(v.sponge, no_elements(), 1);
        if m.len() != d + 2 {
            Err(SumcheckError::Degree(UnexpectedDegree))
        } else if !(v.next + 1 < v.rounds.len() && round_accepts(
            v.rounds[v.next + 1 as int],
            MessageKind::Sumcheck,
            d + 2,
            1,
        )) {
            Err(
                SumcheckError::TranscriptError(
                    if v.next + 1 >= v.rounds.len() {
                        crate::transcript::Error::TranscriptFinished
                    } else {
                        crate::transcript::Error::UnexpectedMessage
                    },
                ),
            )
        } else {
            let r = challenges_for(sponge, m, 1)[0];
            if fadd(m[0], m[1]) != folded_sum(s0, s1, beta) {
                Err(SumcheckError::RoundSum)
            } else {
                Ok(reduced_sum(m, d, beta, r))
            }
        }
    }
}

/// The challenge of the folding's round, for a transcript at `v` and the
/// message `m`.
pub open spec fn fold_challenge(v: TranscriptView, m: Seq<nat>) -> nat {
    challenges_for(sponge_after(v.sponge, no_elements(), 1), m, 1)[0]
}

/// The instance evaluations of two instances folded at `r`: each on the
/// line from the first's to the second's, at `r`.
pub fn fold_instance_evals(a: &Vec<Scalar>, b: &Vec<Scalar>, r: &Scalar) -> (out: Vec<Scalar>)
    requires
        a@.len() == b@.len(),
    ensures
        views(out@) == line_row(views(a@), views(b@), r@),
{
    let mut out: Vec<Scalar> = Vec::new();
    let mut i: usize = 0;
    while i < a.len()
        invariant
            a@.len() == b@.len(),
            i <= a@.len(),
            views(out@) == line_row(views(a@), views(b@), r@).take(i as int),
        decreases a@.len() - i,
    {
        let v = r.mul(&b[i].sub(&a[i])).add(&a[i]);
        let ghost prev = views(out@);
        out.push(v);
        proof {
            assert(views(a@)[i as int] == a@[i as int]@);
            assert(views(b@)[i as int] == b@[i as int]@);
            assert(views(out@) =~= prev.push(v@));
            assert(views(out@) =~= line_row(views(a@), views(b@), r@).take(i + 1));
        }
        i = i + 1;
    }
    proof {
        assert(line_row(views(a@), views(b@), r@).take(i as int) =~= line_row(views(a@), views(b@), r@));
    }
    out
}

/// Two instances' powers folded at `r`: each factor on the line from the
/// first instance's to the second's, at `r`.
pub fn fold_powers(p1: &CompactPowers, p2: &CompactPowers, r: &Scalar) -> (out: CompactPowers)
    requires
        p1@.len() == p2@.len(),
    ensures
        out@ == crate::zero_folding::lines_at(p1@, p2@, r@, p1@.len()),
{
    let f1 = p1.factors();
    let f2 = p2.factors();
    let mut out: Vec<(Scalar, Scalar)> = Vec::new();
    let mut j: usize = 0;
    while j < f1.len()
        invariant
            crate::zerocheck::pair_views(f1@) == p1@,
            crate::zerocheck::pair_views(f2@) == p2@,
            f1@.len() == f2@.len(),
            j <= f1@.len(),
            out@.len() == j,
            crate::zerocheck::pair_views(out@) == crate::zero_folding::lines_at(p1@, p2@, r@, j as nat),
        decreases f1@.len() - j,
    {
        let (a0, a1) = f1[j];
        let (b0, b1) = f2[j];
        let c0 = r.mul(&b0.sub(&a0)).add(&a0);
        let c1 = r.mul(&b1.sub(&a1)).add(&a1);
        let ghost before = out@;
        out.push((c0, c1));
        proof {
            assert(p1@[j as int] == (a0@, a1@));
            assert(p2@[j as int] == (b0@, b1@));
            let target = crate::zero_folding::lines_at(p1@, p2@, r@, (j + 1) as nat);
            let prev = crate::zero_folding::lines_at(p1@, p2@, r@, j as nat);
            assert forall|k: int| 0 <= k < j + 1 implies #[trigger] crate::zerocheck::pair_views(out@)[k] == target[k] by {
                if k < j {
                    assert(out@[k] == before[k]);
                    assert(crate::zerocheck::pair_views(before)[k] == prev[k]);
                } else {
                    assert(out@[k] == (c0, c1));
                }
            }
            assert(crate::zerocheck::pair_views(out@) =~= target);
        }
        j = j + 1;
    }
    CompactPowers::from_factors(out)
}

/// The two tables, the first above the second.
fn concat_tables(w1: Vec<Vec<Scalar>>, w2: &Vec<Vec<Scalar>>) -> (r: Vec<Vec<Scalar>>)
    ensures
        rows(r@) == rows(w1@) + rows(w2@),
{
    let mut out = w1;
    let ghost start = rows(out@);
    let mut b: usize = 0;
    while b < w2.len()
        invariant
            b <= w2@.len(),
            rows(out@) == start + rows(w2@).take(b as int),
        decreases w2@.len() - b,
    {
        let ghost prev = rows(out@);
        out.push(copy_scalars(&w2[b]));
        proof {
            assert(rows(out@) =~= prev.push(views(w2@[b as int]@)));
            assert(rows(out@) =~= start + rows(w2@).take(b + 1));
        }
        b = b + 1;
    }
    proof {
        assert(rows(w2@).take(b as int) =~= rows(w2@));
    }
    out
}

/// The honest message of the table made of two tables of the same shape
/// gives, at zero and one, the sums of the function over each of them.
pub proof fn lemma_round_poly_halves(
    f: Expr,
    t1: Seq<Seq<nat>>,
    t2: Seq<Seq<nat>>,
    challs: Seq<nat>,
    d: nat,
    m: nat,
)
    requires
        d >= 1,
        t1.len() == t2.len(),
        table_wf(t1, m),
        table_wf(t2, m),
        table_reduced(t1),
        table_reduced(t2),
    ensures
        round_poly(f, t1 + t2, challs, d)[0] == table_sum(f, t1, challs),
        round_poly(f, t1 + t2, challs, d)[1] == table_sum(f, t2, challs),
{
    let t = t1 + t2;
    let h = t1.len() as int;
    assert(t.len() / 2 == h);
    assert forall|b: int| 0 <= b < h implies line_row(t[b], t[b + h], 0) == t1[b] && line_row(
        t[b],
        t[b + h],
        1,
    ) == t2[b] by {
        assert(t[b] == t1[b] && t[b + h] == t2[b]);
        lemma_line_row_endpoints(t1[b], t2[b]);
    }
    assert(Seq::new(h as nat, |b: int| expr_eval(f, line_row(t[b], t[b + h], 0), challs))
        =~= Seq::new(t1.len(), |b: int| expr_eval(f, t1[b], challs)));
    assert(Seq::new(h as nat, |b: int| expr_eval(f, line_row(t[b], t[b + h], 1), challs))
        =~= Seq::new(t2.len(), |b: int| expr_eval(f, t2[b], challs)));
}

/// The folded honest message passes the verifier's check: its values at
/// zero and one add up to the folded claim `(1 - beta) * s0 + beta * s1`,
/// where `s0` and `s1` are the honest message's values at zero and one.
pub proof fn lemma_folded_round_check(m: Seq<nat>, d: nat, beta: nat)
    requires
        m.len() == d + 1,
        d >= 1,
    ensures
        fadd(folded_message(m, d, beta)[0], folded_message(m, d, beta)[1]) == folded_sum(
            m[0],
            m[1],
            beta,
        ),
{
    let a = fsub(1, beta);
    crate::field::lemma_fsub_lt(1, beta);
    lemma_line_at_zero(a, beta);
    lemma_line_at_one(a, beta);
    assert(m.push(bary_eval(d, m, d + 1))[0] == m[0]);
    assert(m.push(bary_eval(d, m, d + 1))[1] == m[1]);
    lemma_mul_comm(m[0], a);
    lemma_mul_comm(m[1], beta % crate::field::modulus());
    vstd::arithmetic::div_mod::lemma_mul_mod_noop_left(beta as int, m[1] as int, crate::field::modulus() as int);
}

/// The line through `(0, a)` and `(1, b)` is `a` at zero, for a reduced `a`.
proof fn lemma_line_at_zero(a: nat, b: nat)
    requires
        a < crate::field::modulus(),
    ensures
        line_value(a, b, 0) == a,
{
    crate::field::lemma_mul_zero(fsub(b, a));
    crate::field::lemma_add_zero(a);
}

/// The line through `(0, a)` and `(1, b)` is `b`, reduced, at one.
proof fn lemma_line_at_one(a: nat, b: nat)
    requires
        a < crate::field::modulus(),
    ensures
        line_value(a, b, 1) == b % crate::field::modulus(),
{
    let p = crate::field::modulus() as int;
    crate::field::lemma_fsub_lt(b, a);
    crate::field::lemma_mul_one(fsub(b, a));
    vstd::arithmetic::div_mod::lemma_add_mod_noop(b - a, a as int, p);
    vstd::arithmetic::div_mod::lemma_mod_twice(b - a, p);
    crate::field::lemma_small(a);
    vstd::arithmetic::div_mod::lemma_add_mod_noop((b - a) % p, a as int, p);
}

/// Prover and verifier of the folding agree: on a transcript whose next two
/// rounds are the folding's, the verifier accepts the honest folded message
/// of two witnesses of the sumcheck relation and returns the prover's
/// folded claim; both fold the instances' evaluations at the same
/// challenge, `fold_challenge(v, fm)`, so that `verify_folding` returns the
/// instance `prove_folding` gives.
pub proof fn lemma_fold_agreement(
    f: Expr,
    t1: Seq<Seq<nat>>,
    t2: Seq<Seq<nat>>,
    m: nat,
    d: nat,
    v: TranscriptView,
)
    requires
        d >= 1,
        fold_rounds_ok(v, d),
        t1.len() == t2.len(),
        table_wf(t1, m),
        table_wf(t2, m),
        table_reduced(t1),
        table_reduced(t2),
    ensures
        ({
            let msg = round_poly(f, t1 + t2, seq![], d);
            let beta = challenges_for(v.sponge, no_elements(), 1)[0];
            let sponge = sponge_after(v.sponge, no_elements(), 1);
            let fm = folded_message(msg, d, beta);
            let r = challenges_for(sponge, fm, 1)[0];
            &&& r == fold_challenge(v, fm)
            &&& fold_verify(v, d, table_sum(f, t1, seq![]), table_sum(f, t2, seq![]), fm) == Ok::<
                nat,
                SumcheckError,
            >(reduced_sum(fm, d, beta, r))
        }),
{
    let msg = round_poly(f, t1 + t2, seq![], d);
    let beta = challenges_for(v.sponge, no_elements(), 1)[0];
    lemma_round_poly_halves(f, t1, t2, seq![], d, m);
    lemma_folded_round_check(msg, d, beta);
}

impl SumFoldKey {
    pub closed spec fn degree(&self) -> nat {
        self.degree as nat
    }

    pub closed spec fn function(&self) -> Expr {
        self.function
    }

    pub closed spec fn wf(&self) -> bool {
        &&& self.weights.wf()
        &&& self.weights.degree() == self.degree
        &&& self.extended_weights.wf()
        &&& self.extended_weights.degree() == self.degree + 1
        &&& 1 <= self.degree
        &&& self.degree + 1 < u32::MAX
    }

    /// A well-formed key's degree is at least one and leaves room for the
    /// folded message's two more points.
    pub proof fn lemma_wf_degree(&self)
        requires
            self.wf(),
        ensures
            1 <= self.degree(),
            self.degree() + 1 < u32::MAX,
    {
    }

    /// The key for `function`, whose polynomials live where `locations` says;
    /// its degree is the function's degree in the folding variable.
    pub fn new(function: Expr, locations: &Vec<EvalLocation>) -> (r: SumFoldKey)
        requires
            mles_below(function, locations@.len() as nat),
            1 <= fold_degree(function, locations@),
            fold_degree(function, locations@) + 1 < u32::MAX,
        ensures
            r.wf(),
            r.degree() == fold_degree(function, locations@),
            r.function() == function,
    {
        let degree = function.folding_degree(locations);
        let weights = BarycentricWeights::compute(degree as u32);
        let extended_weights = BarycentricWeights::compute(degree as u32 + 1);
        SumFoldKey { weights, extended_weights, degree, function }
    }

    /// The key for `function` with a degree given by the caller, as when the
    /// function is weighed by more than its own polynomials.
    pub fn new_custom_degree(degree: usize, function: Expr) -> (r: SumFoldKey)
        requires
            1 <= degree,
            degree + 1 < u32::MAX,
        ensures
            r.wf(),
            r.degree() == degree,
            r.function() == function,
    {
        let weights = BarycentricWeights::compute(degree as u32);
        let extended_weights = BarycentricWeights::compute(degree as u32 + 1);
        SumFoldKey { weights, extended_weights, degree, function }
    }

    /// The rounds of the folding.
    pub fn transcript_pattern(&self, builder: TranscriptBuilder) -> (r: TranscriptBuilder)
        requires
            self.wf(),
            builder.wf(),
        ensures
            r.wf(),
            r@.vars == builder@.vars,
            r@.rounds == builder@.rounds.push(
                Round { kind: MessageKind::Unit, message_len: 0, challenges: 1 },
            ).push(
                Round {
                    kind: MessageKind::Sumcheck,
                    message_len: (self.degree() + 2) as usize,
                    challenges: 1,
                },
            ),
    {
        builder.round(MessageKind::Unit, 0, 1).round(MessageKind::Sumcheck, self.degree + 2, 1)
    }

    /// Folds two witnesses of the sumcheck relation, with sums `s0` and
    /// `s1`: draws `beta`, sends the folded honest message, and folds the
    /// witnesses at the round's challenge `r`; the folded claim is the
    /// message at `r` divided by `eq(beta, r)`.
    pub fn prove(
        &self,
        s0: &Scalar,
        s1: &Scalar,
        w1: Vec<Vec<Scalar>>,
        w2: &Vec<Vec<Scalar>>,
        transcript: &mut Transcript,
    ) -> (r: Result<SumFoldProverOutput, SumcheckError>)
        requires
            self.wf(),
            old(transcript).wf(),
            w1@.len() == w2@.len(),
            w1@.len() > 0,
            table_wf(rows(w1@), rows(w1@)[0].len()),
            table_wf(rows(w2@), rows(w1@)[0].len()),
            expr_wf(self.function(), rows(w1@)[0].len(), 0),
            s0@ == table_sum(self.function(), rows(w1@), seq![]),
            s1@ == table_sum(self.function(), rows(w2@), seq![]),
        ensures
            final(transcript).wf(),
            final(transcript)@.rounds == old(transcript)@.rounds,
            r is Ok <==> fold_rounds_ok(old(transcript)@, self.degree()),
            r matches Err(e) ==> e == SumcheckError::TranscriptError(
                if !(old(transcript)@.next < old(transcript)@.rounds.len() && round_accepts(
                    old(transcript)@.rounds[old(transcript)@.next as int],
                    MessageKind::Unit,
                    0,
                    1,
                )) {
                    if old(transcript)@.next >= old(transcript)@.rounds.len() {
                        crate::transcript::Error::TranscriptFinished
                    } else {
                        crate::transcript::Error::UnexpectedMessage
                    }
                } else if old(transcript)@.next + 1 >= old(transcript)@.rounds.len() {
                    crate::transcript::Error::TranscriptFinished
                } else {
                    crate::transcript::Error::UnexpectedMessage
                },
            ),
            r matches Ok(out) ==> ({
                let t = rows(w1@) + rows(w2@);
                let v0 = old(transcript)@;
                let msg = round_poly(self.function(), t, seq![], self.degree());
                let beta = challenges_for(v0.sponge, no_elements(), 1)[0];
                let sponge = sponge_after(v0.sponge, no_elements(), 1);
                let fm = folded_message(msg, self.degree(), beta);
                let r = challenges_for(sponge, fm, 1)[0];
                &&& out.proof@ == fm
                &&& out.challenge@ == r
                &&& out.sums == (*s0, *s1)
                &&& out.sum@ == reduced_sum(fm, self.degree(), beta, r)
                &&& rows(out.folded_witness@) == fix_rows(t, r)
                &&& final(transcript)@.sponge == sponge_after(sponge, fm, 1)
                &&& final(transcript)@.next == v0.next + 2
                &&& fadd(fm[0], fm[1]) == folded_sum(s0@, s1@, beta)
            }),
    {
        let ghost v0 = transcript@;
        let ghost f = self.function;
        let ghost d = self.degree as nat;
        let ghost m = rows(w1@)[0].len();
        let ghost t1 = rows(w1@);
        let ghost t2 = rows(w2@);
        let table = concat_tables(w1, w2);
        let ghost t = rows(table@);
        proof {
            lemma_rows_reduced(table@);
            assert(table_wf(t, m)) by {
                assert forall|b: int| 0 <= b < t.len() implies #[trigger] t[b].len() == m by {
                    if b < t1.len() {
                        assert(t[b] == t1[b]);
                    } else {
                        assert(t[b] == t2[b - t1.len()]);
                    }
                }
            }
            assert(t[0] == t1[0]);
        }
        let empty: Vec<Scalar> = Vec::new();
        proof {
            assert(views(empty@) =~= Seq::<nat>::empty());
        }
        let msg = round_message(&self.function, &table, &empty, self.degree);
        proof {
            lemma_rows_reduced(w2@);
            lemma_rows_reduced(table@);
            assert(t =~= t1 + t2);
            assert(table_reduced(t1)) by {
                assert forall|b: int| 0 <= b < t1.len() implies crate::algebra::reduced(#[trigger] t1[b]) by {
                    assert(t1[b] == t[b]);
                }
            }
            lemma_round_poly_halves(f, t1, t2, seq![], d, m);
        }
        let unit = TranscriptMessage { kind: MessageKind::Unit, elements: Vec::new() };
        proof {
            assert(views(unit.elements@) =~= no_elements());
        }
        let beta = match transcript.send_message(&unit, 1) {
            Err(e) => {
                return Err(SumcheckError::TranscriptError(e));
            },
            Ok(c) => {
                proof {
                    lemma_squeezed_len(spec_absorb_all(v0.sponge, no_elements()), 1);
                    assert(views(c@).len() == 1);
                    assert(views(c@)[0] == c@[0]@);
                }
                c[0]
            },
        };
        let ghost v1 = transcript@;
        let eq_beta = Message::new_degree_n(&Scalar::one().sub(&beta), &beta, self.degree + 1);
        let folded = msg.extend(&self.weights).mul(&eq_beta);
        proof {
            assert(folded@ =~= folded_message(msg@, d, beta@));
            lemma_folded_round_check(msg@, d, beta@);
        }
        let tm = crate::sumcheck::message_to_transcript(&folded);
        proof {
            assert(tm.elements@.len() == views(tm.elements@).len());
        }
        let r = match transcript.send_message(&tm, 1) {
            Err(e) => {
                return Err(SumcheckError::TranscriptError(e));
            },
            Ok(c) => {
                proof {
                    lemma_squeezed_len(spec_absorb_all(v1.sponge, folded@), 1);
                    assert(views(c@).len() == 1);
                    assert(views(c@)[0] == c@[0]@);
                }
                c[0]
            },
        };
        let one = Scalar::one();
        let eqr = r.mul(&beta).add(&one.sub(&r).mul(&one.sub(&beta)));
        let sum = folded.eval_at_x(&r, &self.extended_weights).div(&eqr);
        let mut witness = table;
        bind_variable(&mut witness, &r);
        let proof = SumcheckMessage::new(copy_scalars(folded.inner()));
        Ok(SumFoldProverOutput { sum, folded_witness: witness, proof, challenge: r, sums: (*s0, *s1) })
    }

    /// Checks the folding of two claims `s0`, `s1` by the message of the
    /// guarded proof; gives the folded claim and the round's challenge.
    fn verify_round(
        &self,
        s0: &Scalar,
        s1: &Scalar,
        proof: &GuardedProof<SumcheckMessage>,
        transcript: &mut VerifierTranscript,
    ) -> (r: Result<(Scalar, Scalar), SumcheckError>)
        requires
            self.wf(),
            old(transcript).wf(),
        ensures
            final(transcript).valid(),
            r is Ok ==> final(transcript).wf(),
            final(transcript)@.rounds == old(transcript)@.rounds,
            match fold_verify(old(transcript)@, self.degree(), s0@, s1@, proof.value()@) {
                Ok(x) => r matches Ok(y) && y.0@ == x && y.1@ == fold_challenge(
                    old(transcript)@,
                    proof.value()@,
                ),
                Err(e) => r == Err::<(Scalar, Scalar), SumcheckError>(e),
            },
    {
        let ghost v0 = transcript@;
        let ghost d = self.degree as nat;
        let unit = crate::transcript::Guard::new(
            TranscriptMessage { kind: MessageKind::Unit, elements: Vec::new() },
        );
        proof {
            assert(views(unit.value().elements@) =~= no_elements());
        }
        let beta = match transcript.unwrap_guard(unit, 1) {
            Err(e) => {
                return Err(SumcheckError::TranscriptError(e));
            },
            Ok(pair) => {
                let (_, c) = pair;
                proof {
                    lemma_squeezed_len(spec_absorb_all(v0.sponge, no_elements()), 1);
                    assert(views(c@).len() == 1);
                    assert(views(c@)[0] == c@[0]@);
                }
                c[0]
            },
        };
        let ghost v1 = transcript@;
        let one = Scalar::one();
        let sum = one.sub(&beta).mul(s0).add(&beta.mul(s1));
        let evals = proof.inner().inner();
        proof {
            assert(views(evals@).len() == evals@.len());
        }
        if evals.len() != self.degree + 2 {
            // The message cannot be read as the round's: the round is
            // consumed, and nothing enters the sponge.
            transcript.skip_round();
            return Err(SumcheckError::Degree(UnexpectedDegree));
        }
        let query = |p: &SumcheckMessage| -> (tm: TranscriptMessage)
            ensures
                tm.kind == MessageKind::Sumcheck,
                views(tm.elements@) == p@,
            { TranscriptMessage { kind: MessageKind::Sumcheck, elements: copy_scalars(p.inner()) } };
        let received = transcript.receive_message(query, proof, 1);
        match received {
            Err(e) => {
                proof {
                    let w = choose|w: TranscriptMessage|
                        #[trigger] query.ensures((&proof.value(),), w) && !(v1.next
                            < v1.rounds.len() && round_accepts(
                            v1.rounds[v1.next as int],
                            w.kind,
                            w.elements@.len() as nat,
                            1,
                        ));
                    assert(views(w.elements@).len() == w.elements@.len());
                }
                Err(SumcheckError::TranscriptError(e))
            },
            Ok(pair) => {
                let (tm, c) = pair;
                let msg = Message::new(tm.elements);
                proof {
                    lemma_squeezed_len(spec_absorb_all(v1.sponge, msg@), 1);
                    assert(views(c@).len() == 1);
                    assert(views(c@)[0] == c@[0]@);
                }
                let r = c[0];
                if !msg.eval_at_0().add(&msg.eval_at_1()).equals(&sum) {
                    return Err(SumcheckError::RoundSum);
                }
                let eqr = r.mul(&beta).add(&one.sub(&r).mul(&one.sub(&beta)));
                Ok((msg.eval_at_x(&r, &self.extended_weights).div(&eqr), r))
            },
        }
    }

    /// Checks the folding of two claims `s0`, `s1` by the message of the
    /// guarded proof, and returns the folded claim.
    pub fn verify(
        &self,
        s0: &Scalar,
        s1: &Scalar,
        proof: &GuardedProof<SumcheckMessage>,
        transcript: &mut VerifierTranscript,
    ) -> (r: Result<Scalar, SumcheckError>)
        requires
            self.wf(),
            old(transcript).wf(),
        ensures
            final(transcript).valid(),
            r is Ok ==> final(transcript).wf(),
            final(transcript)@.rounds == old(transcript)@.rounds,
            match fold_verify(old(transcript)@, self.degree(), s0@, s1@, proof.value()@) {
                Ok(x) => r matches Ok(y) && y@ == x,
                Err(e) => r == Err::<Scalar, SumcheckError>(e),
            },
    {
        match self.verify_round(s0, s1, proof, transcript) {
            Ok(p) => Ok(p.0),
            Err(e) => Err(e),
        }
    }

    /// Folds two instances of the sumcheck relation: checks the folding of
    /// their claims by the message of the guarded proof, and folds their
    /// instance evaluations at the round's challenge, each on the line from
    /// the first instance's to the second's.
    pub fn verify_folding(
        &self,
        a: &SumcheckInstance,
        b: &SumcheckInstance,
        proof: &GuardedProof<SumcheckMessage>,
        transcript: &mut VerifierTranscript,
    ) -> (r: Result<SumcheckInstance, SumcheckError>)
        requires
            self.wf(),
            old(transcript).wf(),
            a.instance_evals@.len() == b.instance_evals@.len(),
        ensures
            final(transcript).valid(),
            r is Ok ==> final(transcript).wf(),
            final(transcript)@.rounds == old(transcript)@.rounds,
            match fold_verify(old(transcript)@, self.degree(), a.sum@, b.sum@, proof.value()@) {
                Ok(x) => r matches Ok(i) && i.sum@ == x && views(i.instance_evals@) == line_row(
                    views(a.instance_evals@),
                    views(b.instance_evals@),
                    fold_challenge(old(transcript)@, proof.value()@),
                ),
                Err(e) => r == Err::<SumcheckInstance, SumcheckError>(e),
            },
    {
        match self.verify_round(&a.sum, &b.sum, proof, transcript) {
            Ok(p) => {
                let (sum, r) = p;
                let instance_evals = fold_instance_evals(&a.instance_evals, &b.instance_evals, &r);
                Ok(SumcheckInstance { sum, instance_evals })
            },
            Err(e) => Err(e),
        }
    }

    /// Folds two instances of the sumcheck relation and their witnesses as
    /// `prove` does, and folds their instance evaluations at the round's
    /// challenge, each on the line from the first instance's to the second's.
    pub fn prove_folding(
        &self,
        a: &SumcheckInstance,
        b: &SumcheckInstance,
        w1: Vec<Vec<Scalar>>,
        w2: &Vec<Vec<Scalar>>,
        transcript: &mut Transcript,
    ) -> (r: Result<(SumcheckInstance, SumFoldProverOutput), SumcheckError>)
        requires
            self.wf(),
            old(transcript).wf(),
            w1@.len() == w2@.len(),
            w1@.len() > 0,
            table_wf(rows(w1@), rows(w1@)[0].len()),
            table_wf(rows(w2@), rows(w1@)[0].len()),
            expr_wf(self.function(), rows(w1@)[0].len(), 0),
            a.sum@ == table_sum(self.function(), rows(w1@), seq![]),
            b.sum@ == table_sum(self.function(), rows(w2@), seq![]),
            a.instance_evals@.len() == b.instance_evals@.len(),
        ensures
            final(transcript).wf(),
            final(transcript)@.rounds == old(transcript)@.rounds,
            r is Ok <==> fold_rounds_ok(old(transcript)@, self.degree()),
            r matches Ok(p) ==> ({
                let t = rows(w1@) + rows(w2@);
                let v0 = old(transcript)@;
                let msg = round_poly(self.function(), t, seq![], self.degree());
                let beta = challenges_for(v0.sponge, no_elements(), 1)[0];
                let fm = folded_message(msg, self.degree(), beta);
                let r = fold_challenge(v0, fm);
                &&& p.1.proof@ == fm
                &&& p.1.challenge@ == r
                &&& p.1.sum@ == reduced_sum(fm, self.degree(), beta, r)
                &&& rows(p.1.folded_witness@) == fix_rows(t, r)
                &&& p.0.sum == p.1.sum
                &&& views(p.0.instance_evals@) == line_row(
                    views(a.instance_evals@),
                    views(b.instance_evals@),
                    r,
                )
            }),
    {
        match self.prove(&a.sum, &b.sum, w1, w2, transcript) {
            Ok(out) => {
                let instance_evals = fold_instance_evals(&a.instance_evals, &b.instance_evals, &out.challenge);
                Ok((SumcheckInstance { sum: out.sum, instance_evals }, out))
            },
            Err(e) => Err(e),
        }
    }
}


/// The function's values along the line from row `b` of `t1` to row `b` of
/// `t2`, over `0..=d`, for the first `n` rows, one row after the other.
pub open spec fn row_line_evals(
    f: Expr,
    t1: Seq<Seq<nat>>,
    t2: Seq<Seq<nat>>,
    challs: Seq<nat>,
    d: nat,
    n: nat,
) -> Seq<nat>
    decreases n,
{
    if n == 0 {
        seq![]
    } else {
        row_line_evals(f, t1, t2, challs, d, (n - 1) as nat) + Seq::new(
            d + 1,
            |x: int| expr_eval(f, line_row(t1[n - 1], t2[n - 1], x as nat), challs),
        )
    }
}

/// The messages once the first `k` variables are folded in: variable `j`
/// pairs the messages of size `d + j + 1` of its two values, weighs them by
/// the lines from the first powers' factor to the second's (at zero for the
/// first of the pair, at one for the second), adds them, and takes one more
/// value from the extensions.
pub open spec fn zero_layers(
    m0: Seq<nat>,
    pl: Seq<(nat, nat)>,
    pr: Seq<(nat, nat)>,
    d: nat,
    k: nat,
) -> Seq<nat>
    decreases k,
{
    if k == 0 {
        m0
    } else {
        let prev = zero_layers(m0, pl, pr, d, (k - 1) as nat);
        let j = k - 1;
        let e = (d + j) as nat;
        let pe = line_evals(pl[j].1, pr[j].1, e);
        let po = line_evals(pl[j].0, pr[j].0, e);
        fold_blocks(
            prev,
            e + 1,
            pe,
            po,
            bary_eval(e, pe, e + 1),
            bary_eval(e, po, e + 1),
            prev.len() / (e + 1) / 2,
        )
    }
}

/// The zerocheck folding's message, before `eq(beta, x)`: over
/// `0..=d + vars`, the sum over the rows of the function along the line
/// between the two witnesses, weighed by the product of the lines between
/// the two powers' factors.
pub open spec fn zero_message(
    f: Expr,
    t1: Seq<Seq<nat>>,
    t2: Seq<Seq<nat>>,
    challs: Seq<nat>,
    d: nat,
    pl: Seq<(nat, nat)>,
    pr: Seq<(nat, nat)>,
    vars: nat,
) -> Seq<nat> {
    zero_layers(row_line_evals(f, t1, t2, challs, d, t1.len()), pl, pr, d, vars)
}

/// The folded blocks hold `s + 1` values each.
pub proof fn lemma_fold_blocks_len(
    msgs: Seq<nat>,
    s: nat,
    pe: Seq<nat>,
    po: Seq<nat>,
    pel: nat,
    pol: nat,
    count: nat,
)
    ensures
        fold_blocks(msgs, s, pe, po, pel, pol, count).len() == count * (s + 1),
    decreases count,
{
    if count > 0 {
        lemma_fold_blocks_len(msgs, s, pe, po, pel, pol, (count - 1) as nat);
        assert(fold_block(msgs, s, (count - 1) as nat, pe, po, pel, pol).len() == s + 1);
        assert(count * (s + 1) == (count - 1) * (s + 1) + (s + 1)) by (nonlinear_arith)
            requires
                count > 0,
        ;
    } else {
        assert(count * (s + 1) == 0) by (nonlinear_arith)
            requires
                count == 0,
        ;
    }
}

/// The rows' values hold `d + 1` values per row.
pub proof fn lemma_row_line_evals_len(
    f: Expr,
    t1: Seq<Seq<nat>>,
    t2: Seq<Seq<nat>>,
    challs: Seq<nat>,
    d: nat,
    n: nat,
)
    ensures
        row_line_evals(f, t1, t2, challs, d, n).len() == n * (d + 1),
    decreases n,
{
    if n > 0 {
        lemma_row_line_evals_len(f, t1, t2, challs, d, (n - 1) as nat);
        assert(Seq::new(d + 1, |x: int| expr_eval(f, line_row(t1[n - 1], t2[n - 1], x as nat), challs)).len() == d + 1);
        assert(n * (d + 1) == (n - 1) * (d + 1) + (d + 1)) by (nonlinear_arith)
            requires
                n > 0,
        ;
    } else {
        assert(n * (d + 1) == 0) by (nonlinear_arith)
            requires
                n == 0,
        ;
    }
}

/// After `k` of the `vars` variables, `2^(vars - k)` messages of size
/// `d + k + 1` are left.
pub proof fn lemma_zero_layers_len(m0: Seq<nat>, pl: Seq<(nat, nat)>, pr: Seq<(nat, nat)>, d: nat, vars: nat, k: nat)
    requires
        k <= vars,
        m0.len() == pow2(vars) * (d + 1),
    ensures
        zero_layers(m0, pl, pr, d, k).len() == pow2((vars - k) as nat) * (d + k + 1),
    decreases k,
{
    if k > 0 {
        lemma_zero_layers_len(m0, pl, pr, d, vars, (k - 1) as nat);
        let prev = zero_layers(m0, pl, pr, d, (k - 1) as nat);
        let e = (d + k - 1) as nat;
        let q = pow2((vars - k) as nat);
        lemma_pow2_unfold((vars - k + 1) as nat);
        assert(pow2((vars - (k - 1)) as nat) == 2 * q);
        assert(prev.len() == (2 * q) * (e + 1));
        assert(prev.len() / (e + 1) == 2 * q) by {
            vstd::arithmetic::div_mod::lemma_div_multiples_vanish((2 * q) as int, (e + 1) as int);
            assert((e + 1) * (2 * q) == (2 * q) * (e + 1)) by (nonlinear_arith);
        }
        let pe = line_evals(pl[k - 1].1, pr[k - 1].1, e);
        let po = line_evals(pl[k - 1].0, pr[k - 1].0, e);
        lemma_fold_blocks_len(
            prev,
            e + 1,
            pe,
            po,
            bary_eval(e, pe, e + 1),
            bary_eval(e, po, e + 1),
            prev.len() / (e + 1) / 2,
        );
    }
}

/// Appends the elements of `v`.
fn append_all(out: &mut Vec<Scalar>, v: &Vec<Scalar>)
    ensures
        views(final(out)@) == views(old(out)@) + views(v@),
{
    let ghost start = views(out@);
    let mut k: usize = 0;
    while k < v.len()
        invariant
            k <= v@.len(),
            views(out@) == start + views(v@).take(k as int),
        decreases v@.len() - k,
    {
        let ghost prev = views(out@);
        out.push(v[k]);
        proof {
            assert(views(out@) =~= prev.push(v@[k as int]@));
            assert(views(out@) =~= start + views(v@).take(k + 1));
        }
        k = k + 1;
    }
    proof {
        assert(views(v@).take(k as int) =~= views(v@));
    }
}

/// The function's values along the line from each row of `w1` to the same
/// row of `w2`, over `0..=d`, one row after the other.
fn row_evals(f: &Expr, w1: &Vec<Vec<Scalar>>, w2: &Vec<Vec<Scalar>>, challs: &Vec<Scalar>, d: usize) -> (r: Vec<
    Scalar,
>)
    requires
        1 <= d < usize::MAX,
        w2@.len() == w1@.len(),
        w1@.len() > 0,
        table_wf(rows(w1@), rows(w1@)[0].len()),
        table_wf(rows(w2@), rows(w1@)[0].len()),
        expr_wf(*f, rows(w1@)[0].len(), challs@.len() as nat),
    ensures
        views(r@) == row_line_evals(*f, rows(w1@), rows(w2@), views(challs@), d as nat, w1@.len() as nat),
{
    let ghost t1 = rows(w1@);
    let ghost t2 = rows(w2@);
    let ghost c = views(challs@);
    let ghost m = t1[0].len();
    let n = w1.len();
    let mut msgs: Vec<Scalar> = Vec::new();
    let mut b: usize = 0;
    proof {
        assert(views(msgs@) =~= row_line_evals(*f, t1, t2, c, d as nat, 0));
    }
    while b < n
        invariant
            n == w1@.len(),
            w2@.len() == n,
            t1 == rows(w1@),
            t2 == rows(w2@),
            c == views(challs@),
            1 <= d < usize::MAX,
            m == t1[0].len(),
            table_wf(t1, m),
            table_wf(t2, m),
            expr_wf(*f, m, c.len()),
            b <= n,
            views(msgs@) == row_line_evals(*f, t1, t2, c, d as nat, b as nat),
        decreases n - b,
    {
        proof {
            assert(t1[b as int].len() == m);
            assert(t2[b as int].len() == m);
        }
        let env = MessageEnv::new(&w1[b], &w2[b], d, copy_scalars(challs));
        let msg: Message = f.function(&env);
        let ev = msg.inner();
        append_all(&mut msgs, ev);
        proof {
            assert(t1[b as int] == views(w1@[b as int]@));
            assert(views(ev@) =~= Seq::new(
                (d + 1) as nat,
                |x: int| expr_eval(*f, line_row(t1[b as int], t2[b as int], x as nat), c),
            ));
            assert(views(msgs@) =~= row_line_evals(*f, t1, t2, c, d as nat, (b + 1) as nat));
        }
        b = b + 1;
    }
    msgs
}

/// The folding of two zerocheck instances: a folding whose message also
/// carries, for each variable, the line between the two instances' powers'
/// factors, so of degree `d + vars` for a function of folding degree `d`.
/// It is verified by its folding key as any other folding.
pub struct ZeroFold {
    sumfold: SumFoldKey,
    degree: usize,
    /// The weights of degrees `d, d + 1, ..., d + vars - 1`.
    weights: Vec<BarycentricWeights>,
}

impl ZeroFold {
    /// The function's degree in the folding variable.
    pub closed spec fn base_degree(&self) -> nat {
        self.degree as nat
    }

    pub closed spec fn vars(&self) -> nat {
        self.weights@.len()
    }

    pub closed spec fn function(&self) -> Expr {
        self.sumfold.function
    }

    pub closed spec fn key(&self) -> SumFoldKey {
        self.sumfold
    }

    pub closed spec fn wf(&self) -> bool {
        &&& self.sumfold.wf()
        &&& 1 <= self.degree
        &&& self.sumfold.degree == self.degree + self.weights@.len()
        &&& forall|j: int|
            0 <= j < self.weights@.len() ==> (#[trigger] self.weights@[j]).wf() && self.weights@[j].degree()
                == self.degree + j
    }

    /// The folding of zerochecks of `function` over `vars` variables, whose
    /// polynomials live where `locations` says.
    pub fn new(function: Expr, locations: &Vec<EvalLocation>, vars: usize) -> (r: ZeroFold)
        requires
            mles_below(function, locations@.len() as nat),
            1 <= fold_degree(function, locations@),
            fold_degree(function, locations@) + vars + 1 < u32::MAX,
        ensures
            r.wf(),
            r.base_degree() == fold_degree(function, locations@),
            r.vars() == vars,
            r.function() == function,
            r.key().degree() == fold_degree(function, locations@) + vars,
            r.key().function() == function,
    {
        let degree = function.folding_degree(locations);
        let sumfold = SumFoldKey::new_custom_degree(degree + vars, function);
        let mut weights: Vec<BarycentricWeights> = Vec::new();
        let mut i: usize = 0;
        while i < vars
            invariant
                i <= vars,
                degree + vars + 1 < u32::MAX,
                weights@.len() == i,
                forall|j: int|
                    0 <= j < i ==> (#[trigger] weights@[j]).wf() && weights@[j].degree() == degree + j,
            decreases vars - i,
        {
            weights.push(BarycentricWeights::compute((degree + i) as u32));
            i = i + 1;
        }
        ZeroFold { sumfold, degree, weights }
    }

    /// The folding key, which verifies the zerocheck folding.
    pub fn sumfold_key(&self) -> (r: &SumFoldKey)
        ensures
            *r == self.key(),
    {
        &self.sumfold
    }

    /// The message of the zerocheck folding before `eq(beta, x)`: the
    /// function along the lines between the rows of the two witnesses,
    /// weighed variable after variable by the lines between the two powers'
    /// factors.
    #[verifier::rlimit(40)]
    #[verifier::spinoff_prover]
    pub fn sum_messages(
        &self,
        w1: &Vec<Vec<Scalar>>,
        w2: &Vec<Vec<Scalar>>,
        powers: &[CompactPowers; 2],
        challs: &Vec<Scalar>,
    ) -> (r: Message)
        requires
            self.wf(),
            self.vars() >= 1,
            w1@.len() == pow2(self.vars()),
            w2@.len() == w1@.len(),
            table_wf(rows(w1@), rows(w1@)[0].len()),
            table_wf(rows(w2@), rows(w1@)[0].len()),
            expr_wf(self.function(), rows(w1@)[0].len(), challs@.len() as nat),
            powers[0]@.len() >= self.vars(),
            powers[1]@.len() >= self.vars(),
        ensures
            r@ == zero_message(
                self.function(),
                rows(w1@),
                rows(w2@),
                views(challs@),
                self.base_degree(),
                powers[0]@,
                powers[1]@,
                self.vars(),
            ),
            r@.len() == self.base_degree() + self.vars() + 1,
    {
        let ghost f = self.sumfold.function;
        let ghost t1 = rows(w1@);
        let ghost t2 = rows(w2@);
        let ghost c = views(challs@);
        let ghost vars = self.vars();
        let d = self.degree;
        let n = w1.len();
        proof {
            assert(d < usize::MAX) by {
                assert(self.sumfold.degree + 1 < u32::MAX);
            }
            vstd::arithmetic::power2::lemma_pow2_pos(vars);
        }
        let mut msgs = row_evals(&self.sumfold.function, w1, w2, challs, d);
        let ghost m0 = views(msgs@);
        let ghost pl = powers[0]@;
        let ghost pr = powers[1]@;
        proof {
            lemma_row_line_evals_len(f, t1, t2, c, d as nat, n as nat);
        }
        let left = powers[0].factors();
        let right = powers[1].factors();
        let mut j: usize = 0;
        while j < self.weights.len()
            invariant
                self.wf(),
                vars == self.weights@.len(),
                d == self.degree,
                j <= vars,
                pl == crate::zerocheck::pair_views(left@),
                pr == crate::zerocheck::pair_views(right@),
                pl.len() >= vars,
                pr.len() >= vars,
                m0.len() == pow2(vars) * (d + 1),
                views(msgs@) == zero_layers(m0, pl, pr, d as nat, j as nat),
            decreases vars - j,
        {
            proof {
                lemma_zero_layers_len(m0, pl, pr, d as nat, vars, j as nat);
                let q = pow2((vars - j) as nat);
                assert((q * (d + j + 1)) % (d + j + 1) == 0) by {
                    vstd::arithmetic::div_mod::lemma_mod_multiples_basic(q as int, (d + j + 1) as int);
                    assert((d + j + 1) * q == q * (d + j + 1)) by (nonlinear_arith);
                }
                assert(self.weights@[j as int].degree() == d + j);
                assert(d + j + 1 < usize::MAX) by {
                    assert(self.sumfold.degree + 1 < u32::MAX);
                }
            }
            let w = &self.weights[j];
            let pw = [[left[j].1, right[j].1], [left[j].0, right[j].0]];
            let ghost prev = views(msgs@);
            msgs = fold_with_powers(pw, &msgs, w);
            proof {
                assert(pl[j as int] == (left@[j as int].0@, left@[j as int].1@));
                assert(pr[j as int] == (right@[j as int].0@, right@[j as int].1@));
            }
            j = j + 1;
        }
        proof {
            lemma_zero_layers_len(m0, pl, pr, d as nat, vars, vars);
            assert(pow2(0) == 1) by {
                vstd::arithmetic::power2::lemma2_to64();
            }
        }
        Message::new(msgs)
    }

    /// Folds two zerocheck witnesses, weighed by the powers `powers`, as the
    /// folding does: draws `beta`, sends the message weighed by
    /// `eq(beta, x)`, and folds the witnesses at the round's challenge `r`;
    /// the folded claim is the message at `r` divided by `eq(beta, r)`.
    /// Sums given by the caller are those of the two instances, the
    /// message's values at zero and one; they are returned with the output,
    /// or the message's values when none are given. `beta` comes from the
    /// folding key's empty round, so that the key's verifier checks the
    /// folding as any other. What the returned claim is, the zerocheck sum
    /// of the folded witness weighed by the folded powers, is
    /// `lemma_zero_fold_claim`.
    pub fn fold_zerocheck(
        &self,
        w1: Vec<Vec<Scalar>>,
        w2: &Vec<Vec<Scalar>>,
        sums: Option<(Scalar, Scalar)>,
        powers: [CompactPowers; 2],
        challs: &Vec<Scalar>,
        transcript: &mut Transcript,
    ) -> (r: Result<SumFoldProverOutput, SumcheckError>)
        requires
            self.wf(),
            self.vars() >= 1,
            old(transcript).wf(),
            w1@.len() == pow2(self.vars()),
            w2@.len() == w1@.len(),
            table_wf(rows(w1@), rows(w1@)[0].len()),
            table_wf(rows(w2@), rows(w1@)[0].len()),
            expr_wf(self.function(), rows(w1@)[0].len(), challs@.len() as nat),
            powers[0]@.len() >= self.vars(),
            powers[1]@.len() >= self.vars(),
            sums matches Some(p) ==> {
                let msg = zero_message(
                    self.function(),
                    rows(w1@),
                    rows(w2@),
                    views(challs@),
                    self.base_degree(),
                    powers[0]@,
                    powers[1]@,
                    self.vars(),
                );
                p.0@ == msg[0] && p.1@ == msg[1]
            },
        ensures
            final(transcript).wf(),
            final(transcript)@.rounds == old(transcript)@.rounds,
            r is Ok <==> fold_rounds_ok(old(transcript)@, self.key().degree()),
            r matches Err(e) ==> e == SumcheckError::TranscriptError(
                if !(old(transcript)@.next < old(transcript)@.rounds.len() && round_accepts(
                    old(transcript)@.rounds[old(transcript)@.next as int],
                    MessageKind::Unit,
                    0,
                    1,
                )) {
                    if old(transcript)@.next >= old(transcript)@.rounds.len() {
                        crate::transcript::Error::TranscriptFinished
                    } else {
                        crate::transcript::Error::UnexpectedMessage
                    }
                } else if old(transcript)@.next + 1 >= old(transcript)@.rounds.len() {
                    crate::transcript::Error::TranscriptFinished
                } else {
                    crate::transcript::Error::UnexpectedMessage
                },
            ),
            r matches Ok(out) ==> ({
                let msg = zero_message(
                    self.function(),
                    rows(w1@),
                    rows(w2@),
                    views(challs@),
                    self.base_degree(),
                    powers[0]@,
                    powers[1]@,
                    self.vars(),
                );
                let dd = self.key().degree();
                let v0 = old(transcript)@;
                let beta = challenges_for(v0.sponge, no_elements(), 1)[0];
                let sponge = sponge_after(v0.sponge, no_elements(), 1);
                let fm = folded_message(msg, dd, beta);
                let r = challenges_for(sponge, fm, 1)[0];
                &&& out.proof@ == fm
                &&& out.challenge@ == r
                &&& out.sums.0@ == msg[0]
                &&& out.sums.1@ == msg[1]
                &&& sums matches Some(p) ==> out.sums == p
                &&& out.sum@ == reduced_sum(fm, dd, beta, r)
                &&& rows(out.folded_witness@) == fix_rows(rows(w1@) + rows(w2@), r)
                &&& final(transcript)@.sponge == sponge_after(sponge, fm, 1)
                &&& final(transcript)@.next == v0.next + 2
                &&& fold_verify(v0, dd, msg[0], msg[1], fm) == Ok::<nat, SumcheckError>(out.sum@)
            }),
    {
        let ghost v0 = transcript@;
        let ghost dd = self.sumfold.degree as nat;
        let ghost m = rows(w1@)[0].len();
        let ghost t1 = rows(w1@);
        let ghost t2 = rows(w2@);
        let msg = self.sum_messages(&w1, w2, &powers, challs);
        let ghost msgv = msg@;
        let sums = match sums {
            Some(p) => p,
            None => (msg.eval_at_0(), msg.eval_at_1()),
        };
        let table = concat_tables(w1, w2);
        let ghost t = rows(table@);
        proof {
            vstd::arithmetic::power2::lemma_pow2_pos(self.vars());
            assert(table_wf(t, m)) by {
                assert forall|b: int| 0 <= b < t.len() implies #[trigger] t[b].len() == m by {
                    if b < t1.len() {
                        assert(t[b] == t1[b]);
                    } else {
                        assert(t[b] == t2[b - t1.len()]);
                    }
                }
            }
            assert(t[0] == t1[0]);
        }
        let unit = TranscriptMessage { kind: MessageKind::Unit, elements: Vec::new() };
        proof {
            assert(views(unit.elements@) =~= no_elements());
        }
        let beta = match transcript.send_message(&unit, 1) {
            Err(e) => {
                return Err(SumcheckError::TranscriptError(e));
            },
            Ok(c) => {
                proof {
                    lemma_squeezed_len(spec_absorb_all(v0.sponge, no_elements()), 1);
                    assert(views(c@).len() == 1);
                    assert(views(c@)[0] == c@[0]@);
                }
                c[0]
            },
        };
        let ghost v1 = transcript@;
        let key = &self.sumfold;
        let eq_beta = Message::new_degree_n(&Scalar::one().sub(&beta), &beta, key.degree + 1);
        let folded = msg.extend(&key.weights).mul(&eq_beta);
        proof {
            assert(folded@ =~= folded_message(msgv, dd, beta@));
            lemma_folded_round_check(msgv, dd, beta@);
        }
        let tm = crate::sumcheck::message_to_transcript(&folded);
        proof {
            assert(tm.elements@.len() == views(tm.elements@).len());
        }
        let r = match transcript.send_message(&tm, 1) {
            Err(e) => {
                return Err(SumcheckError::TranscriptError(e));
            },
            Ok(c) => {
                proof {
                    lemma_squeezed_len(spec_absorb_all(v1.sponge, folded@), 1);
                    assert(views(c@).len() == 1);
                    assert(views(c@)[0] == c@[0]@);
                }
                c[0]
            },
        };
        let one = Scalar::one();
        let eqr = r.mul(&beta).add(&one.sub(&r).mul(&one.sub(&beta)));
        let sum = folded.eval_at_x(&r, &key.extended_weights).div(&eqr);
        let mut witness = table;
        bind_variable(&mut witness, &r);
        let proof = SumcheckMessage::new(copy_scalars(folded.inner()));
        Ok(SumFoldProverOutput { sum, folded_witness: witness, proof, challenge: r, sums })
    }
}


} // verus!
