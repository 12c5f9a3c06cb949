//! Sumcheck round messages: a univariate polynomial of degree `d` held as its
//! evaluations over the domain `0..=d`.
use crate::algebra::views;
use crate::barycentric::{bary_eval, BarycentricWeights};
use crate::field::{
    fadd, fmul, fsub, group_field, lemma_add_zero, lemma_mul_one, lemma_mul_zero, lemma_sub_add, modulus, Scalar,
};
use vstd::arithmetic::div_mod::{lemma_add_mod_noop, lemma_mod_twice};
use vstd::prelude::*;

verus! {

broadcast use group_field;

/// The value at `x` of the line through `(0, e0)` and `(1, e1)`: `x * (e1 - e0) + e0`.
pub open spec fn line_value(e0: nat, e1: nat, x: nat) -> nat {
    fadd(fmul(x, fsub(e1, e0)), e0)
}

/// The evaluations over `0..=d` of the line through `(0, e0)` and `(1, e1)`.
pub open spec fn line_evals(e0: nat, e1: nat, d: nat) -> Seq<nat> {
    Seq::new(d + 1, |x: int| line_value(e0, e1, x as nat))
}

/// Pointwise combination of two sequences over the positions both have,
/// keeping the rest of the first.
pub open spec fn zip_with(a: Seq<nat>, b: Seq<nat>, f: spec_fn(nat, nat) -> nat) -> Seq<nat> {
    Seq::new(a.len(), |i: int| if i < b.len() { f(a[i], b[i]) } else { a[i] })
}

/// A sumcheck message: the evaluations of a polynomial over `0..=d`.
#[derive(Clone)]
pub struct Message {
    evals: Vec<Scalar>,
}

impl View for Message {
    type V = Seq<nat>;

    closed spec fn view(&self) -> Seq<nat> {
        views(self.evals@)
    }
}

impl Message {
    /// The message with the given evaluations.
    pub fn new(evals: Vec<Scalar>) -> (r: Message)
        ensures
            r@ == views(evals@),
    {
        Message { evals }
    }

    /// The evaluations.
    pub fn inner(&self) -> (r: &Vec<Scalar>)
        ensures
            views(r@) == self@,
    {
        &self.evals
    }

    /// The degree `d` line through `(0, eval_at_0)` and `(1, eval_at_1)`,
    /// evaluated over `0..=degree`.
    pub fn new_degree_n(eval_at_0: &Scalar, eval_at_1: &Scalar, degree: usize) -> (r: Message)
        requires
            degree >= 1,
            degree < usize::MAX,
        ensures
            r@ == line_evals(eval_at_0@, eval_at_1@, degree as nat),
    {
        let diff = eval_at_1.sub(eval_at_0);
        let mut last = Scalar::zero();
        let mut message: Vec<Scalar> = Vec::new();
        let mut k: usize = 0;
        let ghost target = line_evals(eval_at_0@, eval_at_1@, degree as nat);
        while k <= degree
            invariant
                k <= degree + 1,
                degree < usize::MAX,
                diff@ == fsub(eval_at_1@, eval_at_0@),
                last@ == fmul(k as nat, diff@),
                target == line_evals(eval_at_0@, eval_at_1@, degree as nat),
                message@.len() == k,
                views(message@) == target.take(k as int),
            decreases degree + 1 - k,
        {
            let ghost before = views(message@);
            message.push(last.add(eval_at_0));
            proof {
                assert forall|j: int| 0 <= j < k + 1 implies #[trigger] views(message@)[j]
                    == target.take(k + 1)[j] by {
                    if j < k {
                        assert(views(message@)[j] == before[j]);
                    }
                }
                assert(views(message@) =~= target.take(k + 1));
                lemma_mul_succ(k as nat, diff@);
            }
            last = last.add(&diff);
            k = k + 1;
        }
        proof {
            assert(target.take(degree + 1) =~= target);
        }
        Message { evals: message }
    }

    /// The degree: one less than the number of evaluations.
    pub fn degree(&self) -> (r: usize)
        requires
            self@.len() >= 1,
        ensures
            r == self@.len() - 1,
    {
        self.evals.len() - 1
    }

    /// The evaluation at zero.
    pub fn eval_at_0(&self) -> (r: Scalar)
        requires
            self@.len() >= 1,
        ensures
            r@ == self@[0],
    {
        self.evals[0]
    }

    /// The evaluation at one.
    pub fn eval_at_1(&self) -> (r: Scalar)
        requires
            self@.len() >= 2,
        ensures
            r@ == self@[1],
    {
        self.evals[1]
    }

    /// The evaluation at an arbitrary point, by barycentric evaluation.
    pub fn eval_at_x(&self, x: &Scalar, weights: &BarycentricWeights) -> (r: Scalar)
        requires
            weights.wf(),
            self@.len() == weights.degree() + 1,
        ensures
            r@ == bary_eval(weights.degree(), self@, x@),
    {
        weights.evaluate(&self.evals, x)
    }

    /// Adds the evaluation at `d + 1`, the message then holds `d + 2` evaluations.
    pub fn extend(self, weights: &BarycentricWeights) -> (r: Message)
        requires
            weights.wf(),
            self@.len() == weights.degree() + 1,
        ensures
            r@ == self@.push(bary_eval(weights.degree(), self@, weights.degree() + 1)),
    {
        let extra = weights.extend(&self.evals);
        let mut evals = self.evals;
        evals.push(extra);
        proof {
            assert(views(evals@) =~= self@.push(extra@));
        }
        Message { evals }
    }

    /// Combines with `rhs` position by position over the positions both have.
    fn bin_op(self, rhs: &Message, op: u8) -> (r: Message)
        requires
            op < 3,
        ensures
            r@ == zip_with(self@, rhs@, op_fn(op)),
    {
        let mut evals = self.evals;
        let n = evals.len();
        let m = if rhs.evals.len() < n {
            rhs.evals.len()
        } else {
            n
        };
        let ghost a = views(evals@);
        let ghost b = rhs@;
        let mut i: usize = 0;
        while i < m
            invariant
                op < 3,
                n == evals@.len(),
                a.len() == n,
                b == views(rhs.evals@),
                m <= n,
                m <= b.len(),
                m == n || m == b.len(),
                i <= m,
                forall|j: int| 0 <= j < i ==> #[trigger] views(evals@)[j] == op_fn(op)(a[j], b[j]),
                forall|j: int| i <= j < n ==> #[trigger] views(evals@)[j] == a[j],
            decreases m - i,
        {
            let x = evals[i];
            let y = rhs.evals[i];
            let v = if op == 0 {
                x.add(&y)
            } else if op == 1 {
                x.sub(&y)
            } else {
                x.mul(&y)
            };
            let ghost before = views(evals@);
            proof {
                assert(before[i as int] == a[i as int]);
            }
            evals.set(i, v);
            proof {
                assert forall|j: int| 0 <= j < n && j != i implies #[trigger] views(evals@)[j]
                    == before[j] by {}
            }
            i = i + 1;
        }
        proof {
            assert(views(evals@) =~= zip_with(a, b, op_fn(op)));
        }
        Message { evals }
    }

    /// Sum, position by position.
    pub fn add(self, rhs: &Message) -> (r: Message)
        ensures
            r@ == zip_with(self@, rhs@, |a: nat, b: nat| fadd(a, b)),
    {
        self.bin_op(rhs, 0)
    }

    /// Difference, position by position.
    pub fn sub(self, rhs: &Message) -> (r: Message)
        ensures
            r@ == zip_with(self@, rhs@, |a: nat, b: nat| fsub(a, b)),
    {
        self.bin_op(rhs, 1)
    }

    /// Product, position by position.
    pub fn mul(self, rhs: &Message) -> (r: Message)
        ensures
            r@ == zip_with(self@, rhs@, |a: nat, b: nat| fmul(a, b)),
    {
        self.bin_op(rhs, 2)
    }

    /// Adds `rhs` to every evaluation.
    pub fn add_scalar(self, rhs: &Scalar) -> (r: Message)
        ensures
            r@ == self@.map_values(|a: nat| fadd(a, rhs@)),
    {
        self.scalar_op(rhs, 0)
    }

    /// Subtracts `rhs` from every evaluation.
    pub fn sub_scalar(self, rhs: &Scalar) -> (r: Message)
        ensures
            r@ == self@.map_values(|a: nat| fsub(a, rhs@)),
    {
        self.scalar_op(rhs, 1)
    }

    /// Multiplies every evaluation by `rhs`.
    pub fn mul_scalar(self, rhs: &Scalar) -> (r: Message)
        ensures
            r@ == self@.map_values(|a: nat| fmul(a, rhs@)),
    {
        self.scalar_op(rhs, 2)
    }

    /// Multiplies every evaluation by `rhs`, in place.
    pub fn mul_assign(&mut self, rhs: &Scalar)
        ensures
            final(self)@ == old(self)@.map_values(|a: nat| fmul(a, rhs@)),
    {
        let mut evals: Vec<Scalar> = Vec::new();
        std::mem::swap(&mut evals, &mut self.evals);
        let m = Message { evals }.scalar_op(rhs, 2);
        self.evals = m.evals;
    }

    /// Adds `rhs` position by position, in place, over the positions both have.
    pub fn add_assign(&mut self, rhs: &Message)
        ensures
            final(self)@ == zip_with(old(self)@, rhs@, |a: nat, b: nat| fadd(a, b)),
    {
        let mut evals: Vec<Scalar> = Vec::new();
        std::mem::swap(&mut evals, &mut self.evals);
        let m = Message { evals }.bin_op(rhs, 0);
        self.evals = m.evals;
    }

    fn scalar_op(self, rhs: &Scalar, op: u8) -> (r: Message)
        requires
            op < 3,
        ensures
            r@ == self@.map_values(|a: nat| op_fn(op)(a, rhs@)),
    {
        let mut evals = self.evals;
        let n = evals.len();
        let ghost a = views(evals@);
        let mut i: usize = 0;
        while i < n
            invariant
                op < 3,
                n == evals@.len(),
                a.len() == n,
                i <= n,
                forall|j: int| 0 <= j < i ==> #[trigger] views(evals@)[j] == op_fn(op)(a[j], rhs@),
                forall|j: int| i <= j < n ==> #[trigger] views(evals@)[j] == a[j],
            decreases n - i,
        {
            let x = evals[i];
            let v = if op == 0 {
                x.add(rhs)
            } else if op == 1 {
                x.sub(rhs)
            } else {
                x.mul(rhs)
            };
            let ghost before = views(evals@);
            proof {
                assert(before[i as int] == a[i as int]);
            }
            evals.set(i, v);
            proof {
                assert forall|j: int| 0 <= j < n && j != i implies #[trigger] views(evals@)[j]
                    == before[j] by {}
            }
            i = i + 1;
        }
        proof {
            assert(views(evals@) =~= a.map_values(|x: nat| op_fn(op)(x, rhs@)));
        }
        Message { evals }
    }
}

/// The field operation with code `op`: addition, subtraction, multiplication.
pub open spec fn op_fn(op: u8) -> spec_fn(nat, nat) -> nat {
    if op == 0 {
        |a: nat, b: nat| fadd(a, b)
    } else if op == 1 {
        |a: nat, b: nat| fsub(a, b)
    } else {
        |a: nat, b: nat| fmul(a, b)
    }
}

/// `k * d + d == (k + 1) * d`.
pub proof fn lemma_mul_succ(k: nat, d: nat)
    ensures
        fadd(fmul(k, d), d) == fmul(k + 1, d),
{
    let m = modulus() as int;
    let (x, y) = (k as int, d as int);
    lemma_mod_twice(y, m);
    lemma_add_mod_noop(x * y, y, m);
    lemma_add_mod_noop((x * y) % m, y, m);
    lemma_mod_twice(x * y, m);
    assert((x + 1) * y == x * y + y) by (nonlinear_arith);
}

/// The line through `(0, e0)` and `(1, e1)` passes through them.
pub proof fn lemma_line_endpoints(e0: nat, e1: nat)
    requires
        e0 < modulus(),
        e1 < modulus(),
    ensures
        line_value(e0, e1, 0) == e0,
        line_value(e0, e1, 1) == e1,
{
    lemma_mul_zero(fsub(e1, e0));
    lemma_add_zero(e0);
    crate::field::lemma_fsub_lt(e1, e0);
    lemma_mul_one(fsub(e1, e0));
    lemma_sub_add(e1, e0);
}

} // verus!
