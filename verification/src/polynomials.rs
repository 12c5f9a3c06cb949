//! Points and multilinear polynomials given by their evaluations over the
//! boolean hypercube.
//!
//! An evaluation table of `2^n` values describes the multilinear polynomial in
//! `n` variables; bit `j` of an index is the value of variable `j`, so the upper
//! half of the table is the half where the last variable is one.
use crate::algebra::{dot, fprod, fsum, lemma_fsum_concat, lemma_fsum_pointwise_add, reduced, views};
use crate::field::{
    fadd, fmul, fsub, group_field, lemma_add_zero, lemma_distrib, lemma_mul_assoc, lemma_mul_one,
    Scalar,
};
use vstd::arithmetic::power2::*;
use vstd::prelude::*;

verus! {

broadcast use group_field;

/// The equality polynomial in one variable: `a * b + (1 - a) * (1 - b)`.
pub open spec fn eq_factor(a: nat, b: nat) -> nat {
    fadd(fmul(a, b), fmul(fsub(1, a), fsub(1, b)))
}

/// The equality polynomial `eq(x, y)` of two points with the same number of
/// variables, as a product of one-variable factors taken from the front.
pub open spec fn eq_eval(x: Seq<nat>, y: Seq<nat>) -> nat {
    fprod(Seq::new(x.len(), |i: int| eq_factor(x[i], y[i])))
}

/// The table of `eq(b, p)` for every point `b` of the hypercube.
pub open spec fn eq_table(p: Seq<nat>) -> Seq<nat>
    decreases p.len(),
{
    if p.len() == 0 {
        seq![1]
    } else {
        let t = eq_table(p.drop_last());
        let r = p.last();
        t.map_values(|x: nat| fmul(x, fsub(1, r))) + t.map_values(|x: nat| fmul(x, r))
    }
}

/// Binds the last variable of a table to `r`: the lower half is interpolated
/// with the upper half.
pub open spec fn fix_top(m: Seq<nat>, r: nat) -> Seq<nat> {
    Seq::new(
        m.len() / 2,
        |i: int| fadd(fmul(fsub(1, r), m[i]), fmul(r, m[i + (m.len() / 2) as int])),
    )
}

/// Evaluation of a table at a point by binding the variables from the last one.
pub open spec fn mle_eval(m: Seq<nat>, p: Seq<nat>) -> nat
    decreases p.len(),
{
    if p.len() == 0 {
        m[0]
    } else {
        mle_eval(fix_top(m, p.last()), p.drop_last())
    }
}

/// The number of variables `n` of a table of length `len` is the integer
/// binary logarithm of the length.
pub open spec fn has_vars(len: nat, n: nat) -> bool {
    pow2(n) <= len < pow2(n + 1)
}

/// A point had an unexpected number of variables.
#[derive(Clone, Copy, PartialEq, Eq, Structural, Debug)]
pub struct UnexpectedVars;

/// A point with `n` variables.
#[derive(Clone)]
pub struct MultiPoint {
    vars: Vec<Scalar>,
}

impl View for MultiPoint {
    type V = Seq<nat>;

    closed spec fn view(&self) -> Seq<nat> {
        views(self.vars@)
    }
}

impl MultiPoint {
    /// The point with the given coordinates.
    pub fn new(vars: Vec<Scalar>) -> (r: MultiPoint)
        ensures
            r@ == views(vars@),
    {
        MultiPoint { vars }
    }

    /// Number of variables.
    pub fn vars(&self) -> (r: usize)
        ensures
            r == self@.len(),
    {
        self.vars.len()
    }

    /// The coordinates.
    pub fn inner(self) -> (r: Vec<Scalar>)
        ensures
            views(r@) == self@,
    {
        self.vars
    }

    /// The coordinates as the field elements of a message, where the point
    /// has the expected number of variables.
    pub fn to_field_elements(&self, vars: usize) -> (r: Result<Vec<Scalar>, UnexpectedVars>)
        ensures
            self@.len() == vars ==> (r matches Ok(v) && views(v@) == self@),
            self@.len() != vars ==> r == Err::<Vec<Scalar>, UnexpectedVars>(UnexpectedVars),
    {
        if self.vars.len() == vars {
            let mut out: Vec<Scalar> = Vec::new();
            let mut j: usize = 0;
            while j < self.vars.len()
                invariant
                    j <= self.vars@.len(),
                    out@ == self.vars@.take(j as int),
                decreases self.vars@.len() - j,
            {
                out.push(self.vars[j]);
                proof {
                    assert(out@ =~= self.vars@.take(j + 1));
                }
                j = j + 1;
            }
            proof {
                assert(self.vars@.take(j as int) =~= self.vars@);
            }
            Ok(out)
        } else {
            Err(UnexpectedVars)
        }
    }

    /// The coordinates, borrowed.
    pub fn inner_ref(&self) -> (r: &Vec<Scalar>)
        ensures
            views(r@) == self@,
    {
        &self.vars
    }

    /// Removes the last coordinate.
    pub fn pop(self) -> (r: (MultiPoint, Scalar))
        requires
            self@.len() > 0,
        ensures
            r.0@ == self@.drop_last(),
            r.1@ == self@.last(),
    {
        let mut vars = self.vars;
        let last = vars.pop().unwrap();
        let r = MultiPoint { vars };
        proof {
            assert(views(r.vars@) =~= views(self.vars@).drop_last());
        }
        (r, last)
    }

    /// Removes the last coordinate in place.
    pub fn pop_mut(&mut self) -> (r: Scalar)
        requires
            old(self)@.len() > 0,
        ensures
            final(self)@ == old(self)@.drop_last(),
            r@ == old(self)@.last(),
    {
        let last = self.vars.pop().unwrap();
        proof {
            assert(views(self.vars@) =~= views(old(self).vars@).drop_last());
        }
        last
    }

    /// Evaluates `eq(self, point)`.
    pub fn eval_as_eq(&self, point: &MultiPoint) -> (r: Scalar)
        requires
            self@.len() == point@.len(),
        ensures
            r@ == eq_eval(self@, point@),
    {
        let n = self.vars.len();
        let mut acc = Scalar::one();
        let mut i: usize = 0;
        let ghost f = |j: int| eq_factor(self@[j], point@[j]);
        while i < n
            invariant
                n == self@.len(),
                n == point@.len(),
                n == self.vars@.len(),
                n == point.vars@.len(),
                self@ == views(self.vars@),
                point@ == views(point.vars@),
                i <= n,
                f == (|j: int| eq_factor(self@[j], point@[j])),
                acc@ == fprod(Seq::new(i as nat, f)),
            decreases n - i,
        {
            let a = &self.vars[i];
            let b = &point.vars[i];
            let one = Scalar::one();
            let var = a.mul(b).add(&one.sub(a).mul(&one.sub(b)));
            acc = acc.mul(&var);
            proof {
                assert(Seq::new((i + 1) as nat, f).drop_last() =~= Seq::new(i as nat, f));
            }
            i = i + 1;
        }
        proof {
            assert(Seq::new(n as nat, f) =~= Seq::new(self@.len(), f));
        }
        acc
    }
}

/// The evaluations of `eq(x, point)` over every point `x` of the hypercube.
pub fn eq(point: &MultiPoint) -> (r: Vec<Scalar>)
    ensures
        views(r@) == eq_table(point@),
        r@.len() == pow2(point@.len()),
{
    let mut table: Vec<Scalar> = Vec::new();
    table.push(Scalar::one());
    let n = point.vars.len();
    let mut k: usize = 0;
    proof {
        assert(point@.take(0) =~= Seq::<nat>::empty());
        assert(views(table@) =~= seq![1nat]);
        lemma_pow2_unfold(1);
        reveal(vstd::arithmetic::power::pow);
    }
    while k < n
        invariant
            n == point.vars@.len(),
            point@ == views(point.vars@),
            k <= n,
            views(table@) == eq_table(point@.take(k as int)),
            table@.len() == pow2(k as nat),
        decreases n - k,
    {
        let r = point.vars[k];
        let one_minus = Scalar::one().sub(&r);
        let len = table.len();
        let mut next: Vec<Scalar> = Vec::new();
        let mut i: usize = 0;
        let ghost t = eq_table(point@.take(k as int));
        while i < len
            invariant
                len == table@.len(),
                t == views(table@),
                i <= len,
                next@.len() == i,
                one_minus@ == fsub(1, r@),
                views(next@) == t.take(i as int).map_values(|x: nat| fmul(x, fsub(1, r@))),
            decreases len - i,
        {
            let ghost before = views(next@);
            next.push(table[i].mul(&one_minus));
            proof {
                let goal = t.take(i + 1).map_values(|x: nat| fmul(x, fsub(1, r@)));
                assert forall|j: int| 0 <= j < i + 1 implies #[trigger] views(next@)[j] == goal[j] by {
                    if j < i {
                        assert(views(next@)[j] == before[j]);
                    }
                }
                assert(views(next@) =~= goal);
            }
            i = i + 1;
        }
        let mut i: usize = 0;
        while i < len
            invariant
                len == table@.len(),
                t == views(table@),
                i <= len,
                next@.len() == len + i,
                views(next@) == t.map_values(|x: nat| fmul(x, fsub(1, r@))) + t.take(
                    i as int,
                ).map_values(|x: nat| fmul(x, r@)),
            decreases len - i,
        {
            let ghost before = views(next@);
            next.push(table[i].mul(&r));
            proof {
                let lo = t.map_values(|x: nat| fmul(x, fsub(1, r@)));
                let goal = lo + t.take(i + 1).map_values(|x: nat| fmul(x, r@));
                assert forall|j: int| 0 <= j < len + i + 1 implies #[trigger] views(next@)[j]
                    == goal[j] by {
                    if j < len + i {
                        assert(views(next@)[j] == before[j]);
                    }
                }
                assert(views(next@) =~= goal);
            }
            i = i + 1;
        }
        proof {
            assert(t.take(len as int) =~= t);
            let p = point@.take(k + 1);
            assert(p.drop_last() =~= point@.take(k as int));
            assert(p.last() == r@);
            lemma_pow2_unfold((k + 1) as nat);
        }
        table = next;
        k = k + 1;
    }
    proof {
        assert(point@.take(n as int) =~= point@);
    }
    table
}

/// Binds the last variable of the table to `var`, halving it.
pub fn fix_var(mle: &mut Vec<Scalar>, var: &Scalar)
    ensures
        views(final(mle)@) == fix_top(views(old(mle)@), var@),
{
    let len = mle.len();
    let half = len / 2;
    let one_minus_var = Scalar::one().sub(var);
    let ghost m = views(mle@);
    let mut i: usize = 0;
    while i < half
        invariant
            half == len / 2,
            len == mle@.len(),
            m.len() == len,
            i <= half,
            one_minus_var@ == fsub(1, var@),
            forall|j: int| 0 <= j < i ==> #[trigger] views(mle@)[j] == fix_top(m, var@)[j],
            forall|j: int| i <= j < len ==> #[trigger] views(mle@)[j] == m[j],
        decreases half - i,
    {
        let comb = one_minus_var.mul(&mle[i]).add(&var.mul(&mle[i + half]));
        let ghost before = views(mle@);
        proof {
            assert(before[i as int] == m[i as int]);
            assert(before[i + half] == m[i + half]);
        }
        mle.set(i, comb);
        proof {
            assert forall|j: int| 0 <= j < i + 1 implies #[trigger] views(mle@)[j] == fix_top(
                m,
                var@,
            )[j] by {
                if j < i {
                    assert(views(mle@)[j] == before[j]);
                }
            }
            assert forall|j: int| i + 1 <= j < len implies #[trigger] views(mle@)[j] == m[j] by {
                assert(views(mle@)[j] == before[j]);
            }
        }
        i = i + 1;
    }
    let ghost before = views(mle@);
    mle.truncate(half);
    proof {
        assert forall|j: int| 0 <= j < half implies #[trigger] views(mle@)[j] == fix_top(m, var@)[j]
            by {
            assert(views(mle@)[j] == before[j]);
        }
        assert(views(mle@) =~= fix_top(m, var@));
    }
}

/// Evaluates a table at a point as `sum_b eq(b, point) * mle[b]`, in linear time.
pub fn eval(mle: &Vec<Scalar>, point: &MultiPoint) -> (r: Scalar)
    requires
        has_vars(mle@.len() as nat, point@.len()),
    ensures
        r@ == dot(eq_table(point@), views(mle@)),
{
    let table = eq(point);
    let n = table.len();
    let mut acc = Scalar::zero();
    let mut i: usize = 0;
    let ghost e = eq_table(point@);
    let ghost m = views(mle@);
    let ghost f = |j: int| fmul(e[j], m[j]);
    while i < n
        invariant
            n == table@.len(),
            n <= mle@.len(),
            e == views(table@),
            m == views(mle@),
            f == (|j: int| fmul(e[j], m[j])),
            i <= n,
            acc@ == fsum(Seq::new(i as nat, f)),
        decreases n - i,
    {
        acc = acc.add(&table[i].mul(&mle[i]));
        proof {
            assert(Seq::new((i + 1) as nat, f).drop_last() =~= Seq::new(i as nat, f));
        }
        i = i + 1;
    }
    proof {
        assert(Seq::new(n as nat, f) =~= Seq::new(e.len(), f));
    }
    acc
}

/// Evaluates a table at a point by binding one variable after the other.
pub fn eval_slow(mle: Vec<Scalar>, point: MultiPoint) -> (r: Scalar)
    requires
        point@.len() >= 1,
        has_vars(mle@.len() as nat, point@.len()),
    ensures
        r@ == mle_eval(views(mle@), point@),
    decreases point@.len(),
{
    let ghost full = point@;
    let ghost old_len = mle@.len();
    let ghost orig = views(mle@);
    let (point, var) = point.pop();
    let mut mle = mle;
    fix_var(&mut mle, &var);
    proof {
        assert(full.drop_last() == point@);
        assert(mle_eval(orig, full) == mle_eval(views(mle@), point@));
        assert(views(mle@).len() == mle@.len());
        assert(mle@.len() == old_len / 2);
        lemma_pow2_unfold((point@.len() + 1) as nat);
        lemma_pow2_unfold((point@.len() + 2) as nat);
        lemma_pow2_pos(point@.len());
    }
    if point.vars() == 0 {
        proof {
            assert(mle_eval(views(mle@), point@) == views(mle@)[0]);
            assert(full.drop_last() == point@);
        }
        mle[0]
    } else {
        eval_slow(mle, point)
    }
}

/// The two evaluations of a table of `2^n` values agree: the sum weighted by
/// the equality polynomial is the value obtained by binding the variables one
/// after the other.
pub proof fn lemma_eval_matches_eval_slow(m: Seq<nat>, p: Seq<nat>)
    requires
        m.len() == pow2(p.len()),
        reduced(m),
    ensures
        dot(eq_table(p), m) == mle_eval(m, p),
        eq_table(p).len() == pow2(p.len()),
    decreases p.len(),
{
    if p.len() == 0 {
        reveal(vstd::arithmetic::power::pow);
        lemma_mul_one(m[0]);
        lemma_add_zero(m[0]);
        let d = Seq::new(1, |i: int| fmul(eq_table(p)[i], m[i]));
        assert(d.drop_last() =~= Seq::<nat>::empty());
        assert(eq_table(p) == seq![1nat]);
        assert(d[0] == m[0]);
        assert(fsum(d.drop_last()) == 0);
        assert(fsum(d) == m[0]);
        assert(mle_eval(m, p) == m[0]);
    } else {
        let n = p.len();
        let q = p.drop_last();
        let r = p.last();
        let s = fsub(1, r);
        let t = eq_table(q);
        let fm = fix_top(m, r);
        lemma_pow2_unfold(n);
        lemma_eval_matches_eval_slow_len(q);
        let h = pow2((n - 1) as nat) as int;
        assert(t.len() == h);
        let e = eq_table(p);
        assert(e.len() == 2 * h);
        let d = Seq::new(e.len(), |i: int| fmul(e[i], m[i]));
        let a = Seq::new(h as nat, |i: int| fmul(fmul(t[i], s), m[i]));
        let b = Seq::new(h as nat, |i: int| fmul(fmul(t[i], r), m[i + h]));
        assert(d =~= a + b);
        lemma_fsum_concat(a, b);
        let c = Seq::new(h as nat, |i: int| fmul(t[i], fm[i]));
        assert forall|i: int| 0 <= i < h implies #[trigger] c[i] == fadd(a[i], b[i]) by {
            lemma_mul_assoc(t[i], s, m[i]);
            lemma_mul_assoc(t[i], r, m[i + h]);
            lemma_distrib(t[i], fmul(s, m[i]), fmul(r, m[i + h]));
        }
        lemma_fsum_pointwise_add(a, b, c);
        assert(reduced(fm));
        lemma_eval_matches_eval_slow(fm, q);
        assert(c =~= Seq::new(t.len(), |i: int| fmul(t[i], fm[i])));
        assert(dot(t, fm) == fsum(c));
        assert(fsum(d) == fsum(c));
        assert(dot(e, m) == fsum(d));
        assert(mle_eval(m, p) == mle_eval(fm, q));
    }
}

/// The table of the equality polynomial has `2^n` entries.
pub proof fn lemma_eval_matches_eval_slow_len(p: Seq<nat>)
    ensures
        eq_table(p).len() == pow2(p.len()),
    decreases p.len(),
{
    if p.len() == 0 {
        reveal(vstd::arithmetic::power::pow);
    } else {
        lemma_eval_matches_eval_slow_len(p.drop_last());
        lemma_pow2_unfold(p.len());
    }
}

} // verus!
