//! Utilities for zerocheck: the compact representation of the powers of a
//! challenge as a multilinear polynomial.
//!
//! `CompactPowers` is the multilinear polynomial
//! `p(x) = prod_j (x_j * b_j + (1 - x_j) * c_j)` held as its factors `(b_j, c_j)`.
//! With `b_j = ß^(2^j)` and `c_j = 1` its table over the hypercube is
//! `1, ß, ß^2, ..., ß^(2^n - 1)`.  Point evaluation costs `O(n)`, the table
//! `O(2^n)`.
use crate::algebra::{
    fprod, fsum, lemma_fprod_lt, lemma_fprod_push, lemma_fsum_concat, lemma_fsum_scale, views,
};
use crate::field::{
    fadd, finv, fmul, fpow, fsub, group_field, lemma_add_comm, lemma_add_zero, lemma_distrib,
    lemma_mul_assoc, lemma_mul_comm, lemma_mul_one, lemma_mul_zero, lemma_small, lemma_sub_zero,
    modulus, Scalar,
};
use crate::polynomials::{fix_top, MultiPoint};
use crate::sumcheck::{Env, EvalLocation, Var};
use vstd::arithmetic::power2::{lemma_pow2_pos, lemma_pow2_unfold, pow2};
use vstd::prelude::*;

verus! {

broadcast use group_field;

/// One factor of compact powers evaluated at `x`: `x * b + (1 - x) * c`.
pub open spec fn powers_factor(x: nat, bc: (nat, nat)) -> nat {
    fadd(fmul(x, bc.0), fmul(fsub(1, x), bc.1))
}

/// Evaluation of the factors at a point, multiplied from the first factor.
pub open spec fn factors_eval(f: Seq<(nat, nat)>, p: Seq<nat>) -> nat {
    fprod(Seq::new(f.len(), |i: int| powers_factor(p[i], f[i])))
}

/// The table over the hypercube of `s * prod_j (x_j * b_j + (1 - x_j) * c_j)`.
pub open spec fn hyper_prod(f: Seq<(nat, nat)>, s: nat) -> Seq<nat>
    decreases f.len(),
{
    if f.len() == 0 {
        seq![s]
    } else {
        let t = hyper_prod(f.drop_last(), s);
        let bc = f.last();
        t.map_values(|x: nat| fmul(x, bc.1)) + t.map_values(|x: nat| fmul(x, bc.0))
    }
}

/// The table obtained from its value at zero by multiplying, for every variable
/// that is one, by that variable's flip factor.
pub open spec fn flip_table(e: nat, fl: Seq<nat>) -> Seq<nat>
    decreases fl.len(),
{
    if fl.len() == 0 {
        seq![e]
    } else {
        let t = flip_table(e, fl.drop_last());
        t + t.map_values(|x: nat| fmul(x, fl.last()))
    }
}

/// The point of the hypercube with index `idx`: coordinate `j` is bit `j`.
pub open spec fn hypercube_point(idx: nat, n: nat) -> Seq<nat>
    decreases n,
{
    if n == 0 {
        seq![]
    } else if idx < pow2((n - 1) as nat) {
        hypercube_point(idx, (n - 1) as nat).push(0)
    } else {
        hypercube_point((idx - pow2((n - 1) as nat)) as nat, (n - 1) as nat).push(1)
    }
}

/// The factors of the powers of `chall`: `(chall^(2^j), 1)`.
pub open spec fn powers_factors(chall: nat, vars: nat) -> Seq<(nat, nat)> {
    Seq::new(vars, |j: int| (fpow(chall, pow2(j as nat)), 1nat))
}

/// The binary digits of `x`, the `left` lowest ones, most significant first.
pub open spec fn spec_bits(x: nat, left: nat) -> Seq<u8>
    decreases left,
{
    if left == 0 {
        seq![]
    } else {
        spec_bits(x / 2, (left - 1) as nat).push((x % 2) as u8)
    }
}

pub open spec fn pair_views(s: Seq<(Scalar, Scalar)>) -> Seq<(nat, nat)> {
    s.map_values(|p: (Scalar, Scalar)| (p.0@, p.1@))
}

/// The multilinear polynomial `prod_j (x_j * b_j + (1 - x_j) * c_j)`.
#[derive(Clone)]
pub struct CompactPowers {
    coefficients: Vec<(Scalar, Scalar)>,
}

impl View for CompactPowers {
    type V = Seq<(nat, nat)>;

    closed spec fn view(&self) -> Seq<(nat, nat)> {
        pair_views(self.coefficients@)
    }
}

impl CompactPowers {
    /// The powers `1, chall, chall^2, ...` over `vars` variables.
    pub fn new(chall: Scalar, vars: usize) -> (r: CompactPowers)
        ensures
            r@ == powers_factors(chall@, vars as nat),
    {
        let mut coefficients: Vec<(Scalar, Scalar)> = Vec::new();
        let mut c = chall;
        let mut j: usize = 0;
        proof {
            reveal(vstd::arithmetic::power::pow);
            lemma_pow_one(chall@);
        }
        while j < vars
            invariant
                j <= vars,
                c@ == fpow(chall@, pow2(j as nat)),
                coefficients@.len() == j,
                pair_views(coefficients@) == powers_factors(chall@, j as nat),
            decreases vars - j,
        {
            let ghost before = pair_views(coefficients@);
            coefficients.push((c, Scalar::one()));
            proof {
                let goal = powers_factors(chall@, (j + 1) as nat);
                assert forall|t: int| 0 <= t < j + 1 implies #[trigger] pair_views(coefficients@)[t]
                    == goal[t] by {
                    if t < j {
                        assert(pair_views(coefficients@)[t] == before[t]);
                    }
                }
                assert(pair_views(coefficients@) =~= goal);
                lemma_pow2_unfold((j + 1) as nat);
                lemma_fpow_add(chall@, pow2(j as nat), pow2(j as nat));
            }
            c = c.square();
            j = j + 1;
        }
        CompactPowers { coefficients }
    }

    /// The powers with the given factors `(b_j, c_j)`.
    pub fn from_factors(coefficients: Vec<(Scalar, Scalar)>) -> (r: CompactPowers)
        ensures
            r@ == pair_views(coefficients@),
    {
        CompactPowers { coefficients }
    }

    /// Number of variables.
    pub fn vars(&self) -> (r: usize)
        ensures
            r == self@.len(),
    {
        self.coefficients.len()
    }

    /// Evaluation at a point with as many variables.
    pub fn point_eval(&self, point: &MultiPoint) -> (r: Scalar)
        requires
            self@.len() == point@.len(),
        ensures
            r@ == factors_eval(self@, point@),
    {
        let n = self.coefficients.len();
        let xs = point.inner_ref();
        let mut acc = Scalar::one();
        let mut i: usize = 0;
        let ghost f = |j: int| powers_factor(point@[j], self@[j]);
        while i < n
            invariant
                n == self.coefficients@.len(),
                n == xs@.len(),
                views(xs@) == point@,
                self@ == pair_views(self.coefficients@),
                f == (|j: int| powers_factor(point@[j], self@[j])),
                i <= n,
                acc@ == fprod(Seq::new(i as nat, f)),
            decreases n - i,
        {
            let (b, c) = self.coefficients[i];
            let x = xs[i];
            let factor = x.mul(&b).add(&Scalar::one().sub(&x).mul(&c));
            acc = acc.mul(&factor);
            proof {
                assert(Seq::new((i + 1) as nat, f).drop_last() =~= Seq::new(i as nat, f));
            }
            i = i + 1;
        }
        proof {
            assert(Seq::new(n as nat, f) =~= Seq::new(self@.len(), f));
        }
        acc
    }

    /// The evaluations over the hypercube.
    pub fn eval_over_domain(&self) -> (r: Vec<Scalar>)
        requires
            self@.len() >= 1,
            pow2(self@.len()) <= usize::MAX,
            forall|j: int| 0 <= j < self@.len() ==> #[trigger] self@[j].1 != 0,
        ensures
            views(r@) == hyper_prod(self@, 1),
    {
        self.eval_over_domain_scaled(&Scalar::one())
    }

    /// The evaluations over the hypercube, each multiplied by `scalar`.
    pub fn eval_over_domain_scaled(&self, scalar: &Scalar) -> (r: Vec<Scalar>)
        requires
            self@.len() >= 1,
            pow2(self@.len()) <= usize::MAX,
            forall|j: int| 0 <= j < self@.len() ==> #[trigger] self@[j].1 != 0,
        ensures
            views(r@) == hyper_prod(self@, scalar@),
    {
        let vars = self.coefficients.len();
        let ghost f = self@;
        // The value at zero: the product of every `c`, scaled.
        let mut eval_at_zero = Scalar::one();
        let mut i: usize = 0;
        let ghost cs = f.map_values(|bc: (nat, nat)| bc.1);
        while i < vars
            invariant
                vars == self.coefficients@.len(),
                f == pair_views(self.coefficients@),
                cs == f.map_values(|bc: (nat, nat)| bc.1),
                i <= vars,
                eval_at_zero@ == fprod(cs.take(i as int)),
            decreases vars - i,
        {
            eval_at_zero = eval_at_zero.mul(&self.coefficients[i].1);
            proof {
                assert(cs.take(i + 1).drop_last() =~= cs.take(i as int));
            }
            i = i + 1;
        }
        let eval_at_zero = eval_at_zero.mul(scalar);
        // Multiplying by flip j turns the value at a point with x_j = 0 into the
        // value at the point with x_j = 1.
        let mut flips: Vec<Scalar> = Vec::new();
        let mut i: usize = 0;
        while i < vars
            invariant
                vars == self.coefficients@.len(),
                f == pair_views(self.coefficients@),
                forall|j: int| 0 <= j < f.len() ==> #[trigger] f[j].1 != 0,
                i <= vars,
                flips@.len() == i,
                forall|j: int|
                    0 <= j < i ==> #[trigger] flips@[j]@ == fmul(finv(f[j].1), f[j].0),
                forall|j: int| 0 <= j < i ==> #[trigger] fmul(f[j].1, finv(f[j].1)) == 1,
            decreases vars - i,
        {
            let (b, c) = self.coefficients[i];
            proof {
                assert(f[i as int].1 == c@);
            }
            let flip = c.inverse().unwrap().mul(&b);
            flips.push(flip);
            i = i + 1;
        }
        let mut mle: Vec<Scalar> = Vec::new();
        let mut size: usize = 1;
        let mut i: usize = 0;
        proof {
            reveal(vstd::arithmetic::power::pow);
        }
        while i < vars
            invariant
                i <= vars,
                size == pow2(i as nat),
                pow2(vars as nat) <= usize::MAX,
            decreases vars - i,
        {
            proof {
                lemma_pow2_unfold((i + 1) as nat);
                lemma_pow2_le((i + 1) as nat, vars as nat);
            }
            size = size * 2;
            i = i + 1;
        }
        let mut i: usize = 0;
        while i < size
            invariant
                i <= size,
                mle@.len() == i,
            decreases size - i,
        {
            mle.push(Scalar::zero());
            i = i + 1;
        }
        proof {
            lemma_pow2_pos(vars as nat);
        }
        mle.set(0, eval_at_zero);
        let ghost fl = views(flips@);
        let mut block: usize = 1;
        let mut k: usize = 0;
        proof {
            assert(views(mle@).take(1) =~= flip_table(eval_at_zero@, fl.take(0)));
        }
        while k < vars
            invariant
                k <= vars,
                vars == flips@.len(),
                fl == views(flips@),
                block == pow2(k as nat),
                size == pow2(vars as nat),
                mle@.len() == size,
                pow2(vars as nat) <= usize::MAX,
                views(mle@).take(block as int) == flip_table(eval_at_zero@, fl.take(k as int)),
            decreases vars - k,
        {
            let flip = flips[k];
            let mut i: usize = 0;
            let ghost t = views(mle@).take(block as int);
            proof {
                lemma_pow2_unfold((k + 1) as nat);
                lemma_pow2_le((k + 1) as nat, vars as nat);
            }
            while i < block
                invariant
                    i <= block,
                    block * 2 <= size,
                    mle@.len() == size,
                    t.len() == block,
                    flip@ == fl[k as int],
                    views(mle@).take(block as int) == t,
                    forall|j: int|
                        0 <= j < i ==> #[trigger] views(mle@)[block + j] == fmul(t[j], fl[k as int]),
                decreases block - i,
            {
                let v = mle[i].mul(&flip);
                let ghost before = views(mle@);
                mle.set(block + i, v);
                proof {
                    assert(before[i as int] == t[i as int]);
                    assert forall|j: int| 0 <= j < block implies #[trigger] views(mle@).take(
                        block as int,
                    )[j] == t[j] by {
                        assert(views(mle@)[j] == before[j]);
                    }
                    assert(views(mle@).take(block as int) =~= t);
                    assert forall|j: int| 0 <= j < i + 1 implies #[trigger] views(mle@)[block + j]
                        == fmul(t[j], fl[k as int]) by {
                        if j < i {
                            assert(views(mle@)[block + j] == before[block + j]);
                        }
                    }
                }
                i = i + 1;
            }
            proof {
                assert(fl.take(k + 1).drop_last() =~= fl.take(k as int));
                let goal = flip_table(eval_at_zero@, fl.take(k + 1));
                assert(goal == t + t.map_values(|x: nat| fmul(x, fl[k as int])));
                assert forall|j: int| 0 <= j < block * 2 implies #[trigger] views(mle@).take(
                    block * 2,
                )[j] == goal[j] by {
                    if j < block {
                        assert(views(mle@).take(block as int)[j] == t[j]);
                    } else {
                        assert(views(mle@)[block + (j - block)] == fmul(t[j - block], fl[k as int]));
                    }
                }
                assert(views(mle@).take(block * 2) =~= goal);
            }
            block = block * 2;
            k = k + 1;
        }
        proof {
            assert(fl.take(vars as int) =~= fl);
            assert(views(mle@).take(size as int) =~= views(mle@));
            lemma_fprod_lt(cs);
            assert(cs.take(vars as int) =~= cs);
            lemma_flip_table_is_hyper_prod(f, scalar@, fl);
            lemma_mul_comm(fprod(cs), scalar@);
        }
        mle
    }

    /// Removes the factor of the last variable and returns its evaluation at `point`.
    pub fn fix_upper_var(&mut self, point: &Scalar) -> (r: Scalar)
        requires
            old(self)@.len() > 0,
        ensures
            final(self)@ == old(self)@.drop_last(),
            r@ == powers_factor(point@, old(self)@.last()),
    {
        let (b, c) = self.coefficients.pop().unwrap();
        proof {
            assert(pair_views(self.coefficients@) =~= pair_views(old(self).coefficients@).drop_last());
        }
        point.mul(&b).add(&Scalar::one().sub(point).mul(&c))
    }

    /// The factors `(b_j, c_j)`.
    pub fn factors(&self) -> (r: &Vec<(Scalar, Scalar)>)
        ensures
            pair_views(r@) == self@,
    {
        &self.coefficients
    }

    /// Multiplies both entries of every factor by `rhs`.
    pub fn mul(self, rhs: &Scalar) -> (r: CompactPowers)
        ensures
            r@.len() == self@.len(),
            forall|j: int|
                0 <= j < self@.len() ==> #[trigger] r@[j] == (fmul(self@[j].0, rhs@), fmul(
                    self@[j].1,
                    rhs@,
                )),
    {
        let mut coefficients = self.coefficients;
        let n = coefficients.len();
        let ghost f = pair_views(coefficients@);
        let mut i: usize = 0;
        while i < n
            invariant
                n == coefficients@.len(),
                f.len() == n,
                i <= n,
                forall|j: int|
                    0 <= j < i ==> #[trigger] pair_views(coefficients@)[j] == (fmul(f[j].0, rhs@), fmul(
                        f[j].1,
                        rhs@,
                    )),
                forall|j: int| i <= j < n ==> #[trigger] pair_views(coefficients@)[j] == f[j],
            decreases n - i,
        {
            let (b, c) = coefficients[i];
            let ghost before = pair_views(coefficients@);
            proof {
                assert(before[i as int] == f[i as int]);
            }
            coefficients.set(i, (b.mul(rhs), c.mul(rhs)));
            proof {
                assert forall|j: int| 0 <= j < n && j != i implies #[trigger] pair_views(
                    coefficients@,
                )[j] == before[j] by {}
            }
            i = i + 1;
        }
        CompactPowers { coefficients }
    }

    /// Adds the factors of `rhs` entry by entry, as far as both have factors.
    pub fn add(self, rhs: CompactPowers) -> (r: CompactPowers)
        ensures
            r@.len() == self@.len(),
            forall|j: int|
                0 <= j < self@.len() ==> #[trigger] r@[j] == if j < rhs@.len() {
                    (fadd(self@[j].0, rhs@[j].0), fadd(self@[j].1, rhs@[j].1))
                } else {
                    self@[j]
                },
    {
        let mut coefficients = self.coefficients;
        let n = coefficients.len();
        let m = if rhs.coefficients.len() < n {
            rhs.coefficients.len()
        } else {
            n
        };
        let ghost f = pair_views(coefficients@);
        let ghost g = rhs@;
        let mut i: usize = 0;
        while i < m
            invariant
                n == coefficients@.len(),
                f.len() == n,
                g == pair_views(rhs.coefficients@),
                m <= n,
                m <= g.len(),
                m == n || m == g.len(),
                i <= m,
                forall|j: int|
                    0 <= j < i ==> #[trigger] pair_views(coefficients@)[j] == (fadd(f[j].0, g[j].0), fadd(
                        f[j].1,
                        g[j].1,
                    )),
                forall|j: int| i <= j < n ==> #[trigger] pair_views(coefficients@)[j] == f[j],
            decreases m - i,
        {
            let (b, c) = coefficients[i];
            let (rb, rc) = rhs.coefficients[i];
            let ghost before = pair_views(coefficients@);
            proof {
                assert(before[i as int] == f[i as int]);
            }
            coefficients.set(i, (b.add(&rb), c.add(&rc)));
            proof {
                assert forall|j: int| 0 <= j < n && j != i implies #[trigger] pair_views(
                    coefficients@,
                )[j] == before[j] by {}
            }
            i = i + 1;
        }
        CompactPowers { coefficients }
    }

    /// The factors as field elements, `b_0, c_0, b_1, c_1, ...`.
    pub fn to_field_elements(&self) -> (r: Vec<Scalar>)
        ensures
            r@.len() == 2 * self@.len(),
            forall|j: int|
                0 <= j < self@.len() ==> #[trigger] r@[2 * j]@ == self@[j].0 && r@[2 * j + 1]@
                    == self@[j].1,
    {
        let n = self.coefficients.len();
        let mut r: Vec<Scalar> = Vec::new();
        let mut i: usize = 0;
        while i < n
            invariant
                n == self.coefficients@.len(),
                self@ == pair_views(self.coefficients@),
                i <= n,
                r@.len() == 2 * i,
                forall|j: int|
                    0 <= j < i ==> #[trigger] r@[2 * j]@ == self@[j].0 && r@[2 * j + 1]@
                        == self@[j].1,
            decreases n - i,
        {
            let (b, c) = self.coefficients[i];
            let ghost before = r@;
            r.push(b);
            r.push(c);
            proof {
                assert(self@[i as int] == (b@, c@));
                assert forall|j: int| 0 <= j < i + 1 implies #[trigger] r@[2 * j]@ == self@[j].0
                    && r@[2 * j + 1]@ == self@[j].1 by {
                    if j < i {
                        assert(r@[2 * j] == before[2 * j]);
                        assert(r@[2 * j + 1] == before[2 * j + 1]);
                    }
                }
            }
            i = i + 1;
        }
        r
    }
}

/// A `CompactPowers` whose upper variables are fixed one at a time, with the
/// table of what is left.
pub struct ShrinkingPowers {
    powers: CompactPowers,
    constants: Vec<Scalar>,
}

impl ShrinkingPowers {
    pub closed spec fn remaining(&self) -> Seq<(nat, nat)> {
        self.powers@
    }

    /// The product of the factors already fixed.
    pub closed spec fn scale(&self) -> nat {
        fprod(views(self.constants@))
    }

    pub fn new(powers: CompactPowers) -> (r: ShrinkingPowers)
        ensures
            r.remaining() == powers@,
            r.scale() == 1,
    {
        ShrinkingPowers { powers, constants: Vec::new() }
    }

    /// Fixes the last remaining variable to `point` and returns the table of the
    /// rest, scaled by every fixed factor.
    pub fn fix(&mut self, point: &Scalar) -> (r: Vec<Scalar>)
        requires
            old(self).remaining().len() > 0,
            pow2(old(self).remaining().len()) <= usize::MAX,
            forall|j: int|
                0 <= j < old(self).remaining().len() - 1 ==> #[trigger] old(
                    self,
                ).remaining()[j].1 != 0,
        ensures
            final(self).remaining() == old(self).remaining().drop_last(),
            final(self).scale() == fmul(
                old(self).scale(),
                powers_factor(point@, old(self).remaining().last()),
            ),
            views(r@) == hyper_prod(final(self).remaining(), final(self).scale()),
    {
        let constant = self.powers.fix_upper_var(point);
        let ghost old_constants = views(self.constants@);
        self.constants.push(constant);
        let n = self.constants.len();
        let mut scale = Scalar::one();
        let mut i: usize = 0;
        while i < n
            invariant
                n == self.constants@.len(),
                i <= n,
                scale@ == fprod(views(self.constants@).take(i as int)),
            decreases n - i,
        {
            scale = scale.mul(&self.constants[i]);
            proof {
                assert(views(self.constants@).take(i + 1).drop_last() =~= views(
                    self.constants@,
                ).take(i as int));
            }
            i = i + 1;
        }
        proof {
            assert(views(self.constants@).take(n as int) =~= views(self.constants@));
            assert(views(self.constants@) =~= old_constants.push(constant@));
            lemma_fprod_push(old_constants, constant@);
        }
        if self.powers.vars() == 0 {
            let mut r: Vec<Scalar> = Vec::new();
            r.push(scale);
            proof {
                assert(views(r@) =~= seq![scale@]);
            }
            r
        } else {
            proof {
                lemma_pow2_le((self.powers@.len()) as nat, (self.powers@.len() + 1) as nat);
            }
            self.powers.eval_over_domain_scaled(&scale)
        }
    }
}

/// The binary digits of `x`, the `left` lowest ones, most significant first.
pub fn bits(x: usize, left: usize) -> (r: Vec<u8>)
    ensures
        r@ == spec_bits(x as nat, left as nat),
    decreases left,
{
    if left == 0 {
        Vec::new()
    } else {
        let bit = x % 2;
        let mut tail = bits(x / 2, left - 1);
        tail.push(bit as u8);
        tail
    }
}

// ---------------------------------------------------------------------------
// Laws.
// ---------------------------------------------------------------------------

/// The table of the powers of `chall` over the hypercube is `1, chall, chall^2, ...`.
pub proof fn lemma_powers_table(chall: nat, n: nat, idx: int)
    requires
        0 <= idx < pow2(n),
    ensures
        hyper_prod(powers_factors(chall, n), 1)[idx] == fpow(chall, idx as nat),
    decreases n,
{
    let f = powers_factors(chall, n);
    lemma_hyper_prod_len(f, 1);
    if n == 0 {
        reveal(vstd::arithmetic::power::pow);
    } else {
        let g = powers_factors(chall, (n - 1) as nat);
        assert(f.drop_last() =~= g);
        let h = pow2((n - 1) as nat) as int;
        lemma_pow2_unfold(n);
        lemma_hyper_prod_len(g, 1);
        if idx < h {
            lemma_powers_table(chall, (n - 1) as nat, idx);
            lemma_fpow_lt(chall, idx as nat);
            lemma_mul_one(fpow(chall, idx as nat));
        } else {
            lemma_powers_table(chall, (n - 1) as nat, idx - h);
            lemma_fpow_add(chall, (idx - h) as nat, h as nat);
        }
    }
}

/// A point of the hypercube has one coordinate per variable.
pub proof fn lemma_hypercube_point_len(idx: nat, n: nat)
    ensures
        hypercube_point(idx, n).len() == n,
    decreases n,
{
    if n > 0 {
        if idx < pow2((n - 1) as nat) {
            lemma_hypercube_point_len(idx, (n - 1) as nat);
        } else {
            lemma_hypercube_point_len((idx - pow2((n - 1) as nat)) as nat, (n - 1) as nat);
        }
    }
}

/// The multilinear extension of the product table, scaled by `s`, is the
/// product of the factors scaled by `s`, at every point: the table of compact
/// powers evaluates at a point as `point_eval` does.
pub proof fn lemma_mle_of_powers(f: Seq<(nat, nat)>, s: nat, p: Seq<nat>)
    requires
        p.len() == f.len(),
        s < modulus(),
    ensures
        crate::polynomials::mle_eval(hyper_prod(f, s), p) == fmul(s, factors_eval(f, p)),
    decreases f.len(),
{
    if f.len() == 0 {
        lemma_mul_one(s);
        assert(Seq::new(0, |i: int| powers_factor(p[i], f[i])) =~= Seq::<nat>::empty());
    } else {
        let r = p.last();
        let k = powers_factor(r, f.last());
        lemma_shrinking_matches_fix_var(f, s, r);
        lemma_mle_of_powers(f.drop_last(), fmul(s, k), p.drop_last());
        let g = |i: int| powers_factor(p[i], f[i]);
        let g2 = |i: int| powers_factor(p.drop_last()[i], f.drop_last()[i]);
        assert(Seq::new(f.len(), g).drop_last() =~= Seq::new(f.drop_last().len(), g2));
        let rest = fprod(Seq::new(f.drop_last().len(), g2));
        // (s k) rest = s (rest k)
        lemma_mul_assoc(s, k, rest);
        lemma_mul_comm(k, rest);
    }
}

/// The table over the hypercube agrees with point evaluation at every point of
/// the hypercube.
pub proof fn lemma_table_matches_point_eval(f: Seq<(nat, nat)>, idx: int)
    requires
        0 <= idx < pow2(f.len()),
        forall|j: int| 0 <= j < f.len() ==> f[j].0 < modulus() && f[j].1 < modulus(),
    ensures
        hyper_prod(f, 1)[idx] == factors_eval(f, hypercube_point(idx as nat, f.len())),
    decreases f.len(),
{
    let n = f.len();
    lemma_hyper_prod_len(f, 1);
    lemma_hypercube_point_len(idx as nat, n);
    if n == 0 {
        reveal(vstd::arithmetic::power::pow);
        let e = Seq::new(0, |i: int| powers_factor(hypercube_point(idx as nat, n)[i], f[i]));
        assert(fprod(e) == 1);
    } else {
        let g = f.drop_last();
        let h = pow2((n - 1) as nat) as int;
        lemma_pow2_unfold(n);
        lemma_hyper_prod_len(g, 1);
        let (b, c) = f.last();
        let p = hypercube_point(idx as nat, n);
        let (j, bit) = if idx < h {
            (idx, 0nat)
        } else {
            (idx - h, 1nat)
        };
        let q = hypercube_point(j as nat, (n - 1) as nat);
        assert(p == q.push(bit));
        lemma_hypercube_point_len(j as nat, (n - 1) as nat);
        lemma_table_matches_point_eval(g, j);
        let ef = |i: int| powers_factor(p[i], f[i]);
        let eg = |i: int| powers_factor(q[i], g[i]);
        assert(Seq::new(n, ef).drop_last() =~= Seq::new(g.len(), eg));
        lemma_mul_zero(b);
        lemma_mul_zero(c);
        lemma_sub_zero(1);
        lemma_small(1);
        lemma_mul_one(b);
        lemma_mul_one(c);
        lemma_add_zero(b);
        lemma_add_zero(c);
        assert(fsub(1, 0) == 1);
        assert(powers_factor(0, (b, c)) == c);
        assert(powers_factor(1, (b, c)) == b);
    }
}

/// The sum of the table over the hypercube is `s * prod_j (b_j + c_j)`.
pub proof fn lemma_hypercube_sum(f: Seq<(nat, nat)>, s: nat)
    requires
        s < modulus(),
    ensures
        fsum(hyper_prod(f, s)) == fmul(
            s,
            fprod(f.map_values(|bc: (nat, nat)| fadd(bc.0, bc.1))),
        ),
    decreases f.len(),
{
    let sums = f.map_values(|bc: (nat, nat)| fadd(bc.0, bc.1));
    if f.len() == 0 {
        let t = hyper_prod(f, s);
        assert(t.drop_last() =~= Seq::<nat>::empty());
        assert(fsum(t.drop_last()) == 0);
        lemma_add_zero(s);
        lemma_mul_one(s);
        assert(fprod(sums) == 1);
    } else {
        let g = f.drop_last();
        let (b, c) = f.last();
        let t = hyper_prod(g, s);
        lemma_hypercube_sum(g, s);
        let lo = t.map_values(|x: nat| fmul(x, c));
        let hi = t.map_values(|x: nat| fmul(x, b));
        lemma_fsum_concat(lo, hi);
        assert forall|i: int| 0 <= i < lo.len() implies #[trigger] lo[i] == fmul(c, t[i]) by {
            lemma_mul_comm(t[i], c);
        }
        assert forall|i: int| 0 <= i < hi.len() implies #[trigger] hi[i] == fmul(b, t[i]) by {
            lemma_mul_comm(t[i], b);
        }
        lemma_fsum_scale(t, c, lo);
        lemma_fsum_scale(t, b, hi);
        let st = fsum(t);
        let gs = g.map_values(|bc: (nat, nat)| fadd(bc.0, bc.1));
        assert(sums.drop_last() =~= gs);
        // c * st + b * st == st * (b + c)
        lemma_mul_comm(c, st);
        lemma_mul_comm(b, st);
        lemma_distrib(st, c, b);
        lemma_add_comm(c, b);
        lemma_mul_assoc(s, fprod(gs), fadd(b, c));
        assert(hyper_prod(f, s) == lo + hi);
        assert(fprod(sums) == fmul(fprod(gs), fadd(b, c)));
    }
}

/// Fixing the last variable of the table to `r` gives the table of the
/// remaining factors scaled by the factor evaluated at `r`; this is what
/// `ShrinkingPowers::fix` returns in place of binding the variable.
pub proof fn lemma_shrinking_matches_fix_var(f: Seq<(nat, nat)>, s: nat, r: nat)
    requires
        f.len() > 0,
    ensures
        fix_top(hyper_prod(f, s), r) == hyper_prod(f.drop_last(), fmul(s, powers_factor(r, f.last()))),
{
    let g = f.drop_last();
    let (b, c) = f.last();
    let t = hyper_prod(g, s);
    let k = powers_factor(r, (b, c));
    lemma_hyper_prod_len(g, s);
    lemma_hyper_prod_len(g, fmul(s, k));
    lemma_hyper_prod_len(f, s);
    lemma_pow2_unfold(f.len());
    let h = t.len() as int;
    let lhs = fix_top(hyper_prod(f, s), r);
    let rhs = hyper_prod(g, fmul(s, k));
    assert forall|i: int| 0 <= i < h implies #[trigger] lhs[i] == rhs[i] by {
        lemma_hyper_prod_scale(g, s, k, i);
        let x = t[i];
        let om = fsub(1, r);
        lemma_mul_assoc(om, x, c);
        lemma_mul_comm(om, x);
        lemma_mul_assoc(x, om, c);
        lemma_mul_assoc(r, x, b);
        lemma_mul_comm(r, x);
        lemma_mul_assoc(x, r, b);
        lemma_distrib(x, fmul(r, b), fmul(om, c));
        lemma_add_comm(fmul(x, fmul(om, c)), fmul(x, fmul(r, b)));
    }
    assert(lhs =~= rhs);
}

proof fn lemma_pow_one(a: nat)
    ensures
        fpow(a, 1) == a % modulus(),
{
    assert(fpow(a, 0) == 1);
    lemma_mul_one(a % modulus());
    vstd::arithmetic::div_mod::lemma_mul_mod_noop_right(1, a as int, modulus() as int);
}

/// Exponents add: `a^(x + y) == a^x * a^y`.
pub proof fn lemma_fpow_add(a: nat, x: nat, y: nat)
    ensures
        fpow(a, x + y) == fmul(fpow(a, x), fpow(a, y)),
    decreases y,
{
    if y == 0 {
        lemma_fpow_lt(a, x);
        lemma_mul_one(fpow(a, x));
    } else {
        lemma_fpow_add(a, x, (y - 1) as nat);
        assert(fpow(a, x + y) == fmul(fpow(a, (x + y - 1) as nat), a));
        assert((x + y - 1) as nat == x + (y - 1) as nat);
        lemma_mul_assoc(fpow(a, x), fpow(a, (y - 1) as nat), a);
    }
}

/// Powers are reduced.
pub proof fn lemma_fpow_lt(a: nat, x: nat)
    ensures
        fpow(a, x) < modulus(),
{
    if x > 0 {
        assert(fpow(a, x) == fmul(fpow(a, (x - 1) as nat), a));
    }
}

proof fn lemma_pow2_le(a: nat, b: nat)
    requires
        a <= b,
    ensures
        pow2(a) <= pow2(b),
    decreases b - a,
{
    if a < b {
        lemma_pow2_le(a, (b - 1) as nat);
        lemma_pow2_unfold(b);
        lemma_pow2_pos((b - 1) as nat);
    }
}

/// The product table has `2^n` entries.
pub proof fn lemma_hyper_prod_len(f: Seq<(nat, nat)>, s: nat)
    ensures
        hyper_prod(f, s).len() == pow2(f.len()),
    decreases f.len(),
{
    if f.len() == 0 {
        reveal(vstd::arithmetic::power::pow);
    } else {
        lemma_hyper_prod_len(f.drop_last(), s);
        lemma_pow2_unfold(f.len());
    }
}

/// Scaling the starting value scales every entry of the table.
pub proof fn lemma_hyper_prod_scale(f: Seq<(nat, nat)>, s: nat, k: nat, idx: int)
    requires
        0 <= idx < pow2(f.len()),
    ensures
        hyper_prod(f, fmul(s, k))[idx] == fmul(hyper_prod(f, s)[idx], k),
    decreases f.len(),
{
    lemma_hyper_prod_len(f, s);
    lemma_hyper_prod_len(f, fmul(s, k));
    if f.len() == 0 {
        reveal(vstd::arithmetic::power::pow);
    } else {
        let g = f.drop_last();
        let (b, c) = f.last();
        let h = pow2(g.len()) as int;
        lemma_pow2_unfold(f.len());
        lemma_hyper_prod_len(g, s);
        lemma_hyper_prod_len(g, fmul(s, k));
        if idx < h {
            lemma_hyper_prod_scale(g, s, k, idx);
            let x = hyper_prod(g, s)[idx];
            lemma_mul_assoc(x, k, c);
            lemma_mul_comm(k, c);
            lemma_mul_assoc(x, c, k);
        } else {
            lemma_hyper_prod_scale(g, s, k, idx - h);
            let x = hyper_prod(g, s)[idx - h];
            lemma_mul_assoc(x, k, b);
            lemma_mul_comm(k, b);
            lemma_mul_assoc(x, b, k);
        }
    }
}

/// The table built from flips equals the product table when every `c` is
/// invertible.
pub proof fn lemma_flip_table_is_hyper_prod(f: Seq<(nat, nat)>, s: nat, fl: Seq<nat>)
    requires
        fl.len() == f.len(),
        s < modulus(),
        forall|j: int| 0 <= j < f.len() ==> #[trigger] fmul(f[j].1, finv(f[j].1)) == 1,
        forall|j: int| 0 <= j < f.len() ==> f[j].1 < modulus() && f[j].0 < modulus(),
        forall|j: int| 0 <= j < f.len() ==> #[trigger] fl[j] == fmul(finv(f[j].1), f[j].0),
    ensures
        flip_table(fmul(s, fprod(f.map_values(|bc: (nat, nat)| bc.1))), fl) == hyper_prod(f, s),
    decreases f.len(),
{
    let cs = f.map_values(|bc: (nat, nat)| bc.1);
    let e = fmul(s, fprod(cs));
    lemma_flip_table_len(e, fl);
    lemma_hyper_prod_len(f, s);
    assert forall|idx: int| 0 <= idx < pow2(f.len()) implies #[trigger] flip_table(e, fl)[idx]
        == hyper_prod(f, s)[idx] by {
        lemma_flip_entry(f, s, fl, idx);
    }
    assert(flip_table(e, fl) =~= hyper_prod(f, s));
}

proof fn lemma_flip_table_len(e: nat, fl: Seq<nat>)
    ensures
        flip_table(e, fl).len() == pow2(fl.len()),
    decreases fl.len(),
{
    if fl.len() == 0 {
        reveal(vstd::arithmetic::power::pow);
    } else {
        lemma_flip_table_len(e, fl.drop_last());
        lemma_pow2_unfold(fl.len());
    }
}

proof fn lemma_flip_entry(f: Seq<(nat, nat)>, s: nat, fl: Seq<nat>, idx: int)
    requires
        fl.len() == f.len(),
        s < modulus(),
        forall|j: int| 0 <= j < f.len() ==> #[trigger] fmul(f[j].1, finv(f[j].1)) == 1,
        forall|j: int| 0 <= j < f.len() ==> f[j].1 < modulus() && f[j].0 < modulus(),
        forall|j: int| 0 <= j < f.len() ==> #[trigger] fl[j] == fmul(finv(f[j].1), f[j].0),
        0 <= idx < pow2(f.len()),
    ensures
        flip_table(fmul(s, fprod(f.map_values(|bc: (nat, nat)| bc.1))), fl)[idx] == hyper_prod(
            f,
            s,
        )[idx],
    decreases f.len(),
{
    let cs = f.map_values(|bc: (nat, nat)| bc.1);
    if f.len() == 0 {
        reveal(vstd::arithmetic::power::pow);
        assert(fprod(cs) == 1);
        lemma_mul_one(s % modulus());
        vstd::arithmetic::div_mod::lemma_mul_mod_noop_left(s as int, 1, modulus() as int);
        assert(fmul(s, 1) == s % modulus());
        lemma_small(s);
    } else {
        let g = f.drop_last();
        let gl = fl.drop_last();
        let (b, c) = f.last();
        let n = f.len();
        let h = pow2((n - 1) as nat) as int;
        lemma_pow2_unfold(n);
        let gcs = g.map_values(|bc: (nat, nat)| bc.1);
        assert(cs.drop_last() =~= gcs);
        let sc = fmul(s, c);
        // e = s * (C' * c) = (s * c) * C'
        lemma_mul_comm(fprod(gcs), c);
        lemma_mul_assoc(s, c, fprod(gcs));
        assert(fmul(s, fprod(cs)) == fmul(sc, fprod(gcs)));
        lemma_flip_table_len(fmul(sc, fprod(gcs)), gl);
        assert(fmul(f[n - 1].1, finv(f[n - 1].1)) == 1);
        assert(fl.last() == fl[n - 1]);
        lemma_hyper_prod_len(g, s);
        if idx < h {
            lemma_flip_entry(g, sc, gl, idx);
            lemma_hyper_prod_scale(g, s, c, idx);
        } else {
            lemma_flip_entry(g, sc, gl, idx - h);
            lemma_hyper_prod_scale(g, s, c, idx - h);
            let x = hyper_prod(g, s)[idx - h];
            // (x * c) * (c^-1 * b) == x * b
            lemma_finv_mul(c, b);
            lemma_mul_assoc(x, c, fl.last());
        }
    }
}

/// `c * (c^-1 * b) == b` for invertible `c`.
proof fn lemma_finv_mul(c: nat, b: nat)
    requires
        fmul(c, finv(c)) == 1,
        b < modulus(),
    ensures
        fmul(c, fmul(finv(c), b)) == b,
{
    let i = finv(c);
    lemma_mul_assoc(c, i, b);
    lemma_mul_one(b);
}

/// The index of a multilinear polynomial of a zerocheck: the zerocheck
/// polynomial itself, or one of the inner ones.
#[derive(Clone, Copy, PartialEq, Eq, Structural, Debug)]
pub enum ZeroCheckIdx<I> {
    ZeroCheckChallenge,
    Inner(I),
}

impl ZeroCheckIdx<usize> {
    /// The position in a flattened row: the zerocheck polynomial first, then
    /// the inner ones in order.
    pub fn position(&self) -> (r: usize)
        requires
            self matches ZeroCheckIdx::Inner(i) ==> i < usize::MAX,
        ensures
            r == match self {
                ZeroCheckIdx::ZeroCheckChallenge => 0,
                ZeroCheckIdx::Inner(i) => i + 1,
            },
    {
        match self {
            ZeroCheckIdx::ZeroCheckChallenge => 0,
            ZeroCheckIdx::Inner(i) => *i + 1,
        }
    }
}

/// The values of a zerocheck's multilinear polynomials: the zerocheck
/// polynomial's and the inner ones'.
pub struct ZeroCheckMles<V, I> {
    zerocheck: V,
    inner: I,
}

impl<V, I> ZeroCheckMles<V, I> {
    pub closed spec fn zerocheck_value(&self) -> V {
        self.zerocheck
    }

    pub closed spec fn inner_value(&self) -> I {
        self.inner
    }

    pub fn new(zerocheck: V, inner: I) -> (r: ZeroCheckMles<V, I>)
        ensures
            r.zerocheck_value() == zerocheck,
            r.inner_value() == inner,
    {
        ZeroCheckMles { zerocheck, inner }
    }

    /// Maps the zerocheck value with `f` and the inner values with `inner_f`.
    pub fn map<V2, I2, M1: Fn(V) -> V2, M2: Fn(I) -> I2>(self, f: M1, inner_f: M2) -> (r:
        ZeroCheckMles<V2, I2>)
        requires
            f.requires((self.zerocheck_value(),)),
            inner_f.requires((self.inner_value(),)),
        ensures
            f.ensures((self.zerocheck_value(),), r.zerocheck_value()),
            inner_f.ensures((self.inner_value(),), r.inner_value()),
    {
        let ZeroCheckMles { zerocheck, inner } = self;
        let zerocheck = f(zerocheck);
        let inner = inner_f(inner);
        ZeroCheckMles { zerocheck, inner }
    }

    pub fn inner(&self) -> (r: &I)
        ensures
            *r == self.inner_value(),
    {
        &self.inner
    }

    pub fn zerocheck(&self) -> (r: &V)
        ensures
            *r == self.zerocheck_value(),
    {
        &self.zerocheck
    }
}

impl ZeroCheckMles<Scalar, Vec<Scalar>> {
    /// The flattened row: the zerocheck value, then the inner values.
    pub fn flatten(self) -> (r: Vec<Scalar>)
        ensures
            r@ == seq![self.zerocheck_value()] + self.inner_value()@,
    {
        let ZeroCheckMles { zerocheck, inner } = self;
        let mut row: Vec<Scalar> = Vec::new();
        row.push(zerocheck);
        let mut j: usize = 0;
        while j < inner.len()
            invariant
                j <= inner@.len(),
                row@ == seq![zerocheck] + inner@.take(j as int),
            decreases inner@.len() - j,
        {
            row.push(inner[j]);
            proof {
                assert(row@ =~= seq![zerocheck] + inner@.take(j + 1));
            }
            j = j + 1;
        }
        proof {
            assert(inner@.take(j as int) =~= inner@);
        }
        row
    }
}

/// The nature of a polynomial of a zerocheck: the zerocheck polynomial, or
/// one of the inner function's.
#[derive(Clone, Copy, PartialEq, Eq, Structural, Debug)]
pub enum ZerocheckNature<I> {
    Zerocheck,
    Inner(I),
}

/// Where a polynomial of a zerocheck lives: the zerocheck polynomial in the
/// witness, an inner one where its own nature says.
pub fn zerocheck_location<I, L: Fn(I) -> EvalLocation>(nature: ZerocheckNature<I>, inner: L) -> (r:
    EvalLocation)
    requires
        nature matches ZerocheckNature::Inner(i) ==> inner.requires((i,)),
    ensures
        nature matches ZerocheckNature::Zerocheck ==> r == EvalLocation::Witness,
        nature matches ZerocheckNature::Inner(i) ==> inner.ensures((i,), r),
{
    match nature {
        ZerocheckNature::Zerocheck => EvalLocation::Witness,
        ZerocheckNature::Inner(i) => inner(i),
    }
}

/// A polynomial that should vanish over the hypercube.
pub struct ZeroCheck<V>(pub V);

/// A polynomial whose sum over the hypercube should be zero.
pub struct ZeroSumcheck<V>(pub V);

/// Index types that provide the polynomial `eq(x, b)` for a random `b`:
/// multiplying a polynomial by it and checking that the sum is zero checks
/// that the polynomial vanishes.
pub trait ZeroCheckAvailable: Sized {
    spec fn zerocheck_index() -> Self;

    fn zerocheck_eq() -> (r: Self)
        ensures
            r == Self::zerocheck_index(),
    ;
}

/// Plain indices keep the zerocheck polynomial first.
impl ZeroCheckAvailable for usize {
    open spec fn zerocheck_index() -> usize {
        0
    }

    fn zerocheck_eq() -> (r: usize) {
        0
    }
}

/// Turns a zerocheck into a zero-sumcheck: the polynomial times `eq(x, b)`,
/// taken from the environment at the zerocheck index.
pub fn zero_check<V: Var, E: Env<V>>(env: &E, check: ZeroCheck<V>) -> (r: ZeroSumcheck<V>)
    requires
        env.env_wf(),
        0 < env.mle_count(),
        check.0.values().len() == env.points(),
    ensures
        r.0.values() == Seq::new(
            env.points(),
            |x: int| fmul(check.0.values()[x], env.row(x)[0]),
        ),
{
    let idx = usize::zerocheck_eq();
    let eq = env.get(idx);
    ZeroSumcheck(check.0.var_mul(&eq))
}

} // verus!
