//! Barycentric evaluation of polynomials given by their evaluations over the
//! implicit domain `0..=d`, without interpolating them.
//!
//! The weights cost `O(d^2)` once per domain; an evaluation at an arbitrary
//! point costs `O(d)`.
use crate::algebra::{dot, fprod, fsum, lemma_fsum_scale, views};
use crate::field::{
    batch_inversion, fadd, finv, fmul, fneg, group_field, lemma_mul_assoc, lemma_mul_comm, modulus,
    Scalar,
};
use vstd::arithmetic::div_mod::{lemma_mod_bound, lemma_small_mod};
use vstd::prelude::*;

verus! {

broadcast use group_field;

/// `x - j`, written as `-j + x`, the order in which the weights are computed.
pub open spec fn term(j: nat, x: nat) -> nat {
    fadd(fneg(j), x)
}

/// The weight of domain point `i`: `prod_{j != i} (i - j)`.
pub open spec fn weight(d: nat, i: nat) -> nat {
    fprod(weight_factors(d, i))
}

/// The factors of the weight of `i`: `i - j` for `j != i`, one for `j == i`.
pub open spec fn weight_factors(d: nat, i: nat) -> Seq<nat> {
    Seq::new(d + 1, |j: int| if i == j { 1nat } else { term(j as nat, i) })
}

pub open spec fn spec_weights(d: nat) -> Seq<nat> {
    Seq::new(d + 1, |i: int| weight(d, i as nat))
}

/// `prod_j (x - j)`.
pub open spec fn vanishing(d: nat, x: nat) -> nat {
    fprod(Seq::new(d + 1, |j: int| term(j as nat, x)))
}

/// The value at `x` outside the domain: `m(x) * sum_i e_i / ((x - i) w_i)`.
pub open spec fn bary_sum(d: nat, evals: Seq<nat>, x: nat) -> nat {
    fmul(
        vanishing(d, x),
        fsum(
            Seq::new(
                d + 1,
                |i: int| fmul(finv(fmul(term(i as nat, x), weight(d, i as nat))), evals[i]),
            ),
        ),
    )
}

/// The barycentric evaluation at `x` (reduced): the given evaluation on the
/// domain, the barycentric formula elsewhere.
pub open spec fn bary_eval(d: nat, evals: Seq<nat>, x: nat) -> nat {
    if x <= d {
        evals[x as int]
    } else {
        bary_sum(d, evals, x)
    }
}

/// The coefficients giving the value at `d + 1` as a linear combination.
pub open spec fn spec_ext_coeffs(d: nat) -> Seq<nat> {
    Seq::new(
        d + 1,
        |i: int|
            fmul(finv(fmul(term(i as nat, d + 1), weight(d, i as nat))), vanishing(d, d + 1)),
    )
}

/// Weights for the evaluation of polynomials given by their values over `0..=d`.
#[derive(Clone)]
pub struct BarycentricWeights {
    weights: Vec<Scalar>,
    neg_domain: Vec<Scalar>,
    ext_coeffs: Vec<Scalar>,
}

impl BarycentricWeights {
    /// The degree `d` the weights are for.
    pub closed spec fn degree(&self) -> nat {
        (self.weights@.len() - 1) as nat
    }

    /// The number of domain points held.
    pub closed spec fn domain_len(&self) -> nat {
        self.weights@.len()
    }

    pub closed spec fn wf(&self) -> bool {
        &&& self.weights@.len() >= 1
        &&& self.degree() < modulus()
        &&& views(self.weights@) == spec_weights(self.degree())
        &&& views(self.neg_domain@) == Seq::new(self.degree() + 1, |j: int| fneg(j as nat))
        &&& views(self.ext_coeffs@) == spec_ext_coeffs(self.degree())
    }

    /// Computes the weights for the domain `0..=degree`.
    pub fn compute(degree: u32) -> (r: BarycentricWeights)
        requires
            degree < u32::MAX,
        ensures
            r.wf(),
            r.degree() == degree,
    {
        let n: usize = degree as usize + 1;
        let ghost d = degree as nat;
        let mut domain: Vec<Scalar> = Vec::new();
        let mut neg_domain: Vec<Scalar> = Vec::new();
        let mut i: usize = 0;
        while i < n
            invariant
                n == d + 1,
                d <= u32::MAX,
                i <= n,
                domain@.len() == i,
                neg_domain@.len() == i,
                forall|j: int| 0 <= j < i ==> #[trigger] domain@[j]@ == j,
                forall|j: int| 0 <= j < i ==> #[trigger] neg_domain@[j]@ == fneg(j as nat),
            decreases n - i,
        {
            let x = Scalar::from_u64(i as u64);
            domain.push(x);
            neg_domain.push(x.neg());
            i = i + 1;
        }
        let mut weights: Vec<Scalar> = Vec::new();
        let mut i: usize = 0;
        while i < n
            invariant
                n == d + 1,
                d <= u32::MAX,
                i <= n,
                domain@.len() == n,
                neg_domain@.len() == n,
                forall|j: int| 0 <= j < n ==> #[trigger] domain@[j]@ == j,
                forall|j: int| 0 <= j < n ==> #[trigger] neg_domain@[j]@ == fneg(j as nat),
                weights@.len() == i,
                forall|j: int| 0 <= j < i ==> #[trigger] weights@[j]@ == weight(d, j as nat),
            decreases n - i,
        {
            let x = domain[i];
            let mut acc = Scalar::one();
            let mut j: usize = 0;
            let ghost f = |k: int| if i == k { 1nat } else { term(k as nat, i as nat) };
            while j < n
                invariant
                    n == d + 1,
                    i < n,
                    x@ == i,
                    neg_domain@.len() == n,
                    forall|k: int| 0 <= k < n ==> #[trigger] neg_domain@[k]@ == fneg(k as nat),
                    j <= n,
                    f == (|k: int| if i == k { 1nat } else { term(k as nat, i as nat) }),
                    acc@ == fprod(Seq::new(j as nat, f)),
                decreases n - j,
            {
                let factor = if i == j {
                    Scalar::one()
                } else {
                    neg_domain[j].add(&x)
                };
                acc = acc.mul(&factor);
                proof {
                    assert(Seq::new((j + 1) as nat, f).drop_last() =~= Seq::new(j as nat, f));
                }
                j = j + 1;
            }
            proof {
                assert(Seq::new(n as nat, f) =~= weight_factors(d, i as nat));
            }
            let ghost before = weights@;
            weights.push(acc);
            proof {
                assert forall|j: int| 0 <= j < i + 1 implies #[trigger] weights@[j]@ == weight(
                    d,
                    j as nat,
                ) by {
                    if j < i {
                        assert(weights@[j] == before[j]);
                    }
                }
            }
            i = i + 1;
        }
        // Coefficients for the constant point `degree + 1`, outside the domain.
        let ext_point = Scalar::from_u64(degree as u64 + 1);
        let mut vanishing_factors: Vec<Scalar> = Vec::new();
        let mut vanishing_eval = Scalar::one();
        let ghost vf = |k: int| term(k as nat, d + 1);
        let mut j: usize = 0;
        while j < n
            invariant
                n == d + 1,
                ext_point@ == d + 1,
                neg_domain@.len() == n,
                forall|k: int| 0 <= k < n ==> #[trigger] neg_domain@[k]@ == fneg(k as nat),
                j <= n,
                vf == (|k: int| term(k as nat, d + 1)),
                vanishing_factors@.len() == j,
                forall|k: int| 0 <= k < j ==> #[trigger] vanishing_factors@[k]@ == vf(k),
                vanishing_eval@ == fprod(Seq::new(j as nat, vf)),
            decreases n - j,
        {
            let t = neg_domain[j].add(&ext_point);
            vanishing_factors.push(t);
            vanishing_eval = vanishing_eval.mul(&t);
            proof {
                assert(Seq::new((j + 1) as nat, vf).drop_last() =~= Seq::new(j as nat, vf));
            }
            j = j + 1;
        }
        proof {
            assert(Seq::new(n as nat, vf) =~= Seq::new(d + 1, |k: int| term(k as nat, d + 1)));
            assert forall|k: int| 0 <= k < n implies #[trigger] vanishing_factors@[k]@ == term(
                k as nat,
                d + 1,
            ) by {
                assert(vanishing_factors@[k]@ == vf(k));
            }
        }
        let mut ext_coeffs: Vec<Scalar> = Vec::new();
        let mut j: usize = 0;
        while j < n
            invariant
                n == d + 1,
                j <= n,
                vanishing_factors@.len() == n,
                weights@.len() == n,
                forall|k: int|
                    0 <= k < n ==> #[trigger] vanishing_factors@[k]@ == term(k as nat, d + 1),
                forall|k: int| 0 <= k < n ==> #[trigger] weights@[k]@ == weight(d, k as nat),
                ext_coeffs@.len() == j,
                forall|k: int|
                    0 <= k < j ==> #[trigger] ext_coeffs@[k]@ == fmul(
                        term(k as nat, d + 1),
                        weight(d, k as nat),
                    ),
            decreases n - j,
        {
            ext_coeffs.push(vanishing_factors[j].mul(&weights[j]));
            j = j + 1;
        }
        let ghost before = ext_coeffs@;
        batch_inversion(&mut ext_coeffs);
        let mut j: usize = 0;
        while j < n
            invariant
                n == d + 1,
                j <= n,
                ext_coeffs@.len() == n,
                before.len() == n,
                vanishing_eval@ == vanishing(d, d + 1),
                forall|k: int|
                    0 <= k < n ==> #[trigger] before[k]@ == fmul(
                        term(k as nat, d + 1),
                        weight(d, k as nat),
                    ),
                forall|k: int|
                    0 <= k < j ==> #[trigger] ext_coeffs@[k]@ == spec_ext_coeffs(d)[k],
                forall|k: int| j <= k < n ==> #[trigger] ext_coeffs@[k]@ == finv(before[k]@),
            decreases n - j,
        {
            let c = ext_coeffs[j].mul(&vanishing_eval);
            let ghost prev = ext_coeffs@;
            ext_coeffs.set(j, c);
            proof {
                assert forall|k: int| 0 <= k < n && k != j implies #[trigger] ext_coeffs@[k]
                    == prev[k] by {}
            }
            j = j + 1;
        }
        let r = BarycentricWeights { weights, neg_domain, ext_coeffs };
        proof {
            assert(views(r.weights@) =~= spec_weights(d));
            assert(views(r.neg_domain@) =~= Seq::new(d + 1, |j: int| fneg(j as nat)));
            assert(views(r.ext_coeffs@) =~= spec_ext_coeffs(d));
        }
        r
    }

    /// Evaluates at `point` the polynomial of degree `d` with the given values over
    /// the domain.
    pub fn evaluate(&self, evals: &Vec<Scalar>, point: &Scalar) -> (r: Scalar)
        requires
            self.wf(),
            evals@.len() == self.degree() + 1,
        ensures
            r@ == bary_eval(self.degree(), views(evals@), point@),
    {
        let n = self.weights.len();
        let ghost d = self.degree();
        proof {
            assert(views(self.weights@).len() == n);
            assert(views(self.neg_domain@).len() == self.neg_domain@.len());
            assert(self.neg_domain@.len() == n);
            assert forall|j: int| 0 <= j < n implies #[trigger] self.neg_domain@[j]@ == fneg(
                j as nat,
            ) by {
                assert(views(self.neg_domain@)[j] == fneg(j as nat));
            }
            assert forall|j: int| 0 <= j < n implies #[trigger] self.weights@[j]@ == weight(
                d,
                j as nat,
            ) by {
                assert(views(self.weights@)[j] == weight(d, j as nat));
            }
        }
        let mut terms: Vec<Scalar> = Vec::new();
        let mut i: usize = 0;
        while i < n
            invariant
                n == d + 1,
                self.neg_domain@.len() == n,
                forall|j: int| 0 <= j < n ==> #[trigger] self.neg_domain@[j]@ == fneg(j as nat),
                i <= n,
                terms@.len() == i,
                forall|j: int| 0 <= j < i ==> #[trigger] terms@[j]@ == term(j as nat, point@),
            decreases n - i,
        {
            terms.push(self.neg_domain[i].add(point));
            i = i + 1;
        }
        // A point of the domain: its value is given.
        let mut i: usize = 0;
        while i < n
            invariant
                n == d + 1,
                d == self.degree(),
                d < modulus(),
                i <= n,
                terms@.len() == n,
                evals@.len() == n,
                forall|j: int| 0 <= j < n ==> #[trigger] terms@[j]@ == term(j as nat, point@),
                forall|j: int| 0 <= j < i ==> #[trigger] terms@[j]@ != 0,
            decreases n - i,
        {
            if terms[i].is_zero() {
                proof {
                    lemma_term_zero(i as nat, point@);
                    assert(point@ == i);
                    assert(views(evals@)[i as int] == evals@[i as int]@);
                    assert(bary_eval(d, views(evals@), point@) == views(evals@)[i as int]);
                }
                return evals[i];
            }
            i = i + 1;
        }
        proof {
            if point@ <= d {
                lemma_term_zero(point@, point@);
                assert(terms@[point@ as int]@ == term(point@, point@));
            }
        }
        let mut m = Scalar::one();
        let ghost tf = |j: int| term(j as nat, point@);
        let mut i: usize = 0;
        while i < n
            invariant
                n == d + 1,
                i <= n,
                terms@.len() == n,
                forall|j: int| 0 <= j < n ==> #[trigger] terms@[j]@ == term(j as nat, point@),
                tf == (|j: int| term(j as nat, point@)),
                m@ == fprod(Seq::new(i as nat, tf)),
            decreases n - i,
        {
            m = m.mul(&terms[i]);
            proof {
                assert(Seq::new((i + 1) as nat, tf).drop_last() =~= Seq::new(i as nat, tf));
            }
            i = i + 1;
        }
        let mut denominators = terms;
        let mut i: usize = 0;
        while i < n
            invariant
                n == d + 1,
                self.weights@.len() == n,
                forall|j: int| 0 <= j < n ==> #[trigger] self.weights@[j]@ == weight(d, j as nat),
                i <= n,
                denominators@.len() == n,
                forall|j: int|
                    0 <= j < i ==> #[trigger] denominators@[j]@ == fmul(
                        term(j as nat, point@),
                        weight(d, j as nat),
                    ),
                forall|j: int| i <= j < n ==> #[trigger] denominators@[j]@ == term(j as nat, point@),
            decreases n - i,
        {
            let v = denominators[i].mul(&self.weights[i]);
            let ghost prev = denominators@;
            denominators.set(i, v);
            proof {
                assert forall|j: int| 0 <= j < n && j != i implies #[trigger] denominators@[j]
                    == prev[j] by {}
            }
            i = i + 1;
        }
        let ghost before = denominators@;
        batch_inversion(&mut denominators);
        let mut acc = Scalar::zero();
        let ghost sf = |j: int| fmul(finv(fmul(term(j as nat, point@), weight(d, j as nat))), views(evals@)[j]);
        let mut i: usize = 0;
        while i < n
            invariant
                n == d + 1,
                i <= n,
                denominators@.len() == n,
                evals@.len() == n,
                forall|j: int|
                    0 <= j < n ==> #[trigger] denominators@[j]@ == finv(
                        fmul(term(j as nat, point@), weight(d, j as nat)),
                    ),
                sf == (|j: int| fmul(finv(fmul(term(j as nat, point@), weight(d, j as nat))), views(evals@)[j])),
                acc@ == fsum(Seq::new(i as nat, sf)),
            decreases n - i,
        {
            acc = acc.add(&denominators[i].mul(&evals[i]));
            proof {
                assert(Seq::new((i + 1) as nat, sf).drop_last() =~= Seq::new(i as nat, sf));
            }
            i = i + 1;
        }
        m.mul(&acc)
    }

    /// Number of evaluation points in the domain, `d + 1`.
    pub fn domain_size(&self) -> (r: usize)
        ensures
            r == self.domain_len(),
            self.wf() ==> r == self.degree() + 1,
    {
        self.weights.len()
    }

    /// The value at `d + 1` of the polynomial with the given values over the domain.
    pub fn extend(&self, evals: &Vec<Scalar>) -> (r: Scalar)
        requires
            self.wf(),
            evals@.len() == self.degree() + 1,
        ensures
            r@ == dot(spec_ext_coeffs(self.degree()), views(evals@)),
            r@ == bary_eval(self.degree(), views(evals@), self.degree() + 1),
    {
        let n = self.ext_coeffs.len();
        let ghost d = self.degree();
        let ghost c = spec_ext_coeffs(d);
        let ghost e = views(evals@);
        let ghost f = |j: int| fmul(c[j], e[j]);
        let mut acc = Scalar::zero();
        let mut i: usize = 0;
        proof {
            assert(views(self.ext_coeffs@).len() == n);
            assert forall|j: int| 0 <= j < n implies #[trigger] self.ext_coeffs@[j]@ == c[j] by {
                assert(views(self.ext_coeffs@)[j] == c[j]);
            }
        }
        while i < n
            invariant
                n == d + 1,
                self.ext_coeffs@.len() == n,
                forall|j: int| 0 <= j < n ==> #[trigger] self.ext_coeffs@[j]@ == c[j],
                c == spec_ext_coeffs(d),
                e == views(evals@),
                evals@.len() == n,
                i <= n,
                f == (|j: int| fmul(c[j], e[j])),
                acc@ == fsum(Seq::new(i as nat, f)),
            decreases n - i,
        {
            acc = acc.add(&self.ext_coeffs[i].mul(&evals[i]));
            proof {
                assert(Seq::new((i + 1) as nat, f).drop_last() =~= Seq::new(i as nat, f));
            }
            i = i + 1;
        }
        proof {
            assert(Seq::new(n as nat, f) =~= Seq::new(c.len(), f));
            lemma_extend_is_evaluate(d, e);
        }
        acc
    }
}

/// `x - j` is zero exactly when `x == j`, for values below the modulus.
proof fn lemma_term_zero(j: nat, x: nat)
    requires
        j < modulus(),
        x < modulus(),
    ensures
        (term(j, x) == 0) <==> (x == j),
{
    let m = modulus() as int;
    lemma_mod_bound(0 - j, m);
    crate::field::lemma_sub_as_add_neg(x, j);
    crate::field::lemma_add_comm(x, fneg(j));
    lemma_small_mod(0, modulus());
    if x >= j {
        lemma_small_mod((x - j) as nat, modulus());
    } else {
        vstd::arithmetic::div_mod::lemma_mod_add_multiples_vanish(x - j, m);
        lemma_small_mod((x - j + m) as nat, modulus());
    }
}

/// The extension coefficients give the barycentric value at `d + 1`.
pub proof fn lemma_extend_is_evaluate(d: nat, e: Seq<nat>)
    requires
        d + 1 < modulus(),
        e.len() == d + 1,
    ensures
        dot(spec_ext_coeffs(d), e) == bary_eval(d, e, d + 1),
{
    let c = spec_ext_coeffs(d);
    let v = vanishing(d, d + 1);
    let a = Seq::new(d + 1, |i: int| fmul(finv(fmul(term(i as nat, d + 1), weight(d, i as nat))), e[i]));
    let lhs = Seq::new(c.len(), |i: int| fmul(c[i], e[i]));
    assert forall|i: int| 0 <= i < lhs.len() implies #[trigger] lhs[i] == fmul(v, a[i]) by {
        let inv = finv(fmul(term(i as nat, d + 1), weight(d, i as nat)));
        lemma_mul_comm(inv, v);
        lemma_mul_assoc(v, inv, e[i]);
    }
    lemma_fsum_scale(a, v, lhs);
}

} // verus!
