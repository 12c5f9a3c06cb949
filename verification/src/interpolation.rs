//! Polynomials over the field by their coefficients, and why evaluating
//! from values over `0..=d` is exact: a polynomial of degree at most `d`
//! is determined by its values there.
use crate::algebra::{fprod, fsum, lemma_add_swap, lemma_fprod_lt, lemma_fsum_lt};
use crate::barycentric::{bary_eval, bary_sum, term, vanishing, weight, weight_factors};
use crate::field::{
    fadd, fmul, fsub, group_field, is_inverse, lemma_add_assoc, lemma_add_comm, lemma_add_zero,
    lemma_distrib, lemma_distrib_sub, lemma_fsub_lt, lemma_fsub_nonzero, lemma_mul_assoc,
    lemma_mul_cancel, lemma_mul_comm, lemma_mul_one, lemma_mul_zero, lemma_small,
    lemma_sub_cancel_left, lemma_sub_telescope, lemma_sub_zero, modulus,
};
use vstd::prelude::*;

verus! {

broadcast use group_field;

/// The first coefficient, zero for the empty polynomial.
pub open spec fn head(c: Seq<nat>) -> nat {
    if c.len() == 0 {
        0
    } else {
        c[0]
    }
}

/// The coefficients after the first.
pub open spec fn tail(c: Seq<nat>) -> Seq<nat> {
    if c.len() == 0 {
        c
    } else {
        c.skip(1)
    }
}

/// The value at `x` of the polynomial with coefficients `c`, lowest first
/// (Horner's rule).
pub open spec fn peval(c: Seq<nat>, x: nat) -> nat
    decreases c.len(),
{
    if c.len() == 0 {
        0
    } else {
        fadd(c[0], fmul(x, peval(c.skip(1), x)))
    }
}

/// The coefficient of degree `k`, zero beyond the end.
pub open spec fn coeff(c: Seq<nat>, k: int) -> nat {
    if 0 <= k < c.len() {
        c[k]
    } else {
        0
    }
}

pub open spec fn padd(a: Seq<nat>, b: Seq<nat>) -> Seq<nat> {
    Seq::new(
        if a.len() >= b.len() {
            a.len()
        } else {
            b.len()
        },
        |k: int| fadd(coeff(a, k), coeff(b, k)),
    )
}

pub open spec fn pscale(a: Seq<nat>, k: nat) -> Seq<nat> {
    Seq::new(a.len(), |i: int| fmul(a[i], k))
}

/// The polynomial times `x`.
pub open spec fn shift(a: Seq<nat>) -> Seq<nat> {
    seq![0nat] + a
}

pub open spec fn pmul(a: Seq<nat>, b: Seq<nat>) -> Seq<nat>
    decreases a.len(),
{
    if a.len() == 0 {
        seq![]
    } else {
        padd(pscale(b, a[0]), shift(pmul(a.skip(1), b)))
    }
}

/// Values are reduced.
pub proof fn lemma_peval_lt(c: Seq<nat>, x: nat)
    ensures
        peval(c, x) < modulus(),
    decreases c.len(),
{
    if c.len() > 0 {
        lemma_peval_lt(c.skip(1), x);
    }
}

/// Horner's rule holds of every polynomial, the empty one included.
pub proof fn lemma_peval_unfold(c: Seq<nat>, x: nat)
    ensures
        peval(c, x) == fadd(head(c), fmul(x, peval(tail(c), x))),
{
    if c.len() == 0 {
        lemma_mul_zero(x);
        lemma_small(0);
    }
}

/// Evaluation of a sum of polynomials.
pub proof fn lemma_padd(a: Seq<nat>, b: Seq<nat>, x: nat)
    ensures
        peval(padd(a, b), x) == fadd(peval(a, x), peval(b, x)),
    decreases a.len() + b.len(),
{
    let s = padd(a, b);
    if s.len() == 0 {
        lemma_small(0);
    } else {
        assert(tail(s) =~= padd(tail(a), tail(b)));
        lemma_padd(tail(a), tail(b), x);
        lemma_peval_unfold(s, x);
        lemma_peval_unfold(a, x);
        lemma_peval_unfold(b, x);
        let pa = peval(tail(a), x);
        let pb = peval(tail(b), x);
        lemma_distrib(x, pa, pb);
        lemma_add_swap(head(a), head(b), fmul(x, pa), fmul(x, pb));
        assert(head(s) == fadd(head(a), head(b)));
    }
}

/// Evaluation of a scaled polynomial.
pub proof fn lemma_pscale(a: Seq<nat>, k: nat, x: nat)
    ensures
        peval(pscale(a, k), x) == fmul(peval(a, x), k),
    decreases a.len(),
{
    if a.len() == 0 {
        lemma_mul_zero(k);
    } else {
        assert(pscale(a, k).skip(1) =~= pscale(a.skip(1), k));
        lemma_pscale(a.skip(1), k, x);
        let p = peval(a.skip(1), x);
        // (a0 + x p) k = a0 k + x (p k)
        lemma_mul_comm(fadd(a[0], fmul(x, p)), k);
        lemma_distrib(k, a[0], fmul(x, p));
        lemma_mul_comm(k, a[0]);
        lemma_mul_comm(k, fmul(x, p));
        lemma_mul_assoc(x, p, k);
    }
}

/// Evaluation of a polynomial times `x`.
pub proof fn lemma_shift(a: Seq<nat>, x: nat)
    ensures
        peval(shift(a), x) == fmul(x, peval(a, x)),
{
    assert(shift(a).skip(1) =~= a);
    lemma_add_comm(0, fmul(x, peval(a, x)));
    lemma_add_zero(fmul(x, peval(a, x)));
}

/// Evaluation of a product of polynomials.
pub proof fn lemma_pmul(a: Seq<nat>, b: Seq<nat>, x: nat)
    ensures
        peval(pmul(a, b), x) == fmul(peval(a, x), peval(b, x)),
    decreases a.len(),
{
    if a.len() == 0 {
        lemma_mul_zero(peval(b, x));
    } else {
        let a0 = a[0];
        let ta = a.skip(1);
        let pb = peval(b, x);
        let pta = peval(ta, x);
        lemma_pmul(ta, b, x);
        lemma_padd(pscale(b, a0), shift(pmul(ta, b)), x);
        lemma_pscale(b, a0, x);
        lemma_shift(pmul(ta, b), x);
        // b a0 + x (ta b) = (a0 + x ta) b
        lemma_mul_assoc(x, pta, pb);
        lemma_mul_comm(fadd(a0, fmul(x, pta)), pb);
        lemma_distrib(pb, a0, fmul(x, pta));
        lemma_mul_comm(pb, a0);
        lemma_mul_comm(a0, pb);
        lemma_mul_comm(pb, fmul(x, pta));
    }
}

pub open spec fn psub(a: Seq<nat>, b: Seq<nat>) -> Seq<nat> {
    Seq::new(
        if a.len() >= b.len() {
            a.len()
        } else {
            b.len()
        },
        |k: int| fsub(coeff(a, k), coeff(b, k)),
    )
}

/// Evaluation of a difference of polynomials.
pub proof fn lemma_psub(a: Seq<nat>, b: Seq<nat>, x: nat)
    ensures
        peval(psub(a, b), x) == fsub(peval(a, x), peval(b, x)),
    decreases a.len() + b.len(),
{
    let s = psub(a, b);
    if s.len() == 0 {
        lemma_sub_zero(0);
    } else {
        assert(tail(s) =~= psub(tail(a), tail(b)));
        lemma_psub(tail(a), tail(b), x);
        lemma_peval_unfold(s, x);
        lemma_peval_unfold(a, x);
        lemma_peval_unfold(b, x);
        let pa = peval(tail(a), x);
        let pb = peval(tail(b), x);
        lemma_distrib_sub(x, pa, pb);
        lemma_sub_swap(head(a), head(b), fmul(x, pa), fmul(x, pb));
        assert(head(s) == fsub(head(a), head(b)));
    }
}

/// `(a - b) + (c - d) == (a + c) - (b + d)`.
proof fn lemma_sub_swap(a: nat, b: nat, c: nat, d: nat)
    ensures
        fadd(fsub(a, b), fsub(c, d)) == fsub(fadd(a, c), fadd(b, d)),
{
    let m = modulus() as int;
    let (x, y, z, w) = (a as int, b as int, c as int, d as int);
    vstd::arithmetic::div_mod::lemma_mod_bound(x - y, m);
    vstd::arithmetic::div_mod::lemma_mod_bound(z - w, m);
    vstd::arithmetic::div_mod::lemma_add_mod_noop(x - y, z - w, m);
    vstd::arithmetic::div_mod::lemma_sub_mod_noop(x + z, y + w, m);
    vstd::arithmetic::div_mod::lemma_mod_bound(x + z, m);
    vstd::arithmetic::div_mod::lemma_mod_bound(y + w, m);
    assert((x - y) + (z - w) == (x + z) - (y + w));
}

/// The quotient of the division by `x - a` (synthetic division).
pub open spec fn pdiv(c: Seq<nat>, a: nat) -> Seq<nat>
    decreases c.len(),
{
    if c.len() <= 1 {
        seq![]
    } else {
        seq![peval(c.skip(1), a)] + pdiv(c.skip(1), a)
    }
}

/// `c(x) - c(a) == (x - a) * q(x)` for the quotient `q` of `c` by `x - a`.
pub proof fn lemma_pdiv(c: Seq<nat>, a: nat, x: nat)
    requires
        c.len() >= 1,
    ensures
        fsub(peval(c, x), peval(c, a)) == fmul(fsub(x, a), peval(pdiv(c, a), x)),
        pdiv(c, a).len() == c.len() - 1,
    decreases c.len(),
{
    let c0 = c[0];
    let t = c.skip(1);
    if c.len() == 1 {
        assert(t.len() == 0);
        lemma_mul_zero(x);
        lemma_mul_zero(a);
        lemma_mul_zero(fsub(x, a));
        crate::field::lemma_sub_as_add_neg(fadd(c0, 0), fadd(c0, 0));
        lemma_sub_cancel_left(c0, 0, 0);
        lemma_sub_zero(0);
    } else {
        lemma_pdiv(t, a, x);
        let pa = peval(t, x);
        let pb = peval(t, a);
        let q = pdiv(t, a);
        let pq = peval(q, x);
        let xa = fsub(x, a);
        // c(x) - c(a) = x pa - a pb
        lemma_sub_cancel_left(c0, fmul(x, pa), fmul(a, pb));
        // peval(pdiv(c, a)) = pb + x pq
        assert((seq![pb] + q).skip(1) =~= q);
        assert(pdiv(c, a) == seq![pb] + q);
        // (x - a)(pb + x pq) = (x - a) pb + x ((x - a) pq) = (x pb - a pb) + (x pa - x pb)
        lemma_distrib(xa, pb, fmul(x, pq));
        lemma_mul_comm(xa, pb);
        lemma_distrib_sub(pb, x, a);
        lemma_mul_comm(pb, x);
        lemma_mul_comm(pb, a);
        lemma_mul_assoc(xa, x, pq);
        lemma_mul_comm(xa, x);
        lemma_mul_assoc(x, xa, pq);
        lemma_distrib_sub(x, pa, pb);
        lemma_sub_telescope(fmul(x, pa), fmul(x, pb), fmul(a, pb));
    }
}

/// `a` has an inverse.
pub open spec fn has_inverse(a: nat) -> bool {
    exists|b: nat| is_inverse(a, b)
}

/// Every non-zero value has an inverse: the modulus is prime. The lemmas
/// that need it take it as a hypothesis; it is not proved in this crate,
/// which would take a primality certificate for the 255-bit modulus.
pub open spec fn nonzero_invertible() -> bool {
    forall|a: nat| 0 < a < modulus() ==> #[trigger] has_inverse(a)
}

/// Distinct values below the modulus.
pub open spec fn distinct_points(pts: Seq<nat>) -> bool {
    &&& forall|k: int| 0 <= k < pts.len() ==> #[trigger] pts[k] < modulus()
    &&& forall|k: int, l: int| 0 <= k < l < pts.len() ==> #[trigger] pts[k] != #[trigger] pts[l]
}

/// A polynomial with fewer coefficients than it has roots among distinct
/// points vanishes everywhere.
pub proof fn lemma_roots(c: Seq<nat>, pts: Seq<nat>, x: nat)
    requires
        nonzero_invertible(),
        c.len() <= pts.len(),
        distinct_points(pts),
        forall|k: int| 0 <= k < pts.len() ==> #[trigger] peval(c, pts[k]) == 0,
    ensures
        peval(c, x) == 0,
    decreases pts.len(),
{
    if c.len() == 0 {
    } else {
        let n = pts.len();
        let a = pts[n - 1];
        let q = pdiv(c, a);
        lemma_pdiv(c, a, x);
        let rest = pts.drop_last();
        assert forall|k: int| 0 <= k < rest.len() implies #[trigger] peval(q, rest[k]) == 0 by {
            let y = rest[k];
            assert(y == pts[k]);
            lemma_pdiv(c, a, y);
            assert(peval(c, y) == 0);
            assert(peval(c, a) == 0);
            lemma_sub_zero(0);
            lemma_fsub_lt(y, a);
            lemma_fsub_nonzero(y, a);
            let u = fsub(y, a);
            assert(has_inverse(u));
            let w = choose|w: nat| is_inverse(u, w);
            lemma_mul_cancel(u, peval(q, y), w);
            lemma_peval_lt(q, y);
            lemma_small(peval(q, y));
        }
        assert(distinct_points(rest)) by {
            assert forall|k: int, l: int| 0 <= k < l < rest.len() implies #[trigger] rest[k]
                != #[trigger] rest[l] by {
                assert(rest[k] == pts[k] && rest[l] == pts[l]);
            }
        }
        lemma_roots(q, rest, x);
        lemma_peval_lt(c, x);
        crate::field::lemma_sub_zero(peval(c, x));
        lemma_mul_zero(fsub(x, a));
    }
}

/// The constant polynomial one.
proof fn lemma_peval_one(x: nat)
    ensures
        peval(seq![1nat], x) == 1,
{
    assert(seq![1nat].skip(1).len() == 0);
    assert(peval(seq![1nat].skip(1), x) == 0);
    lemma_mul_zero(x);
    lemma_small(1);
}

/// The degree of a product is at most the sum of the degrees.
pub proof fn lemma_pmul_len(a: Seq<nat>, b: Seq<nat>)
    requires
        a.len() >= 1,
        b.len() >= 1,
    ensures
        1 <= pmul(a, b).len() <= a.len() + b.len() - 1,
    decreases a.len(),
{
    let rest = pmul(a.skip(1), b);
    if a.len() > 1 {
        lemma_pmul_len(a.skip(1), b);
    } else {
        assert(rest.len() == 0);
    }
    assert(shift(rest).len() == rest.len() + 1);
    assert(pscale(b, a[0]).len() == b.len());
}

/// The product of the polynomials.
pub open spec fn pprod(ps: Seq<Seq<nat>>) -> Seq<nat>
    decreases ps.len(),
{
    if ps.len() == 0 {
        seq![1]
    } else {
        pmul(pprod(ps.drop_last()), ps.last())
    }
}

/// The bound on the length of a product: one more than the sum of the
/// factors' degrees.
pub open spec fn degree_sum(ps: Seq<Seq<nat>>) -> nat
    decreases ps.len(),
{
    if ps.len() == 0 {
        0
    } else {
        degree_sum(ps.drop_last()) + (ps.last().len() - 1) as nat
    }
}

/// Evaluation of a product of many polynomials.
pub proof fn lemma_pprod(ps: Seq<Seq<nat>>, x: nat)
    ensures
        peval(pprod(ps), x) == fprod(Seq::new(ps.len(), |k: int| peval(ps[k], x))),
    decreases ps.len(),
{
    if ps.len() == 0 {
        lemma_peval_one(x);
    } else {
        lemma_pprod(ps.drop_last(), x);
        lemma_pmul(pprod(ps.drop_last()), ps.last(), x);
        assert(Seq::new(ps.len(), |k: int| peval(ps[k], x)).drop_last() =~= Seq::new(
            ps.drop_last().len(),
            |k: int| peval(ps.drop_last()[k], x),
        ));
    }
}

/// The degree of a product of many polynomials.
pub proof fn lemma_pprod_len(ps: Seq<Seq<nat>>)
    requires
        forall|k: int| 0 <= k < ps.len() ==> (#[trigger] ps[k]).len() >= 1,
    ensures
        1 <= pprod(ps).len() <= degree_sum(ps) + 1,
    decreases ps.len(),
{
    if ps.len() > 0 {
        lemma_pprod_len(ps.drop_last());
        lemma_pmul_len(pprod(ps.drop_last()), ps.last());
    }
}

/// The factor `x - j` of the basis polynomial of `i`, one for `j == i`.
pub open spec fn basis_factor(i: nat, j: nat) -> Seq<nat> {
    if i == j {
        seq![1nat]
    } else {
        seq![crate::field::fneg(j), 1nat]
    }
}

pub open spec fn basis_factors(i: nat, n: nat) -> Seq<Seq<nat>> {
    Seq::new(n, |j: int| basis_factor(i, j as nat))
}

/// `prod_{j <= d, j != i} (x - j)`.
pub open spec fn basis(d: nat, i: nat) -> Seq<nat> {
    pprod(basis_factors(i, d + 1))
}

/// The Lagrange polynomial of `i` over `0..=d`: one at `i`, zero at the
/// other points.
pub open spec fn lagrange(d: nat, i: nat) -> Seq<nat> {
    pscale(basis(d, i), crate::field::finv(weight(d, i)))
}

/// The values of the basis factors.
pub open spec fn basis_values(i: nat, n: nat, x: nat) -> Seq<nat> {
    Seq::new(n, |j: int| if i == j { 1nat } else { term(j as nat, x) })
}

proof fn lemma_basis_factor(i: nat, j: nat, x: nat)
    ensures
        peval(basis_factor(i, j), x) == if i == j { 1nat } else { term(j, x) },
{
    let f = basis_factor(i, j);
    if i == j {
        lemma_peval_one(x);
    } else {
        assert(f.skip(1) =~= seq![1nat]);
        lemma_peval_one(x);
        assert(peval(f, x) == fadd(crate::field::fneg(j), fmul(x, 1)));
        lemma_mul_one(x % modulus());
        vstd::arithmetic::div_mod::lemma_mul_mod_noop_left(x as int, 1, modulus() as int);
        vstd::arithmetic::div_mod::lemma_add_mod_noop(
            crate::field::fneg(j) as int,
            x as int,
            modulus() as int,
        );
        vstd::arithmetic::div_mod::lemma_mod_twice(x as int, modulus() as int);
        vstd::arithmetic::div_mod::lemma_add_mod_noop(
            crate::field::fneg(j) as int,
            (x % modulus()) as int,
            modulus() as int,
        );
    }
}

/// The basis polynomial of `i` is the product of the `x - j`, `j != i`, of
/// degree at most `d`.
pub proof fn lemma_basis(d: nat, i: nat, x: nat)
    ensures
        peval(basis(d, i), x) == fprod(basis_values(i, d + 1, x)),
        1 <= basis(d, i).len() <= d + 1 + (if i <= d { 0nat } else { 1nat }),
{
    let ps = basis_factors(i, d + 1);
    lemma_pprod(ps, x);
    let vals = Seq::new(ps.len(), |k: int| peval(ps[k], x));
    assert forall|j: int| 0 <= j < d + 1 implies #[trigger] vals[j] == basis_values(i, d + 1, x)[j] by {
        lemma_basis_factor(i, j as nat, x);
    }
    assert(vals =~= basis_values(i, d + 1, x));
    lemma_pprod_len(ps);
    lemma_degree_sum_basis(i, d + 1);
}

proof fn lemma_degree_sum_basis(i: nat, n: nat)
    ensures
        degree_sum(basis_factors(i, n)) == n - (if i < n { 1nat } else { 0nat }),
    decreases n,
{
    if n > 0 {
        assert(basis_factors(i, n).drop_last() =~= basis_factors(i, (n - 1) as nat));
        lemma_degree_sum_basis(i, (n - 1) as nat);
    }
}

/// A product with a zero factor is zero.
proof fn lemma_fprod_zero(s: Seq<nat>, j: int)
    requires
        0 <= j < s.len(),
        s[j] == 0,
    ensures
        fprod(s) == 0,
    decreases s.len(),
{
    if j == s.len() - 1 {
        lemma_mul_zero(fprod(s.drop_last()));
    } else {
        lemma_fprod_zero(s.drop_last(), j);
        lemma_mul_zero(s.last());
    }
}

/// In a field, a product of non-zero values is non-zero.
proof fn lemma_fprod_nonzero(s: Seq<nat>)
    requires
        nonzero_invertible(),
        forall|j: int| 0 <= j < s.len() ==> #[trigger] s[j] != 0 && s[j] < modulus(),
    ensures
        fprod(s) != 0,
    decreases s.len(),
{
    if s.len() == 0 {
        lemma_small(1);
    } else {
        lemma_fprod_nonzero(s.drop_last());
        let p = fprod(s.drop_last());
        lemma_fprod_lt(s.drop_last());
        if fprod(s) == 0 {
            assert(has_inverse(p));
            let w = choose|w: nat| is_inverse(p, w);
            lemma_mul_cancel(p, s.last(), w);
            lemma_small(s.last());
        }
    }
}

/// `x - x == 0`.
proof fn lemma_term_self(x: nat)
    ensures
        term(x, x) == 0,
{
    crate::field::lemma_sub_as_add_neg(x, x);
    lemma_add_comm(x, crate::field::fneg(x));
    crate::field::lemma_sub_self(x);
}

/// The weight of a domain point is invertible in a field.
pub proof fn lemma_weight_invertible(d: nat, i: nat)
    requires
        nonzero_invertible(),
        d < modulus(),
        i <= d,
    ensures
        is_inverse(weight(d, i), crate::field::finv(weight(d, i))),
{
    let s = weight_factors(d, i);
    assert forall|j: int| 0 <= j < s.len() implies #[trigger] s[j] != 0 && s[j] < modulus() by {
        if j != i {
            crate::field::lemma_sub_as_add_neg(i, j as nat);
            lemma_add_comm(i, crate::field::fneg(j as nat));
            lemma_fsub_lt(i, j as nat);
            lemma_fsub_nonzero(i, j as nat);
        } else {
            lemma_small(1);
        }
    }
    lemma_fprod_nonzero(s);
    lemma_fprod_lt(s);
    assert(has_inverse(weight(d, i)));
}

/// The Lagrange polynomial of `i` is one at `i` and zero at the other
/// points of the domain.
pub proof fn lemma_lagrange_on_domain(d: nat, i: nat, k: nat)
    requires
        nonzero_invertible(),
        d < modulus(),
        i <= d,
        k <= d,
    ensures
        peval(lagrange(d, i), k) == if i == k { 1nat } else { 0nat },
        1 <= lagrange(d, i).len() <= d + 1,
{
    lemma_basis(d, i, k);
    lemma_pscale(basis(d, i), crate::field::finv(weight(d, i)), k);
    if i == k {
        assert(basis_values(i, d + 1, k) =~= weight_factors(d, i));
        lemma_weight_invertible(d, i);
    } else {
        lemma_term_self(k);
        assert(basis_values(i, d + 1, k)[k as int] == 0);
        lemma_fprod_zero(basis_values(i, d + 1, k), k as int);
        lemma_mul_zero(crate::field::finv(weight(d, i)));
    }
}

/// The interpolation polynomial of the values `e` over `0..=d`, from its
/// first `n` Lagrange terms.
pub open spec fn pinterp(d: nat, e: Seq<nat>, n: nat) -> Seq<nat>
    decreases n,
{
    if n == 0 {
        seq![]
    } else {
        padd(pinterp(d, e, (n - 1) as nat), pscale(lagrange(d, (n - 1) as nat), e[n - 1]))
    }
}

/// The interpolation polynomial's value: `sum_i L_i(x) e_i`.
pub open spec fn interp_terms(d: nat, e: Seq<nat>, n: nat, x: nat) -> Seq<nat> {
    Seq::new(n, |i: int| fmul(peval(lagrange(d, i as nat), x), e[i]))
}

/// Evaluation of the interpolation polynomial.
pub proof fn lemma_pinterp(d: nat, e: Seq<nat>, n: nat, x: nat)
    ensures
        peval(pinterp(d, e, n), x) == fsum(interp_terms(d, e, n, x)),
    decreases n,
{
    if n > 0 {
        lemma_pinterp(d, e, (n - 1) as nat, x);
        let l = lagrange(d, (n - 1) as nat);
        lemma_padd(pinterp(d, e, (n - 1) as nat), pscale(l, e[n - 1]), x);
        lemma_pscale(l, e[n - 1], x);
        assert(interp_terms(d, e, n, x).drop_last() =~= interp_terms(d, e, (n - 1) as nat, x));
    }
}

/// The interpolation polynomial has degree at most `d`.
pub proof fn lemma_pinterp_len(d: nat, e: Seq<nat>, n: nat)
    requires
        n <= d + 1,
    ensures
        pinterp(d, e, n).len() <= d + 1,
    decreases n,
{
    if n > 0 {
        lemma_pinterp_len(d, e, (n - 1) as nat);
        lemma_basis(d, (n - 1) as nat, 0);
    }
}

/// A sum whose entries are zero but one is that entry.
proof fn lemma_fsum_single(s: Seq<nat>, k: int)
    requires
        0 <= k < s.len(),
        s[k] < modulus(),
        forall|j: int| 0 <= j < s.len() && j != k ==> #[trigger] s[j] == 0,
    ensures
        fsum(s) == s[k],
    decreases s.len(),
{
    if k == s.len() - 1 {
        lemma_fsum_zero(s.drop_last());
        lemma_add_comm(0, s[k]);
        lemma_add_zero(s[k]);
    } else {
        lemma_fsum_single(s.drop_last(), k);
        lemma_add_zero(s[k]);
    }
}

proof fn lemma_fsum_zero(s: Seq<nat>)
    requires
        forall|j: int| 0 <= j < s.len() ==> #[trigger] s[j] == 0,
    ensures
        fsum(s) == 0,
    decreases s.len(),
{
    if s.len() > 0 {
        lemma_fsum_zero(s.drop_last());
        lemma_small(0);
    }
}

/// On the domain, the interpolation polynomial gives the values.
pub proof fn lemma_pinterp_on_domain(d: nat, e: Seq<nat>, k: nat)
    requires
        nonzero_invertible(),
        d < modulus(),
        e.len() == d + 1,
        k <= d,
        e[k as int] < modulus(),
    ensures
        peval(pinterp(d, e, d + 1), k) == e[k as int],
{
    lemma_pinterp(d, e, d + 1, k);
    let t = interp_terms(d, e, d + 1, k);
    assert forall|j: int| 0 <= j < t.len() && j != k implies #[trigger] t[j] == 0 by {
        lemma_lagrange_on_domain(d, j as nat, k);
        lemma_mul_zero(e[j]);
    }
    lemma_lagrange_on_domain(d, k, k);
    lemma_mul_one(e[k as int]);
    lemma_fsum_single(t, k as int);
}

/// The points `0..=n-1`.
pub open spec fn domain_points(n: nat) -> Seq<nat> {
    Seq::new(n, |k: int| k as nat)
}

/// Interpolation is exact: a polynomial of degree at most `d` is the
/// interpolation polynomial of its values over `0..=d`.
pub proof fn lemma_interpolation_exact(c: Seq<nat>, d: nat, x: nat)
    requires
        nonzero_invertible(),
        d < modulus(),
        c.len() <= d + 1,
    ensures
        peval(pinterp(d, Seq::new(d + 1, |i: int| peval(c, i as nat)), d + 1), x) == peval(c, x),
{
    let e = Seq::new(d + 1, |i: int| peval(c, i as nat));
    let i = pinterp(d, e, d + 1);
    let q = psub(i, c);
    lemma_pinterp_len(d, e, d + 1);
    let pts = domain_points(d + 1);
    assert forall|k: int| 0 <= k < pts.len() implies #[trigger] peval(q, pts[k]) == 0 by {
        lemma_psub(i, c, k as nat);
        lemma_peval_lt(c, k as nat);
        lemma_pinterp_on_domain(d, e, k as nat);
        crate::field::lemma_sub_self(peval(c, k as nat));
    }
    lemma_roots(q, pts, x);
    lemma_psub(i, c, x);
    lemma_peval_lt(i, x);
    lemma_peval_lt(c, x);
    if peval(i, x) != peval(c, x) {
        lemma_fsub_nonzero(peval(i, x), peval(c, x));
    }
}

/// Replacing one factor of a product: `prod(s[i := v]) * s[i] == prod(s) * v`.
proof fn lemma_fprod_update(s: Seq<nat>, i: int, v: nat)
    requires
        0 <= i < s.len(),
    ensures
        fmul(fprod(s.update(i, v)), s[i]) == fmul(fprod(s), v),
    decreases s.len(),
{
    let u = s.update(i, v);
    let n = s.len() - 1;
    if i == n {
        assert(u.drop_last() =~= s.drop_last());
        let p = fprod(s.drop_last());
        lemma_mul_assoc(p, v, s[i]);
        lemma_mul_comm(v, s[i]);
        lemma_mul_assoc(p, s[i], v);
    } else {
        assert(u.drop_last() =~= s.drop_last().update(i, v));
        lemma_fprod_update(s.drop_last(), i, v);
        let a = fprod(u.drop_last());
        let b = fprod(s.drop_last());
        let l = s.last();
        assert(u.last() == l);
        // (a l) s_i = (a s_i) l = (b v) l = (b l) v
        lemma_mul_assoc(a, l, s[i]);
        lemma_mul_comm(l, s[i]);
        lemma_mul_assoc(a, s[i], l);
        lemma_mul_assoc(b, v, l);
        lemma_mul_comm(v, l);
        lemma_mul_assoc(b, l, v);
    }
}

/// The inverse of a product is the product of the inverses.
proof fn lemma_finv_mul(t: nat, w: nat)
    requires
        is_inverse(t, crate::field::finv(t)),
        is_inverse(w, crate::field::finv(w)),
    ensures
        crate::field::finv(fmul(t, w)) == fmul(crate::field::finv(t), crate::field::finv(w)),
{
    let ft = crate::field::finv(t);
    let fw = crate::field::finv(w);
    // (t w)(ft fw) = (t ft)(w fw) = 1
    lemma_mul_assoc(t, w, fmul(ft, fw));
    lemma_mul_assoc(w, ft, fw);
    lemma_mul_comm(w, ft);
    lemma_mul_assoc(ft, w, fw);
    lemma_mul_assoc(t, ft, fmul(w, fw));
    lemma_mul_one(1);
    crate::field::lemma_finv_unique(fmul(t, w), fmul(ft, fw));
}

/// Outside the domain, the barycentric formula gives the interpolation
/// polynomial's value.
pub proof fn lemma_bary_sum_is_interp(d: nat, e: Seq<nat>, r: nat)
    requires
        nonzero_invertible(),
        d < r < modulus(),
        e.len() == d + 1,
    ensures
        bary_sum(d, e, r) == peval(pinterp(d, e, d + 1), r),
{
    let v = vanishing(d, r);
    let terms = Seq::new(d + 1, |j: int| term(j as nat, r));
    let a = Seq::new(
        d + 1,
        |i: int| fmul(crate::field::finv(fmul(term(i as nat, r), weight(d, i as nat))), e[i]),
    );
    let c = interp_terms(d, e, d + 1, r);
    assert forall|i: int| 0 <= i < c.len() implies #[trigger] c[i] == fmul(v, a[i]) by {
        let t = term(i as nat, r);
        let w = weight(d, i as nat);
        let ft = crate::field::finv(t);
        let fw = crate::field::finv(w);
        let num = fprod(basis_values(i as nat, d + 1, r));
        lemma_basis(d, i as nat, r);
        lemma_pscale(basis(d, i as nat), fw, r);
        // t is invertible
        crate::field::lemma_sub_as_add_neg(r, i as nat);
        lemma_add_comm(r, crate::field::fneg(i as nat));
        lemma_fsub_lt(r, i as nat);
        lemma_fsub_nonzero(r, i as nat);
        assert(has_inverse(t));
        assert(is_inverse(t, ft));
        lemma_weight_invertible(d, i as nat);
        lemma_finv_mul(t, w);
        // v = num * t
        assert(basis_values(i as nat, d + 1, r) =~= terms.update(i, 1));
        lemma_fprod_update(terms, i, 1);
        lemma_fprod_lt(terms);
        lemma_mul_one(v);
        // v ((ft fw) e) = (num t)((ft fw) e) = num (t (ft (fw e))) = num (fw e) = (num fw) e
        let ei = e[i];
        lemma_mul_assoc(ft, fw, ei);
        lemma_mul_assoc(num, t, fmul(ft, fmul(fw, ei)));
        lemma_mul_assoc(t, ft, fmul(fw, ei));
        lemma_fprod_lt(basis_values(i as nat, d + 1, r));
        lemma_small(fmul(fw, ei));
        lemma_mul_one(fmul(fw, ei));
        lemma_mul_assoc(num, fw, ei);
    }
    crate::algebra::lemma_fsum_scale(a, v, c);
    lemma_pinterp(d, e, d + 1, r);
}

/// Barycentric evaluation is exact: from the values over `0..=d` of a
/// polynomial of degree at most `d`, it gives the polynomial's value at
/// every point.
pub proof fn lemma_bary_eval_exact(c: Seq<nat>, d: nat, x: nat)
    requires
        nonzero_invertible(),
        d < modulus(),
        x < modulus(),
        c.len() <= d + 1,
    ensures
        bary_eval(d, Seq::new(d + 1, |i: int| peval(c, i as nat)), x) == peval(c, x),
{
    let e = Seq::new(d + 1, |i: int| peval(c, i as nat));
    if x > d {
        lemma_bary_sum_is_interp(d, e, x);
        lemma_interpolation_exact(c, d, x);
    }
}

} // verus!
