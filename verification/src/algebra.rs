//! Sums and products of sequences of field values, with the facts about them
//! that the polynomial code relies on.
use crate::field::{
    fadd, fmul, group_field, lemma_add_assoc, lemma_add_comm, lemma_add_zero, lemma_distrib,
    lemma_mul_zero, lemma_small, lemma_value_lt, modulus, Scalar,
};
use vstd::prelude::*;

verus! {

broadcast use group_field;

/// The values of a sequence of elements.
pub open spec fn views(s: Seq<Scalar>) -> Seq<nat> {
    s.map_values(|x: Scalar| x@)
}

/// All values are reduced (below the modulus).
pub open spec fn reduced(s: Seq<nat>) -> bool {
    forall|i: int| 0 <= i < s.len() ==> #[trigger] s[i] < modulus()
}

/// Field sum of a sequence, accumulated from the front.
pub open spec fn fsum(s: Seq<nat>) -> nat
    decreases s.len(),
{
    if s.len() == 0 {
        0
    } else {
        fadd(fsum(s.drop_last()), s.last())
    }
}

/// Field product of a sequence, accumulated from the front.
pub open spec fn fprod(s: Seq<nat>) -> nat
    decreases s.len(),
{
    if s.len() == 0 {
        1
    } else {
        fmul(fprod(s.drop_last()), s.last())
    }
}

/// Pointwise product of two sequences, summed: `sum_i a[i] * b[i]`.
pub open spec fn dot(a: Seq<nat>, b: Seq<nat>) -> nat {
    fsum(Seq::new(a.len(), |i: int| fmul(a[i], b[i])))
}

/// The values of elements are reduced.
pub proof fn lemma_views_reduced(s: Seq<Scalar>)
    ensures
        reduced(views(s)),
        views(s).len() == s.len(),
{
    assert forall|i: int| 0 <= i < views(s).len() implies #[trigger] views(s)[i] < modulus() by {
        lemma_value_lt(s[i]);
    }
}

/// Sums are reduced.
pub proof fn lemma_fsum_lt(s: Seq<nat>)
    ensures
        fsum(s) < modulus(),
    decreases s.len(),
{
    if s.len() > 0 {
        lemma_fsum_lt(s.drop_last());
    }
}

/// Products are reduced.
pub proof fn lemma_fprod_lt(s: Seq<nat>)
    ensures
        fprod(s) < modulus(),
    decreases s.len(),
{
    if s.len() > 0 {
        lemma_fprod_lt(s.drop_last());
    }
}


/// The product of a sequence extended by one value.
pub proof fn lemma_fprod_push(s: Seq<nat>, x: nat)
    ensures
        fprod(s.push(x)) == fmul(fprod(s), x),
{
    assert(s.push(x).drop_last() =~= s);
}

/// `(a + b) + (c + d) == (a + c) + (b + d)`.
pub proof fn lemma_add_swap(a: nat, b: nat, c: nat, d: nat)
    ensures
        fadd(fadd(a, b), fadd(c, d)) == fadd(fadd(a, c), fadd(b, d)),
{
    lemma_add_assoc(a, b, fadd(c, d));
    lemma_add_assoc(b, c, d);
    lemma_add_comm(b, c);
    lemma_add_assoc(c, b, d);
    lemma_add_assoc(a, c, fadd(b, d));
}

/// The sum over a concatenation is the sum of the sums.
pub proof fn lemma_fsum_concat(a: Seq<nat>, b: Seq<nat>)
    ensures
        fsum(a + b) == fadd(fsum(a), fsum(b)),
    decreases b.len(),
{
    if b.len() == 0 {
        assert(a + b =~= a);
        lemma_fsum_lt(a);
        lemma_add_zero(fsum(a));
    } else {
        lemma_fsum_concat(a, b.drop_last());
        assert((a + b).drop_last() =~= a + b.drop_last());
        lemma_add_assoc(fsum(a), fsum(b.drop_last()), b.last());
    }
}

/// Summing pointwise sums.
pub proof fn lemma_fsum_pointwise_add(a: Seq<nat>, b: Seq<nat>, c: Seq<nat>)
    requires
        a.len() == b.len(),
        b.len() == c.len(),
        forall|i: int| 0 <= i < c.len() ==> #[trigger] c[i] == fadd(a[i], b[i]),
    ensures
        fsum(c) == fadd(fsum(a), fsum(b)),
    decreases c.len(),
{
    if c.len() == 0 {
        lemma_small(0);
    } else {
        lemma_fsum_pointwise_add(a.drop_last(), b.drop_last(), c.drop_last());
        lemma_add_swap(fsum(a.drop_last()), fsum(b.drop_last()), a.last(), b.last());
    }
}

/// A common factor comes out of a sum.
pub proof fn lemma_fsum_scale(a: Seq<nat>, k: nat, c: Seq<nat>)
    requires
        a.len() == c.len(),
        forall|i: int| 0 <= i < c.len() ==> #[trigger] c[i] == fmul(k, a[i]),
    ensures
        fsum(c) == fmul(k, fsum(a)),
    decreases c.len(),
{
    if c.len() == 0 {
        lemma_mul_zero(k);
    } else {
        lemma_fsum_scale(a.drop_last(), k, c.drop_last());
        lemma_distrib(k, fsum(a.drop_last()), a.last());
    }
}

/// Sums of equal sequences of reduced values agree when the entries agree.
pub proof fn lemma_fsum_ext(a: Seq<nat>, b: Seq<nat>)
    requires
        a.len() == b.len(),
        forall|i: int| 0 <= i < a.len() ==> #[trigger] a[i] == b[i],
    ensures
        fsum(a) == fsum(b),
{
    assert(a =~= b);
}

} // verus!
