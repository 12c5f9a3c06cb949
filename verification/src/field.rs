//! The scalar field of the Vesta curve, the field over which every polynomial,
//! message and challenge of this library lives.
//!
//! An element is held as its canonical little-endian 64-bit limbs; its
//! mathematical value is a natural number below the field modulus.  The
//! arithmetic itself is done by `ark_vesta::Fr` (through `ark_ff`), each
//! operation behind a small trusted wrapper whose contract is the plain
//! modular formula.
use ark_ff::{BigInt, Field, PrimeField};
use vstd::arithmetic::div_mod::*;
use vstd::arithmetic::mul::*;
use vstd::prelude::*;

verus! {

/// The modulus of the scalar field of Vesta (the base field of Pallas).
pub open spec fn modulus() -> nat {
    28948022309329048855892746252171976963363056481941560715954676764349967630337nat
}

pub open spec fn limb_base() -> nat {
    18446744073709551616nat
}

/// Value of four little-endian 64-bit limbs.
pub open spec fn limbs_val(l: [u64; 4]) -> nat {
    l[0] as nat + limb_base() * (l[1] as nat + limb_base() * (l[2] as nat + limb_base() * (
    l[3] as nat)))
}

/// Field addition on values.
pub open spec fn fadd(a: nat, b: nat) -> nat {
    (a + b) % modulus()
}

/// Field subtraction on values.
pub open spec fn fsub(a: nat, b: nat) -> nat {
    ((a - b) % (modulus() as int)) as nat
}

/// Field multiplication on values.
pub open spec fn fmul(a: nat, b: nat) -> nat {
    (a * b) % modulus()
}

/// Field negation on values.
pub open spec fn fneg(a: nat) -> nat {
    fsub(0, a)
}

/// `b` is the multiplicative inverse of `a`.
pub open spec fn is_inverse(a: nat, b: nat) -> bool {
    b < modulus() && fmul(a, b) == 1
}

/// The inverse of `a` where it has one, zero where it has none (as for zero).
pub open spec fn finv(a: nat) -> nat {
    if exists|b: nat| is_inverse(a, b) {
        choose|b: nat| is_inverse(a, b)
    } else {
        0
    }
}

/// `a` raised to the `e`-th power in the field.
pub open spec fn fpow(a: nat, e: nat) -> nat
    decreases e,
{
    if e == 0 {
        1
    } else {
        fmul(fpow(a, (e - 1) as nat), a)
    }
}

/// An element of the scalar field.
#[derive(Clone, Copy, PartialEq, Eq, Debug)]
pub struct Scalar {
    limbs: [u64; 4],
}

impl Scalar {
    #[verifier::type_invariant]
    spec fn canonical(self) -> bool {
        limbs_val(self.limbs) < modulus()
    }

    /// The value of the element, a natural number below the modulus.
    pub closed spec fn value(self) -> nat {
        limbs_val(self.limbs) % modulus()
    }
}

impl View for Scalar {
    type V = nat;

    open spec fn view(&self) -> nat {
        self.value()
    }
}

pub broadcast proof fn lemma_value_lt(x: Scalar)
    ensures
        #[trigger] x.value() < modulus(),
{
    lemma_mod_bound(limbs_val(x.limbs) as int, modulus() as int);
}

pub broadcast group group_field {
    lemma_value_lt,
}

proof fn lemma_limbs_zero(l: [u64; 4])
    ensures
        (limbs_val(l) == 0) <==> (l[0] == 0 && l[1] == 0 && l[2] == 0 && l[3] == 0),
{
    let b = limb_base() as int;
    let x3 = l[3] as int;
    let x2 = l[2] as int + b * x3;
    let x1 = l[1] as int + b * x2;
    lemma_mul_nonnegative(b, x3);
    lemma_mul_nonnegative(b, x2);
    lemma_mul_nonnegative(b, x1);
    if limbs_val(l) == 0 {
        if x1 > 0 {
            lemma_mul_strict_inequality(0, x1, b);
            lemma_mul_is_commutative(b, x1);
        }
        if x2 > 0 {
            lemma_mul_strict_inequality(0, x2, b);
            lemma_mul_is_commutative(b, x2);
        }
        if x3 > 0 {
            lemma_mul_strict_inequality(0, x3, b);
            lemma_mul_is_commutative(b, x3);
        }
    }
}

/// Limbs below the base are determined by their value.
proof fn lemma_limbs_injective(l: [u64; 4], m: [u64; 4])
    requires
        limbs_val(l) == limbs_val(m),
    ensures
        l == m,
{
    let b = limb_base() as int;
    let lx2 = l[2] as int + b * (l[3] as int);
    let lx1 = l[1] as int + b * lx2;
    let mx2 = m[2] as int + b * (m[3] as int);
    let mx1 = m[1] as int + b * mx2;
    lemma_mul_nonnegative(b, l[3] as int);
    lemma_mul_nonnegative(b, m[3] as int);
    lemma_mul_nonnegative(b, lx2);
    lemma_mul_nonnegative(b, mx2);
    lemma_mul_is_commutative(b, lx1);
    lemma_mul_is_commutative(b, mx1);
    lemma_fundamental_div_mod_converse(limbs_val(l) as int, b, lx1, l[0] as int);
    lemma_fundamental_div_mod_converse(limbs_val(m) as int, b, mx1, m[0] as int);
    lemma_mul_is_commutative(b, lx2);
    lemma_mul_is_commutative(b, mx2);
    lemma_fundamental_div_mod_converse(lx1, b, lx2, l[1] as int);
    lemma_fundamental_div_mod_converse(mx1, b, mx2, m[1] as int);
    lemma_mul_is_commutative(b, l[3] as int);
    lemma_mul_is_commutative(b, m[3] as int);
    lemma_fundamental_div_mod_converse(lx2, b, l[3] as int, l[2] as int);
    lemma_fundamental_div_mod_converse(mx2, b, m[3] as int, m[2] as int);
    assert(l =~= m);
}

// ---------------------------------------------------------------------------
// Trusted wrappers around `ark_vesta::Fr`.
// ---------------------------------------------------------------------------
/// `ark_vesta::Fr` addition (`Add`): the sum modulo the field modulus.
#[verifier::external_body]
fn ark_add(a: &Scalar, b: &Scalar) -> (r: Scalar)
    ensures
        r@ == fadd(a@, b@),
{
    let x = ark_vesta::Fr::from_bigint(BigInt::new(a.limbs)).unwrap();
    let y = ark_vesta::Fr::from_bigint(BigInt::new(b.limbs)).unwrap();
    Scalar { limbs: (x + y).into_bigint().0 }
}

/// `ark_vesta::Fr` subtraction (`Sub`): the difference modulo the field modulus.
#[verifier::external_body]
fn ark_sub(a: &Scalar, b: &Scalar) -> (r: Scalar)
    ensures
        r@ == fsub(a@, b@),
{
    let x = ark_vesta::Fr::from_bigint(BigInt::new(a.limbs)).unwrap();
    let y = ark_vesta::Fr::from_bigint(BigInt::new(b.limbs)).unwrap();
    Scalar { limbs: (x - y).into_bigint().0 }
}

/// `ark_vesta::Fr` multiplication (`Mul`): the product modulo the field modulus.
#[verifier::external_body]
fn ark_mul(a: &Scalar, b: &Scalar) -> (r: Scalar)
    ensures
        r@ == fmul(a@, b@),
{
    let x = ark_vesta::Fr::from_bigint(BigInt::new(a.limbs)).unwrap();
    let y = ark_vesta::Fr::from_bigint(BigInt::new(b.limbs)).unwrap();
    Scalar { limbs: (x * y).into_bigint().0 }
}

/// `ark_ff::Field::inverse` on `ark_vesta::Fr`: `None` for zero, otherwise the
/// element whose product with the argument is one.  That every non-zero element
/// has an inverse is the field property that `ark_ff` relies on (the modulus
/// is prime); it is not proved here.
#[verifier::external_body]
fn ark_inverse(a: &Scalar) -> (r: Option<Scalar>)
    ensures
        r is None <==> a@ == 0,
        r matches Some(x) ==> fmul(a@, x@) == 1,
{
    let x = ark_vesta::Fr::from_bigint(BigInt::new(a.limbs)).unwrap();
    match x.inverse() {
        Some(i) => Some(Scalar { limbs: i.into_bigint().0 }),
        None => None,
    }
}

/// `ark_ff::fields::batch_inversion` on `ark_vesta::Fr`: every non-zero entry
/// is replaced by its inverse, zero entries are left as they are.
#[verifier::external_body]
fn ark_batch_inversion(v: &mut Vec<Scalar>)
    ensures
        final(v)@.len() == old(v)@.len(),
        forall|i: int|
            0 <= i < old(v)@.len() ==> {
                &&& old(v)@[i]@ != 0 ==> fmul(old(v)@[i]@, #[trigger] final(v)@[i]@) == 1
                &&& old(v)@[i]@ == 0 ==> final(v)@[i]@ == 0
            },
{
    let mut elems: Vec<ark_vesta::Fr> = v.iter().map(
        |x| ark_vesta::Fr::from_bigint(BigInt::new(x.limbs)).unwrap(),
    ).collect();
    ark_ff::fields::batch_inversion(&mut elems);
    *v = elems.iter().map(|x| Scalar { limbs: x.into_bigint().0 }).collect();
}

// ---------------------------------------------------------------------------
// Verified operations.
// ---------------------------------------------------------------------------
impl Scalar {
    /// The additive identity.
    pub fn zero() -> (r: Scalar)
        ensures
            r@ == 0,
    {
        let r = Scalar { limbs: [0, 0, 0, 0] };
        proof {
            lemma_small_mod(0, modulus());
        }
        r
    }

    /// The multiplicative identity.
    pub fn one() -> (r: Scalar)
        ensures
            r@ == 1,
    {
        let r = Scalar { limbs: [1, 0, 0, 0] };
        proof {
            lemma_small_mod(1, modulus());
        }
        r
    }

    /// The element with the value of a 64-bit integer.
    pub fn from_u64(x: u64) -> (r: Scalar)
        ensures
            r@ == x as nat,
    {
        let r = Scalar { limbs: [x, 0, 0, 0] };
        proof {
            assert(limbs_val(r.limbs) == x as nat);
            lemma_small_mod(x as nat, modulus());
        }
        r
    }

    /// The canonical little-endian limbs of the element.
    pub fn to_limbs(&self) -> (r: [u64; 4])
        ensures
            limbs_val(r) == self@,
    {
        proof {
            use_type_invariant(self);
            lemma_small_mod(limbs_val(self.limbs), modulus());
        }
        self.limbs
    }

    /// The element with the given limbs, where their value is below the modulus.
    pub fn from_limbs(limbs: [u64; 4]) -> (r: Option<Scalar>)
        ensures
            r is Some <==> limbs_val(limbs) < modulus(),
            r matches Some(x) ==> x@ == limbs_val(limbs),
    {
        // The modulus in limbs, most significant first.
        let m3: u64 = 0x4000000000000000;
        let m2: u64 = 0;
        let m1: u64 = 0x224698fc094cf91b;
        let m0: u64 = 0x992d30ed00000001;
        let below = limbs[3] < m3 || (limbs[3] == m3 && (limbs[2] < m2 || (limbs[2] == m2 && (
        limbs[1] < m1 || (limbs[1] == m1 && limbs[0] < m0)))));
        proof {
            assert(modulus() == 0x992d30ed00000001nat + limb_base() * (0x224698fc094cf91bnat
                + limb_base() * (0nat + limb_base() * 0x4000000000000000nat)));
            lemma_limbs_lt(limbs, [m0, m1, m2, m3]);
        }
        if below {
            let r = Scalar { limbs };
            proof {
                lemma_small_mod(limbs_val(limbs), modulus());
            }
            Some(r)
        } else {
            None
        }
    }

    /// Sum of two elements.
    pub fn add(&self, other: &Scalar) -> (r: Scalar)
        ensures
            r@ == fadd(self@, other@),
    {
        ark_add(self, other)
    }

    /// Difference of two elements.
    pub fn sub(&self, other: &Scalar) -> (r: Scalar)
        ensures
            r@ == fsub(self@, other@),
    {
        ark_sub(self, other)
    }

    /// Product of two elements.
    pub fn mul(&self, other: &Scalar) -> (r: Scalar)
        ensures
            r@ == fmul(self@, other@),
    {
        ark_mul(self, other)
    }

    /// Additive inverse.
    pub fn neg(&self) -> (r: Scalar)
        ensures
            r@ == fneg(self@),
    {
        let z = Scalar::zero();
        ark_sub(&z, self)
    }

    /// Twice the element.
    pub fn double(&self) -> (r: Scalar)
        ensures
            r@ == fadd(self@, self@),
    {
        ark_add(self, self)
    }

    /// Square of the element.
    pub fn square(&self) -> (r: Scalar)
        ensures
            r@ == fmul(self@, self@),
    {
        ark_mul(self, self)
    }

    /// Multiplicative inverse, `None` exactly for zero.
    pub fn inverse(&self) -> (r: Option<Scalar>)
        ensures
            r is None <==> self@ == 0,
            r matches Some(x) ==> x@ == finv(self@) && fmul(self@, x@) == 1,
    {
        let r = ark_inverse(self);
        proof {
            if let Some(x) = r {
                lemma_value_lt(x);
                lemma_finv_unique(self@, x@);
            }
        }
        r
    }

    /// Quotient `self / other`, where the divisor has no inverse the result is zero
    /// (the quotient by `finv`).
    pub fn div(&self, other: &Scalar) -> (r: Scalar)
        ensures
            r@ == fmul(self@, finv(other@)),
    {
        match other.inverse() {
            Some(i) => self.mul(&i),
            None => {
                proof {
                    lemma_finv_zero();
                    lemma_small_mod(0, modulus());
                }
                Scalar::zero()
            },
        }
    }

    /// Whether the element is zero.
    pub fn is_zero(&self) -> (r: bool)
        ensures
            r == (self@ == 0),
    {
        proof {
            use_type_invariant(self);
            lemma_small_mod(limbs_val(self.limbs), modulus());
            lemma_limbs_zero(self.limbs);
        }
        self.limbs[0] == 0 && self.limbs[1] == 0 && self.limbs[2] == 0 && self.limbs[3] == 0
    }

    /// Equality of elements.
    pub fn equals(&self, other: &Scalar) -> (r: bool)
        ensures
            r == (self@ == other@),
    {
        proof {
            use_type_invariant(self);
            use_type_invariant(other);
            lemma_small_mod(limbs_val(self.limbs), modulus());
            lemma_small_mod(limbs_val(other.limbs), modulus());
            if self@ == other@ {
                lemma_limbs_injective(self.limbs, other.limbs);
            }
        }
        self.limbs[0] == other.limbs[0] && self.limbs[1] == other.limbs[1] && self.limbs[2]
            == other.limbs[2] && self.limbs[3] == other.limbs[3]
    }

    /// `self` raised to a 64-bit power, by squaring and multiplying: the
    /// bits of the exponent are read from the lowest, squaring the base at
    /// each one and multiplying it in where the bit is set.
    pub fn pow(&self, e: u64) -> (r: Scalar)
        ensures
            r@ == fpow(self@, e as nat),
    {
        let ghost a = self@;
        let mut acc = Scalar::one();
        let mut base = *self;
        let mut rem: u64 = e;
        let ghost mut done: nat = 0;
        let ghost mut p: nat = 1;
        proof {
            crate::zerocheck::lemma_fpow_add(a, 0, 1);
            assert(fpow(a, 0) == 1);
            lemma_value_lt(*self);
            crate::zerocheck::lemma_fpow_lt(a, 1);
            assert(fpow(a, 1) == fmul(1, a));
            lemma_mul_one(a);
            lemma_mul_comm(1, a);
        }
        while rem > 0
            invariant
                a == self@,
                acc@ == fpow(a, done),
                base@ == fpow(a, p),
                e == done + p * rem,
            decreases rem,
        {
            let ghost rem0 = rem as nat;
            if rem % 2 == 1 {
                acc = acc.mul(&base);
                proof {
                    crate::zerocheck::lemma_fpow_add(a, done, p);
                    done = done + p;
                }
            }
            base = base.mul(&base);
            proof {
                crate::zerocheck::lemma_fpow_add(a, p, p);
                assert(e == done + (2 * p) * (rem0 / 2)) by (nonlinear_arith)
                    requires
                        rem0 % 2 == 1 ==> e + p == done + p * rem0,
                        rem0 % 2 == 0 ==> e == done + p * rem0,
                ;
                p = 2 * p;
            }
            rem = rem / 2;
        }
        acc
    }
}

/// Replaces every entry by its inverse (`finv`: zero stays zero).
pub fn batch_inversion(v: &mut Vec<Scalar>)
    ensures
        final(v)@.len() == old(v)@.len(),
        forall|i: int| 0 <= i < old(v)@.len() ==> #[trigger] final(v)@[i]@ == finv(old(v)@[i]@),
{
    let ghost before = v@;
    ark_batch_inversion(v);
    proof {
        assert forall|i: int| 0 <= i < before.len() implies #[trigger] v@[i]@ == finv(before[i]@) by {
            lemma_value_lt(v@[i]);
            if before[i]@ != 0 {
                lemma_finv_unique(before[i]@, v@[i]@);
            } else {
                lemma_finv_zero();
            }
        }
    }
}

/// Inverses in `[0, modulus)` are unique, so `finv` names the one found.
pub proof fn lemma_finv_unique(a: nat, b: nat)
    requires
        is_inverse(a, b),
    ensures
        finv(a) == b,
{
    let c = choose|c: nat| is_inverse(a, c);
    assert(is_inverse(a, c));
    // c = c * (a * b) = (c * a) * b = b
    lemma_mul_one(c);
    lemma_mul_one(b);
    lemma_mul_assoc(c, a, b);
    lemma_mul_comm(c, a);
    assert(fmul(c, fmul(a, b)) == c);
    assert(fmul(fmul(a, c), b) == b);
}

/// Zero has no inverse.
pub proof fn lemma_finv_zero()
    ensures
        finv(0) == 0,
{
    assert forall|b: nat| !is_inverse(0, b) by {
        lemma_small_mod(0, modulus());
    }
}

proof fn lemma_limbs_lt(l: [u64; 4], m: [u64; 4])
    ensures
        (limbs_val(l) < limbs_val(m)) <==> (l[3] < m[3] || (l[3] == m[3] && (l[2] < m[2] || (l[2]
            == m[2] && (l[1] < m[1] || (l[1] == m[1] && l[0] < m[0])))))),
{
    let b = limb_base() as int;
    let l2 = l[2] as int + b * (l[3] as int);
    let m2 = m[2] as int + b * (m[3] as int);
    let l1 = l[1] as int + b * l2;
    let m1 = m[1] as int + b * m2;
    lemma_lex_lt(l[2] as int, l[3] as int, m[2] as int, m[3] as int);
    lemma_mul_nonnegative(b, l[3] as int);
    lemma_mul_nonnegative(b, m[3] as int);
    lemma_lex_lt(l[1] as int, l2, m[1] as int, m2);
    lemma_mul_nonnegative(b, l2);
    lemma_mul_nonnegative(b, m2);
    lemma_lex_lt(l[0] as int, l1, m[0] as int, m1);
}

/// Two-digit comparison in base 2^64.
proof fn lemma_lex_lt(a0: int, a1: int, c0: int, c1: int)
    requires
        0 <= a0 < limb_base(),
        0 <= c0 < limb_base(),
        0 <= a1,
        0 <= c1,
    ensures
        (a0 + limb_base() * a1 < c0 + limb_base() * c1) <==> (a1 < c1 || (a1 == c1 && a0 < c0)),
{
    let b = limb_base() as int;
    if a1 < c1 {
        lemma_mul_inequality(a1 + 1, c1, b);
        lemma_mul_is_commutative(a1 + 1, b);
        lemma_mul_is_commutative(c1, b);
        lemma_mul_is_distributive_add(b, a1, 1);
    } else if a1 > c1 {
        lemma_mul_inequality(c1 + 1, a1, b);
        lemma_mul_is_commutative(c1 + 1, b);
        lemma_mul_is_commutative(a1, b);
        lemma_mul_is_distributive_add(b, c1, 1);
    }
}

// ---------------------------------------------------------------------------
// Algebra of the field operations.
// ---------------------------------------------------------------------------
/// `a + b == b + a`.
pub proof fn lemma_add_comm(a: nat, b: nat)
    ensures
        fadd(a, b) == fadd(b, a),
{
}

/// `a * b == b * a`.
pub proof fn lemma_mul_comm(a: nat, b: nat)
    ensures
        fmul(a, b) == fmul(b, a),
{
    lemma_mul_is_commutative(a as int, b as int);
}

/// `(a + b) + c == a + (b + c)`.
pub proof fn lemma_add_assoc(a: nat, b: nat, c: nat)
    ensures
        fadd(fadd(a, b), c) == fadd(a, fadd(b, c)),
{
    let m = modulus() as int;
    let (x, y, z) = (a as int, b as int, c as int);
    lemma_add_mod_noop(x + y, z, m);
    lemma_add_mod_noop(x, y + z, m);
    lemma_mod_twice(x + y, m);
    lemma_mod_twice(y + z, m);
    lemma_mod_twice(x, m);
    lemma_mod_twice(z, m);
    lemma_add_mod_noop((x + y) % m, z, m);
    lemma_add_mod_noop(x, (y + z) % m, m);
}

/// `(a * b) * c == a * (b * c)`.
pub proof fn lemma_mul_assoc(a: nat, b: nat, c: nat)
    ensures
        fmul(fmul(a, b), c) == fmul(a, fmul(b, c)),
{
    let m = modulus() as int;
    let (x, y, z) = (a as int, b as int, c as int);
    lemma_mul_mod_noop_left(x * y, z, m);
    lemma_mul_mod_noop_right(x, y * z, m);
    lemma_mul_is_associative(x, y, z);
}

/// `a * (b + c) == a * b + a * c`.
pub proof fn lemma_distrib(a: nat, b: nat, c: nat)
    ensures
        fmul(a, fadd(b, c)) == fadd(fmul(a, b), fmul(a, c)),
{
    let m = modulus() as int;
    let (x, y, z) = (a as int, b as int, c as int);
    lemma_mul_mod_noop_right(x, y + z, m);
    lemma_mul_is_distributive_add(x, y, z);
    lemma_add_mod_noop(x * y, x * z, m);
    lemma_mul_nonnegative(x, y);
    lemma_mul_nonnegative(x, z);
}


/// Zero is neutral for addition.
pub proof fn lemma_add_zero(a: nat)
    requires
        a < modulus(),
    ensures
        fadd(a, 0) == a,
        fadd(0, a) == a,
{
    lemma_small_mod(a, modulus());
}

/// One is neutral for multiplication.
pub proof fn lemma_mul_one(a: nat)
    requires
        a < modulus(),
    ensures
        fmul(a, 1) == a,
        fmul(1, a) == a,
{
    lemma_small_mod(a, modulus());
}

/// Zero absorbs multiplication.
pub proof fn lemma_mul_zero(a: nat)
    ensures
        fmul(a, 0) == 0,
        fmul(0, a) == 0,
{
    lemma_small_mod(0, modulus());
}

/// `a - 0 == a` and `a - a == 0`.
pub proof fn lemma_sub_zero(a: nat)
    requires
        a < modulus(),
    ensures
        fsub(a, 0) == a,
        fsub(a, a) == 0,
{
    lemma_small_mod(a, modulus());
    lemma_small_mod(0, modulus());
}

/// `(a - b) + b == a`.
pub proof fn lemma_sub_add(a: nat, b: nat)
    requires
        a < modulus(),
    ensures
        fadd(fsub(a, b), b) == a,
{
    let m = modulus() as int;
    let (x, y) = (a as int, b as int);
    lemma_mod_bound(x - y, m);
    lemma_mod_twice(y, m);
    lemma_small_mod(a, modulus());
    lemma_mod_twice(x - y, m);
    lemma_add_mod_noop(x - y, y, m);
    lemma_add_mod_noop((x - y) % m, y, m);
}


/// Differences are reduced.
pub proof fn lemma_fsub_lt(a: nat, b: nat)
    ensures
        fsub(a, b) < modulus(),
{
    lemma_mod_bound(a - b, modulus() as int);
}

/// Values below the modulus are their own residue.
pub proof fn lemma_small(a: nat)
    requires
        a < modulus(),
    ensures
        a % modulus() == a,
{
    lemma_small_mod(a, modulus());
}

/// Subtraction is addition of the negation.
pub proof fn lemma_sub_as_add_neg(a: nat, b: nat)
    ensures
        fsub(a, b) == fadd(a, fneg(b)),
{
    let m = modulus() as int;
    let (x, y) = (a as int, b as int);
    lemma_mod_bound(0 - y, m);
    lemma_mod_bound(x - y, m);
    lemma_add_mod_noop(x, 0 - y, m);
    lemma_mod_twice(x, m);
    lemma_mod_twice(0 - y, m);
    lemma_add_mod_noop(x, (0 - y) % m, m);
}

/// The line through `(0, a)` and `(1, b)` at `r`, written both ways:
/// `r * (b - a) + a == (1 - r) * a + r * b`.
pub proof fn lemma_line_forms(a: nat, b: nat, r: nat)
    ensures
        fadd(fmul(r, fsub(b, a)), a) == fadd(fmul(fsub(1, r), a), fmul(r, b)),
{
    let m = modulus() as int;
    let (x, y, z) = (a as int, b as int, r as int);
    lemma_mod_bound(y - x, m);
    lemma_mod_bound(1 - z, m);
    lemma_mul_mod_noop_right(z, y - x, m);
    lemma_mul_mod_noop_left(1 - z, x, m);
    lemma_mod_bound(z * (y - x), m);
    lemma_mod_bound((1 - z) * x, m);
    lemma_add_mod_noop(z * (y - x), x, m);
    lemma_mod_twice(x, m);
    lemma_add_mod_noop(z * (y - x), x % m, m);
    lemma_add_mod_noop((1 - z) * x, z * y, m);
    lemma_mul_is_distributive_sub(z, y, x);
    lemma_mul_is_distributive_sub(x, 1, z);
    lemma_mul_is_commutative(x, z);
    lemma_mul_is_commutative(x, 1 - z);
    assert(z * (y - x) + x == (1 - z) * x + z * y) by (nonlinear_arith);
    lemma_mul_nonnegative(z, y);
    assert(((1 - z) * x) % m == ((1 - z) % m * x) % m);
}

/// `a * (b - c) == a * b - a * c`.
pub proof fn lemma_distrib_sub(a: nat, b: nat, c: nat)
    ensures
        fmul(a, fsub(b, c)) == fsub(fmul(a, b), fmul(a, c)),
{
    let m = modulus() as int;
    let (x, y, z) = (a as int, b as int, c as int);
    lemma_mod_bound(y - z, m);
    lemma_mul_mod_noop_right(x, y - z, m);
    lemma_mul_is_distributive_sub(x, y, z);
    lemma_sub_mod_noop(x * y, x * z, m);
    lemma_mul_nonnegative(x, y);
    lemma_mul_nonnegative(x, z);
    lemma_mod_bound(x * y - x * z, m);
    lemma_mod_bound(x * y, m);
    lemma_mod_bound(x * z, m);
}

/// `(c + u) - (c + v) == u - v`.
pub proof fn lemma_sub_cancel_left(c: nat, u: nat, v: nat)
    ensures
        fsub(fadd(c, u), fadd(c, v)) == fsub(u, v),
{
    let m = modulus() as int;
    let (x, y, z) = (c as int, u as int, v as int);
    lemma_sub_mod_noop(x + y, x + z, m);
    lemma_mod_bound(x + y, m);
    lemma_mod_bound(x + z, m);
    assert((x + y) - (x + z) == y - z);
}

/// `(b - c) + (a - b) == a - c`.
pub proof fn lemma_sub_telescope(a: nat, b: nat, c: nat)
    ensures
        fadd(fsub(b, c), fsub(a, b)) == fsub(a, c),
{
    let m = modulus() as int;
    let (x, y, z) = (a as int, b as int, c as int);
    lemma_mod_bound(y - z, m);
    lemma_mod_bound(x - y, m);
    lemma_add_mod_noop(y - z, x - y, m);
    assert((y - z) + (x - y) == x - z);
}

/// Distinct reduced values have a non-zero difference.
pub proof fn lemma_fsub_nonzero(x: nat, a: nat)
    requires
        x < modulus(),
        a < modulus(),
        x != a,
    ensures
        fsub(x, a) != 0,
{
    let m = modulus() as int;
    if x > a {
        lemma_small_mod((x - a) as nat, modulus());
    } else {
        lemma_mod_add_multiples_vanish(x - a, m);
        lemma_small_mod((x - a + m) as nat, modulus());
    }
}

/// A product with an invertible factor is zero only if the other factor is.
pub proof fn lemma_mul_cancel(u: nat, v: nat, w: nat)
    requires
        is_inverse(u, w),
        fmul(u, v) == 0,
    ensures
        v % modulus() == 0,
{
    lemma_mul_zero(w);
    lemma_mul_assoc(w, u, v);
    lemma_mul_comm(w, u);
    lemma_mul_mod_noop_left(fmul(u, w) as int, v as int, modulus() as int);
    lemma_small_mod(1, modulus());
}

/// `a - a == 0`, whatever `a`.
pub proof fn lemma_sub_self(a: nat)
    ensures
        fsub(a, a) == 0,
{
    lemma_small_mod(0, modulus());
}

} // verus!
