//! Oracles: where the multilinear polynomials of a sumcheck come from, and
//! the instance of the core oracle, whose small polynomials are given by
//! coefficients in the instance.
//!
//! The natures of the polynomials are listed in the order of a flattened
//! row; a polynomial that is not the core oracle's has no core nature.
use crate::algebra::views;
use crate::field::Scalar;
use crate::sumcheck::EvalLocation;
use vstd::prelude::*;

verus! {

/// Parameters of an oracle's instance.
#[derive(Clone, Copy, PartialEq, Eq, Structural, Debug)]
pub struct OracleParams {
    pub vars: usize,
}

/// One of two things.
#[derive(Clone, Copy, PartialEq, Eq, Structural, Debug)]
pub enum Either<A, B> {
    Left(A),
    Right(B),
}

/// The number of coefficients used to represent a small polynomial.
#[derive(Clone, Copy, PartialEq, Eq, Structural, Debug)]
pub enum Coeffs {
    /// No coefficients, for purely structural polynomials.
    Empty,
    /// A single element, typical of challenges.
    One,
    Two,
    OnePerVariable,
}

/// The nature of a polynomial of the core oracle.
#[derive(Clone, Copy, PartialEq, Eq, Structural, Debug)]
pub enum CoreNature {
    /// Fixed in the structure.
    SmallStructure,
    /// With that many coefficients in the instance.
    SmallInstance(usize),
    /// A challenge: one coefficient in the instance.
    Challenge,
}

/// The errors of a core oracle instance that does not fit the natures.
#[derive(Clone, Copy, PartialEq, Eq, Structural, Debug)]
pub enum CoreOracleError {
    MissingCoefficients,
    CoefficientsLength,
    UnexpectedCoefficients,
}

/// A small structure polynomial.
#[derive(Clone, Copy, PartialEq, Eq, Structural, Debug)]
pub struct SmallNature;

/// The instance of an oracle without polynomials.
#[derive(Clone, Copy, PartialEq, Eq, Structural, Debug)]
pub struct EmptyInstance;

impl EmptyInstance {
    /// Its field elements: none.
    pub fn to_field_elements(&self, params: &OracleParams) -> (r: Vec<Scalar>)
        ensures
            r@.len() == 0,
    {
        Vec::new()
    }
}

/// Where a polynomial of each nature lives.
pub open spec fn core_location(n: CoreNature) -> EvalLocation {
    match n {
        CoreNature::SmallStructure => EvalLocation::Structure,
        CoreNature::SmallInstance(_) => EvalLocation::Witness,
        CoreNature::Challenge => EvalLocation::Instance,
    }
}

pub fn core_nature_location(n: CoreNature) -> (r: EvalLocation)
    ensures
        r == core_location(n),
{
    match n {
        CoreNature::SmallStructure => EvalLocation::Structure,
        CoreNature::SmallInstance(_) => EvalLocation::Witness,
        CoreNature::Challenge => EvalLocation::Instance,
    }
}

/// A small structure polynomial lives in the structure.
pub fn small_nature_location(n: SmallNature) -> (r: EvalLocation)
    ensures
        r == EvalLocation::Structure,
{
    EvalLocation::Structure
}

/// The location of a nature of either of two oracles.
pub fn either_location<A, B, FA: Fn(A) -> EvalLocation, FB: Fn(B) -> EvalLocation>(
    value: Either<A, B>,
    left: FA,
    right: FB,
) -> (r: EvalLocation)
    requires
        value matches Either::Left(a) ==> left.requires((a,)),
        value matches Either::Right(b) ==> right.requires((b,)),
    ensures
        value matches Either::Left(a) ==> left.ensures((a,), r),
        value matches Either::Right(b) ==> right.ensures((b,), r),
{
    match value {
        Either::Left(a) => left(a),
        Either::Right(b) => right(b),
    }
}

/// The core nature of a nature of a composite oracle: the core oracle is
/// the right one.
pub fn core_of<A>(value: Either<A, CoreNature>) -> (r: Option<CoreNature>)
    ensures
        r == match value {
            Either::Left(_) => None,
            Either::Right(x) => Some(x),
        },
{
    match value {
        Either::Left(_) => None,
        Either::Right(x) => Some(x),
    }
}

/// The number of coefficient vectors a nature expects, and their length.
pub open spec fn expected_len(n: Option<CoreNature>) -> Option<nat> {
    match n {
        Some(CoreNature::SmallInstance(k)) => Some(k as nat),
        Some(CoreNature::Challenge) => Some(1),
        _ => None,
    }
}

/// The lengths of the coefficient vectors the natures expect, in order.
pub open spec fn expected_lens(natures: Seq<Option<CoreNature>>) -> Seq<nat>
    decreases natures.len(),
{
    if natures.len() == 0 {
        seq![]
    } else {
        expected_lens(natures.drop_last()) + match expected_len(natures.last()) {
            Some(k) => seq![k],
            None => seq![],
        }
    }
}

/// The check of the coefficient vectors against the expected lengths, from
/// the `k`-th on.
pub open spec fn core_check(expected: Seq<nat>, elements: Seq<Seq<nat>>, k: nat) -> Result<
    (),
    CoreOracleError,
>
    decreases expected.len() - k,
{
    if k >= expected.len() {
        if elements.len() > expected.len() {
            Err(CoreOracleError::UnexpectedCoefficients)
        } else {
            Ok(())
        }
    } else if k >= elements.len() {
        Err(CoreOracleError::MissingCoefficients)
    } else if elements[k as int].len() != expected[k as int] {
        Err(CoreOracleError::CoefficientsLength)
    } else {
        core_check(expected, elements, k + 1)
    }
}

/// The concatenation of the vectors.
pub open spec fn flatten_all(s: Seq<Seq<nat>>) -> Seq<nat>
    decreases s.len(),
{
    if s.len() == 0 {
        seq![]
    } else {
        flatten_all(s.drop_last()) + s.last()
    }
}

/// The total number of coefficients the natures expect.
pub open spec fn core_len(natures: Seq<Option<CoreNature>>) -> nat
    decreases natures.len(),
{
    if natures.len() == 0 {
        0
    } else {
        core_len(natures.drop_last()) + match expected_len(natures.last()) {
            Some(k) => k,
            None => 0,
        }
    }
}

/// The values of a vector of vectors of elements.
pub open spec fn nested_views(s: Seq<Vec<Scalar>>) -> Seq<Seq<nat>> {
    s.map_values(|v: Vec<Scalar>| views(v@))
}

/// The instance of the core oracle: the coefficients of its small
/// polynomials, one vector for each polynomial that expects some.
pub struct CoreOracleInstance {
    pub elements: Vec<Vec<Scalar>>,
}

impl CoreOracleInstance {
    /// The number of field elements of an instance for the given natures.
    pub fn len(natures: &Vec<Option<CoreNature>>) -> (r: usize)
        requires
            core_len(natures@) <= usize::MAX,
        ensures
            r == core_len(natures@),
    {
        let mut len: usize = 0;
        let mut i: usize = 0;
        while i < natures.len()
            invariant
                i <= natures@.len(),
                core_len(natures@) <= usize::MAX,
                len == core_len(natures@.take(i as int)),
            decreases natures@.len() - i,
        {
            proof {
                assert(natures@.take(i + 1).drop_last() =~= natures@.take(i as int));
                lemma_core_len_prefix(natures@, (i + 1) as nat);
            }
            let eval_len: usize = match natures[i] {
                Some(CoreNature::SmallStructure) => 0,
                Some(CoreNature::SmallInstance(coeffs)) => coeffs,
                Some(CoreNature::Challenge) => 1,
                None => 0,
            };
            len = len + eval_len;
            i = i + 1;
        }
        proof {
            assert(natures@.take(i as int) =~= natures@);
        }
        len
    }

    /// The field elements of the instance, once its coefficients are checked
    /// against the natures: each polynomial that expects coefficients takes
    /// the next vector, which must have the expected length, and no vector
    /// may be left over.
    pub fn to_field_elements(&self, natures: &Vec<Option<CoreNature>>) -> (r: Result<
        Vec<Scalar>,
        CoreOracleError,
    >)
        ensures
            match core_check(expected_lens(natures@), nested_views(self.elements@), 0) {
                Ok(()) => r matches Ok(v) && views(v@) == flatten_all(nested_views(self.elements@)),
                Err(e) => r == Err::<Vec<Scalar>, CoreOracleError>(e),
            },
            r matches Ok(v) ==> v@.len() == core_len(natures@),
    {
        let ghost els = nested_views(self.elements@);
        let mut next: usize = 0;
        let mut i: usize = 0;
        while i < natures.len()
            invariant
                i <= natures@.len(),
                els == nested_views(self.elements@),
                next == expected_lens(natures@.take(i as int)).len(),
                next <= self.elements@.len(),
                core_check(expected_lens(natures@), els, 0) == core_check(
                    expected_lens(natures@),
                    els,
                    next as nat,
                ),
                expected_lens(natures@.take(i as int)) == expected_lens(natures@).take(next as int),
            decreases natures@.len() - i,
        {
            proof {
                assert(natures@.take(i + 1).drop_last() =~= natures@.take(i as int));
                lemma_expected_lens_prefix(natures@, (i + 1) as nat);
            }
            let expected: Option<usize> = match natures[i] {
                Some(CoreNature::SmallInstance(coeffs)) => Some(coeffs),
                Some(CoreNature::Challenge) => Some(1),
                _ => None,
            };
            match expected {
                Some(k) => {
                    proof {
                        let pre = natures@.take(i as int);
                        let step = natures@.take(i + 1);
                        assert(step.last() == natures@[i as int]);
                        assert(step.drop_last() =~= pre);
                        assert(expected_lens(step) == expected_lens(pre) + seq![k as nat]);
                        assert(expected_lens(step)[next as int] == k);
                        assert(expected_lens(natures@)[next as int] == k);
                    }
                    if next >= self.elements.len() {
                        return Err(CoreOracleError::MissingCoefficients);
                    }
                    proof {
                        assert(els[next as int].len() == self.elements@[next as int]@.len());
                        assert(next < self.elements@.len());
                    }
                    if self.elements[next].len() != k {
                        return Err(CoreOracleError::CoefficientsLength);
                    }
                    next = next + 1;
                },
                None => {},
            }
            i = i + 1;
        }
        proof {
            assert(natures@.take(i as int) =~= natures@);
        }
        if next < self.elements.len() {
            return Err(CoreOracleError::UnexpectedCoefficients);
        }
        let r = flatten_elements(&self.elements);
        proof {
            lemma_accepted_len(natures@, els);
            assert(views(r@).len() == r@.len());
        }
        Ok(r)
    }
}

/// The index of the coefficient vector of the `i`-th polynomial: the number
/// of polynomials before it that expect one.
pub open spec fn coeff_index(natures: Seq<Option<CoreNature>>, i: int) -> int {
    expected_lens(natures.take(i)).len() as int
}

/// The next nature, seen by the walk over the natures: the expected lengths
/// of the first `i + 1` natures extend those of the first `i`.
proof fn lemma_expected_lens_step(natures: Seq<Option<CoreNature>>, i: int)
    requires
        0 <= i < natures.len(),
    ensures
        expected_lens(natures.take(i + 1)) == expected_lens(natures.take(i)) + match expected_len(
            natures[i],
        ) {
            Some(k) => seq![k],
            None => seq![],
        },
        expected_lens(natures.take(i)).len() <= expected_lens(natures).len(),
        expected_lens(natures.take(i + 1)).len() <= expected_lens(natures).len(),
        expected_lens(natures.take(i)) == expected_lens(natures).take(
            expected_lens(natures.take(i)).len() as int,
        ),
        expected_lens(natures.take(i + 1)) == expected_lens(natures).take(
            expected_lens(natures.take(i + 1)).len() as int,
        ),
{
    assert(natures.take(i + 1).drop_last() =~= natures.take(i));
    assert(natures.take(i + 1).last() == natures[i]);
    lemma_expected_lens_prefix(natures, i as nat);
    lemma_expected_lens_prefix(natures, (i + 1) as nat);
}

/// Splits the coefficient vectors among the polynomials: a polynomial
/// without core nature gets none, a small structure polynomial an empty
/// vector, the others the next vector.
pub fn decode(natures: &Vec<Option<CoreNature>>, coefficients: Vec<Vec<Scalar>>) -> (r: Vec<
    Option<Vec<Scalar>>,
>)
    requires
        core_check(expected_lens(natures@), nested_views(coefficients@), 0) is Ok,
    ensures
        r@.len() == natures@.len(),
        forall|i: int|
            0 <= i < natures@.len() ==> match #[trigger] natures@[i] {
                None => r@[i] is None,
                Some(CoreNature::SmallStructure) => r@[i] matches Some(v) && v@.len() == 0,
                Some(_) => r@[i] matches Some(v) && views(v@) == nested_views(
                    coefficients@,
                )[coeff_index(natures@, i)],
            },
{
    let ghost els = nested_views(coefficients@);
    let ghost e = expected_lens(natures@);
    let mut out: Vec<Option<Vec<Scalar>>> = Vec::new();
    let n_coeffs = coefficients.len();
    let mut next: usize = 0;
    let mut i: usize = 0;
    while i < natures.len()
        invariant
            n_coeffs == coefficients@.len(),
            i <= natures@.len(),
            els == nested_views(coefficients@),
            e == expected_lens(natures@),
            core_check(e, els, 0) is Ok,
            next == coeff_index(natures@, i as int),
            next <= coefficients@.len(),
            core_check(e, els, 0) == core_check(e, els, next as nat),
            expected_lens(natures@.take(i as int)) == e.take(next as int),
            out@.len() == i,
            forall|j: int|
                0 <= j < i ==> match #[trigger] natures@[j] {
                    None => out@[j] is None,
                    Some(CoreNature::SmallStructure) => out@[j] matches Some(v) && v@.len() == 0,
                    Some(_) => out@[j] matches Some(v) && views(v@) == els[coeff_index(natures@, j)],
                },
        decreases natures@.len() - i,
    {
        proof {
            lemma_expected_lens_step(natures@, i as int);
        }
        let item: Option<Vec<Scalar>> = match natures[i] {
            None => None,
            Some(CoreNature::SmallStructure) => Some(Vec::new()),
            Some(_) => {
                proof {
                    assert(expected_len(natures@[i as int]) is Some);
                    assert(next < e.len());
                    assert(core_check(e, els, next as nat) is Ok);
                    assert(next < els.len());
                    assert(next < coefficients@.len());
                }
                let v = copy_row(&coefficients[next]);
                next = next + 1;
                Some(v)
            },
        };
        out.push(item);
        i = i + 1;
    }
    out
}

/// A copy of a vector of elements.
fn copy_row(v: &Vec<Scalar>) -> (r: Vec<Scalar>)
    ensures
        r@ == v@,
{
    let mut out: Vec<Scalar> = Vec::new();
    let mut j: usize = 0;
    while j < v.len()
        invariant
            j <= v@.len(),
            out@ == v@.take(j as int),
        decreases v@.len() - j,
    {
        out.push(v[j]);
        proof {
            assert(out@ =~= v@.take(j + 1));
        }
        j = j + 1;
    }
    proof {
        assert(v@.take(j as int) =~= v@);
    }
    out
}

impl CoreOracleInstance {
    /// The values the instance gives the polynomials: a challenge its one
    /// coefficient, every other polynomial zero.
    pub fn instance_evals(&self, natures: &Vec<Option<CoreNature>>) -> (r: Vec<Scalar>)
        requires
            core_check(expected_lens(natures@), nested_views(self.elements@), 0) is Ok,
        ensures
            r@.len() == natures@.len(),
            forall|i: int|
                0 <= i < natures@.len() ==> #[trigger] r@[i]@ == if natures@[i] == Some(
                    CoreNature::Challenge,
                ) {
                    nested_views(self.elements@)[coeff_index(natures@, i)][0]
                } else {
                    0
                },
    {
        let ghost els = nested_views(self.elements@);
        let ghost e = expected_lens(natures@);
        let mut out: Vec<Scalar> = Vec::new();
        let n_coeffs = self.elements.len();
        let mut next: usize = 0;
        let mut i: usize = 0;
        while i < natures.len()
            invariant
                n_coeffs == self.elements@.len(),
                i <= natures@.len(),
                els == nested_views(self.elements@),
                e == expected_lens(natures@),
                core_check(e, els, 0) is Ok,
                next == coeff_index(natures@, i as int),
                next <= self.elements@.len(),
                core_check(e, els, 0) == core_check(e, els, next as nat),
                expected_lens(natures@.take(i as int)) == e.take(next as int),
                out@.len() == i,
                forall|j: int|
                    0 <= j < i ==> #[trigger] out@[j]@ == if natures@[j] == Some(
                        CoreNature::Challenge,
                    ) {
                        els[coeff_index(natures@, j)][0]
                    } else {
                        0
                    },
            decreases natures@.len() - i,
        {
            proof {
                lemma_expected_lens_step(natures@, i as int);
            }
            let value = match natures[i] {
                Some(CoreNature::SmallInstance(_)) => {
                    proof {
                        assert(next < e.len());
                        assert(core_check(e, els, next as nat) is Ok);
                        assert(next < els.len());
                        assert(next < self.elements@.len());
                    }
                    next = next + 1;
                    Scalar::zero()
                },
                Some(CoreNature::Challenge) => {
                    proof {
                        assert(next < e.len());
                        assert(e[next as int] == expected_lens(natures@.take(i + 1))[next as int]);
                        assert(core_check(e, els, next as nat) is Ok);
                        assert(next < els.len());
                        assert(els[next as int].len() == 1);
                        assert(els[next as int].len() == self.elements@[next as int]@.len());
                        assert(next < self.elements@.len());
                    }
                    let c = self.elements[next][0];
                    next = next + 1;
                    c
                },
                _ => Scalar::zero(),
            };
            out.push(value);
            i = i + 1;
        }
        out
    }
}

/// The concatenation of the vectors.
fn flatten_elements(elements: &Vec<Vec<Scalar>>) -> (r: Vec<Scalar>)
    ensures
        views(r@) == flatten_all(nested_views(elements@)),
{
    let mut out: Vec<Scalar> = Vec::new();
    let mut k: usize = 0;
    while k < elements.len()
        invariant
            k <= elements@.len(),
            views(out@) == flatten_all(nested_views(elements@).take(k as int)),
        decreases elements@.len() - k,
    {
        let ghost before = views(out@);
        let v = &elements[k];
        let mut j: usize = 0;
        while j < v.len()
            invariant
                j <= v@.len(),
                views(out@) == before + views(v@).take(j as int),
            decreases v@.len() - j,
        {
            let ghost prev = views(out@);
            out.push(v[j]);
            proof {
                assert(views(out@) =~= prev.push(v@[j as int]@));
                assert(views(out@) =~= before + views(v@).take(j + 1));
            }
            j = j + 1;
        }
        proof {
            assert(views(v@).take(j as int) =~= views(v@));
            assert(nested_views(elements@).take(k + 1).drop_last() =~= nested_views(elements@).take(
                k as int,
            ));
        }
        k = k + 1;
    }
    proof {
        assert(nested_views(elements@).take(k as int) =~= nested_views(elements@));
    }
    out
}

proof fn lemma_core_len_prefix(natures: Seq<Option<CoreNature>>, i: nat)
    requires
        i <= natures.len(),
    ensures
        core_len(natures.take(i as int)) <= core_len(natures),
    decreases natures.len() - i,
{
    if i < natures.len() {
        lemma_core_len_prefix(natures, i + 1);
        assert(natures.take((i + 1) as int).drop_last() =~= natures.take(i as int));
    } else {
        assert(natures.take(i as int) =~= natures);
    }
}

/// The expected lengths of a prefix of the natures are a prefix of theirs.
proof fn lemma_expected_lens_prefix(natures: Seq<Option<CoreNature>>, i: nat)
    requires
        i <= natures.len(),
    ensures
        expected_lens(natures.take(i as int)) == expected_lens(natures).take(
            expected_lens(natures.take(i as int)).len() as int,
        ),
        expected_lens(natures.take(i as int)).len() <= expected_lens(natures).len(),
    decreases natures.len() - i,
{
    if i < natures.len() {
        lemma_expected_lens_prefix(natures, i + 1);
        assert(natures.take((i + 1) as int).drop_last() =~= natures.take(i as int));
        let a = expected_lens(natures.take(i as int));
        let b = expected_lens(natures.take((i + 1) as int));
        assert(b.take(a.len() as int) =~= a);
        assert(expected_lens(natures).take(a.len() as int) =~= b.take(a.len() as int));
    } else {
        assert(natures.take(i as int) =~= natures);
        assert(expected_lens(natures).take(expected_lens(natures).len() as int) =~= expected_lens(
            natures,
        ));
    }
}

/// The sum of the values.
pub open spec fn seq_sum(s: Seq<nat>) -> nat
    decreases s.len(),
{
    if s.len() == 0 {
        0
    } else {
        seq_sum(s.drop_last()) + s.last()
    }
}

/// The expected lengths add up to the natures' total length.
proof fn lemma_expected_lens_sum(natures: Seq<Option<CoreNature>>)
    ensures
        seq_sum(expected_lens(natures)) == core_len(natures),
    decreases natures.len(),
{
    if natures.len() > 0 {
        lemma_expected_lens_sum(natures.drop_last());
        let pre = expected_lens(natures.drop_last());
        match expected_len(natures.last()) {
            Some(k) => {
                assert((pre + seq![k]).drop_last() =~= pre);
            },
            None => {
                assert(pre + Seq::<nat>::empty() =~= pre);
            },
        }
    }
}

/// Accepted coefficient vectors, from the `k`-th on, are as many as
/// expected, each of the expected length.
proof fn lemma_core_check_ok(expected: Seq<nat>, elements: Seq<Seq<nat>>, k: nat)
    requires
        core_check(expected, elements, k) is Ok,
    ensures
        elements.len() <= expected.len(),
        k < expected.len() ==> elements.len() >= expected.len(),
        forall|j: int| k <= j < expected.len() ==> (#[trigger] elements[j]).len() == expected[j],
    decreases expected.len() - k,
{
    if k < expected.len() {
        lemma_core_check_ok(expected, elements, k + 1);
    }
}

/// Vectors of the given lengths flatten to their total length.
proof fn lemma_flatten_len(lens: Seq<nat>, elements: Seq<Seq<nat>>)
    requires
        elements.len() == lens.len(),
        forall|j: int| 0 <= j < lens.len() ==> (#[trigger] elements[j]).len() == lens[j],
    ensures
        flatten_all(elements).len() == seq_sum(lens),
    decreases lens.len(),
{
    if lens.len() > 0 {
        lemma_flatten_len(lens.drop_last(), elements.drop_last());
        assert(elements[elements.len() - 1].len() == lens[lens.len() - 1]);
        assert(flatten_all(elements) == flatten_all(elements.drop_last()) + elements.last());
    }
}

/// Coefficients accepted for the natures flatten to the natures' total length.
proof fn lemma_accepted_len(natures: Seq<Option<CoreNature>>, elements: Seq<Seq<nat>>)
    requires
        core_check(expected_lens(natures), elements, 0) is Ok,
    ensures
        flatten_all(elements).len() == core_len(natures),
{
    lemma_core_check_ok(expected_lens(natures), elements, 0);
    lemma_flatten_len(expected_lens(natures), elements);
    lemma_expected_lens_sum(natures);
}

/// An instance's field elements, when its coefficients are accepted, are
/// as many as the natures expect, whatever the coefficients.
pub proof fn lemma_instance_len(x: CoreOracleInstance, natures: Seq<Option<CoreNature>>)
    requires
        core_check(expected_lens(natures), nested_views(x.elements@), 0) is Ok,
    ensures
        flatten_all(nested_views(x.elements@)).len() == core_len(natures),
{
    lemma_accepted_len(natures, nested_views(x.elements@));
}

} // verus!
