//! Relations between a structure, an instance and a witness, and their
//! composition.
use vstd::prelude::*;

verus! {

/// A relation between a structure, an instance and a witness.
pub trait Relation {
    type Structure;
    type Instance;
    type Witness;

    /// The triples in the relation.
    spec fn holds(structure: Self::Structure, instance: Self::Instance, witness: Self::Witness) -> bool;

    /// The triples the relation can be checked on at all (a witness of
    /// the shape the structure asks for, for instance).
    spec fn admits(structure: Self::Structure, instance: Self::Instance, witness: Self::Witness) -> bool;

    fn check(structure: &Self::Structure, instance: &Self::Instance, witness: &Self::Witness) -> (r:
        bool)
        requires
            Self::admits(*structure, *instance, *witness),
        ensures
            r == Self::holds(*structure, *instance, *witness),
    ;
}

/// The unit relation, which holds of its one triple.
impl Relation for () {
    type Structure = ();

    type Instance = ();

    type Witness = ();

    open spec fn holds(structure: (), instance: (), witness: ()) -> bool {
        true
    }

    open spec fn admits(structure: (), instance: (), witness: ()) -> bool {
        true
    }

    fn check(structure: &(), instance: &(), witness: &()) -> (r: bool) {
        true
    }
}

/// The compound relation `(R1, R2)` is `R1`, with the structures of both
/// `R1` and `R2`.
pub struct CompoundRelation<R1, R2>(R1, R2);

impl<R1: Relation, R2: Relation> Relation for CompoundRelation<R1, R2> {
    type Structure = (R1::Structure, R2::Structure);

    type Instance = R1::Instance;

    type Witness = R1::Witness;

    open spec fn holds(
        structure: (R1::Structure, R2::Structure),
        instance: R1::Instance,
        witness: R1::Witness,
    ) -> bool {
        R1::holds(structure.0, instance, witness)
    }

    open spec fn admits(
        structure: (R1::Structure, R2::Structure),
        instance: R1::Instance,
        witness: R1::Witness,
    ) -> bool {
        R1::admits(structure.0, instance, witness)
    }

    fn check(
        structure: &(R1::Structure, R2::Structure),
        instance: &R1::Instance,
        witness: &R1::Witness,
    ) -> (r: bool) {
        R1::check(&structure.0, instance, witness)
    }
}

/// The keys of two reductions run one after the other.
pub struct CompoundKey<A, B> {
    pub a_key: A,
    pub b_key: B,
}

/// The error of one of two reductions run one after the other.
#[derive(Clone, Copy, Debug)]
pub enum CompoundError<A, B> {
    ErrorInA(A),
    ErrorInB(B),
}

} // verus!
