use lilium_sumcheck::field::{batch_inversion, Scalar};
use lilium_sumcheck::sponge::{Sponge, SpongeBuilder, SpongeError};

fn s(x: u64) -> Scalar {
    Scalar::from_u64(x)
}

/// The modulus minus one, in limbs.
const MINUS_ONE: [u64; 4] = [0x992d30ed00000000, 0x224698fc094cf91b, 0, 0x4000000000000000];

#[test]
fn add_and_mul_small_values() {
    let a = s(3);
    let b = s(5);
    assert!(a.add(&b).equals(&s(8)));
    assert!(a.mul(&b).equals(&s(15)));
    assert_eq!(a.square(), s(9));
    assert_eq!(a.double(), s(6));
}

#[test]
fn subtraction_wraps_around() {
    let minus_one = Scalar::from_limbs(MINUS_ONE).unwrap();
    assert_eq!(s(2).sub(&s(3)), minus_one);
    assert_eq!(s(1).neg(), minus_one);
    assert_eq!(minus_one.add(&s(1)), Scalar::zero());
    // (-1) * (-1) = 1
    assert_eq!(minus_one.mul(&minus_one), Scalar::one());
}

#[test]
fn limbs_below_the_modulus_only() {
    let mut modulus = MINUS_ONE;
    modulus[0] += 1;
    assert!(Scalar::from_limbs(modulus).is_none());
    assert_eq!(Scalar::from_limbs([7, 0, 0, 0]).unwrap(), s(7));
    assert_eq!(s(7).to_limbs(), [7, 0, 0, 0]);
}

#[test]
fn inverses() {
    assert!(Scalar::zero().inverse().is_none());
    let inv = s(4).inverse().unwrap();
    assert_ne!(inv, s(4));
    assert_eq!(inv.mul(&s(4)), Scalar::one());
    assert_eq!(s(12).div(&s(4)), s(3));
    assert_eq!(s(12).div(&Scalar::zero()), Scalar::zero());
    assert_eq!(s(3).pow(4), s(81));
    assert_eq!(s(3).pow(0), Scalar::one());
}

#[test]
fn batch_inversion_inverts_each_entry() {
    let mut v = vec![s(2), Scalar::zero(), s(5)];
    batch_inversion(&mut v);
    assert_eq!(v[0].mul(&s(2)), Scalar::one());
    assert_eq!(v[1], Scalar::zero());
    assert_eq!(v[2].mul(&s(5)), Scalar::one());
}

#[test]
fn sponge_follows_its_pattern() {
    let builder = SpongeBuilder::new().absorb(2).squeeze(1);
    let mut sponge = Sponge::from_builder(&builder);
    assert!(matches!(sponge.squeeze(), Err(SpongeError::UnexpectedSqueeze)));
    sponge.absorb(&s(1)).unwrap();
    sponge.absorb(&s(2)).unwrap();
    assert!(matches!(sponge.absorb(&s(3)), Err(SpongeError::UnexpectedAbsorb)));
    let out = sponge.squeeze().unwrap();
    assert_ne!(out, s(1));
    assert!(sponge.finish().is_ok());
}

#[test]
fn unfinished_sponge_is_refused() {
    let builder = SpongeBuilder::new().absorb(1).squeeze(1);
    let mut sponge = Sponge::from_builder(&builder);
    sponge.absorb(&s(1)).unwrap();
    assert!(matches!(sponge.finish(), Err(SpongeError::UnfinishedPattern)));
}

#[test]
fn sponge_is_deterministic() {
    let builder = SpongeBuilder::new().absorb(1).squeeze(2);
    let mut a = Sponge::from_builder(&builder);
    let mut b = Sponge::from_builder(&builder);
    a.absorb(&s(42)).unwrap();
    b.absorb(&s(42)).unwrap();
    assert_eq!(a.squeeze().unwrap(), b.squeeze().unwrap());
    assert_eq!(a.squeeze().unwrap(), b.squeeze().unwrap());
}
