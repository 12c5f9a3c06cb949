use lilium_sumcheck::field::Scalar;
use lilium_sumcheck::oracles::{
    core_nature_location, core_of, decode, either_location, CoreNature, CoreOracleError,
    CoreOracleInstance, EmptyInstance, Either, OracleParams,
};
use lilium_sumcheck::polynomials::{MultiPoint, UnexpectedVars};
use lilium_sumcheck::sumcheck::EvalLocation;
use lilium_sumcheck::zerocheck::{zerocheck_location, ZerocheckNature};

fn s(x: u64) -> Scalar {
    Scalar::from_u64(x)
}

fn natures() -> Vec<Option<CoreNature>> {
    vec![
        Some(CoreNature::SmallStructure),
        Some(CoreNature::SmallInstance(2)),
        None,
        Some(CoreNature::Challenge),
    ]
}

#[test]
fn core_instance_counts_its_elements() {
    assert_eq!(CoreOracleInstance::len(&natures()), 3);
    assert_eq!(CoreOracleInstance::len(&vec![]), 0);
}

#[test]
fn core_instance_flattens_checked_coefficients() {
    let instance = CoreOracleInstance { elements: vec![vec![s(1), s(2)], vec![s(9)]] };
    assert_eq!(instance.to_field_elements(&natures()).unwrap(), vec![s(1), s(2), s(9)]);
}

#[test]
fn core_instance_errors() {
    let missing = CoreOracleInstance { elements: vec![vec![s(1), s(2)]] };
    assert!(matches!(
        missing.to_field_elements(&natures()),
        Err(CoreOracleError::MissingCoefficients)
    ));
    let wrong_len = CoreOracleInstance { elements: vec![vec![s(1)], vec![s(9)]] };
    assert!(matches!(
        wrong_len.to_field_elements(&natures()),
        Err(CoreOracleError::CoefficientsLength)
    ));
    let extra = CoreOracleInstance { elements: vec![vec![s(1), s(2)], vec![s(9)], vec![s(4)]] };
    assert!(matches!(
        extra.to_field_elements(&natures()),
        Err(CoreOracleError::UnexpectedCoefficients)
    ));
}

#[test]
fn core_instance_decodes_and_evaluates() {
    let elements = vec![vec![s(1), s(2)], vec![s(9)]];
    let decoded = decode(&natures(), elements.clone());
    assert_eq!(decoded.len(), 4);
    assert_eq!(decoded[0], Some(vec![]));
    assert_eq!(decoded[1], Some(vec![s(1), s(2)]));
    assert_eq!(decoded[2], None);
    assert_eq!(decoded[3], Some(vec![s(9)]));
    let instance = CoreOracleInstance { elements };
    assert_eq!(
        instance.instance_evals(&natures()),
        vec![s(0), s(0), s(0), s(9)]
    );
}

#[test]
fn natures_have_locations() {
    assert_eq!(core_nature_location(CoreNature::SmallStructure), EvalLocation::Structure);
    assert_eq!(core_nature_location(CoreNature::SmallInstance(3)), EvalLocation::Witness);
    assert_eq!(core_nature_location(CoreNature::Challenge), EvalLocation::Instance);
    let left: Either<CoreNature, CoreNature> = Either::Left(CoreNature::Challenge);
    assert_eq!(
        either_location(left, core_nature_location, core_nature_location),
        EvalLocation::Instance
    );
    assert_eq!(core_of(Either::<u8, CoreNature>::Left(3)), None);
    assert_eq!(
        core_of(Either::<u8, CoreNature>::Right(CoreNature::Challenge)),
        Some(CoreNature::Challenge)
    );
    assert_eq!(
        zerocheck_location(ZerocheckNature::<CoreNature>::Zerocheck, core_nature_location),
        EvalLocation::Witness
    );
    assert_eq!(
        zerocheck_location(ZerocheckNature::Inner(CoreNature::SmallStructure), core_nature_location),
        EvalLocation::Structure
    );
}

#[test]
fn points_and_empty_instances_as_messages() {
    let point = MultiPoint::new(vec![s(1), s(2)]);
    assert_eq!(point.to_field_elements(2).unwrap(), vec![s(1), s(2)]);
    assert!(matches!(point.to_field_elements(3), Err(UnexpectedVars)));
    assert!(EmptyInstance.to_field_elements(&OracleParams { vars: 4 }).is_empty());
}
