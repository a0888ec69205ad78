use std::marker::PhantomData;

use whir::field::Fp;
use whir::parameters::{
    default_max_pow, FoldType, MultivariateParameters, SoundnessType, WhirParameters,
};

#[test]
fn default_max_pow_concrete() {
    assert_eq!(default_max_pow(10, 3), 10);
    assert_eq!(default_max_pow(20, 1), 18);
}

#[test]
fn soundness_type_names_round_trip() {
    for s in [
        SoundnessType::UniqueDecoding,
        SoundnessType::ProvableList,
        SoundnessType::ConjectureList,
    ] {
        assert_eq!(SoundnessType::from_str(s.as_str()), Some(s));
    }
    assert_eq!(SoundnessType::from_str("ProvableList"), Some(SoundnessType::ProvableList));
    assert_eq!(SoundnessType::from_str("something else"), None);
}

#[test]
fn fold_type_names_round_trip() {
    for f in [FoldType::Naive, FoldType::ProverHelps] {
        assert_eq!(FoldType::from_str(f.as_str()), Some(f));
    }
    assert_eq!(FoldType::from_str("Naive"), Some(FoldType::Naive));
    assert_eq!(FoldType::from_str("naive"), None);
}

#[test]
fn parameter_records_construct_and_clone() {
    let mv = MultivariateParameters::<Fp>::new(12);
    let _mv2 = mv.clone();

    let params: WhirParameters<()> = WhirParameters {
        starting_log_inv_rate: 1,
        folding_factor: 4,
        soundness_type: SoundnessType::ConjectureList,
        security_level: 100,
        pow_bits: 16,
        fold_optimisation: FoldType::ProverHelps,
        _pow_parameters: PhantomData,
    };
    let copy = params.clone();
    assert_eq!(copy.starting_log_inv_rate, 1);
    assert_eq!(copy.folding_factor, 4);
    assert_eq!(copy.security_level, 100);
    assert_eq!(copy.pow_bits, 16);
    assert!(matches!(copy.soundness_type, SoundnessType::ConjectureList));
    assert!(matches!(copy.fold_optimisation, FoldType::ProverHelps));
}
