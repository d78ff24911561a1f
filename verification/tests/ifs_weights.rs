use tma_engine::geometry::check_weights;
use tma_engine::{IFSBuildError, WeightStatus};

#[test]
fn ifs_rejects_negative_probabilities() {
    // weights 0.5 and -0.1: the second one is negative
    let result = check_weights(&[WeightStatus::Usable, WeightStatus::Invalid], true);
    assert_eq!(result, Err(IFSBuildError::InvalidProbabilities));
}

#[test]
fn empty_weight_list_is_refused() {
    assert_eq!(check_weights(&[], true), Err(IFSBuildError::Empty));
}

#[test]
fn missing_weight_is_reported() {
    let result = check_weights(&[WeightStatus::Usable, WeightStatus::Missing], true);
    assert_eq!(result, Err(IFSBuildError::MissingProbability));
}

#[test]
fn first_unusable_weight_decides() {
    let result = check_weights(
        &[WeightStatus::Invalid, WeightStatus::Missing, WeightStatus::Usable],
        true,
    );
    assert_eq!(result, Err(IFSBuildError::InvalidProbabilities));
    let result = check_weights(&[WeightStatus::Missing, WeightStatus::Invalid], false);
    assert_eq!(result, Err(IFSBuildError::MissingProbability));
}

#[test]
fn total_must_be_usable_when_all_weights_are() {
    let weights = [WeightStatus::Usable, WeightStatus::Usable];
    assert_eq!(check_weights(&weights, false), Err(IFSBuildError::InvalidProbabilities));
    assert_eq!(check_weights(&weights, true), Ok(()));
}

#[test]
fn error_messages() {
    assert_eq!(IFSBuildError::Empty.message(), "IFS cannot be empty.");
    assert_eq!(
        IFSBuildError::MissingProbability.message(),
        "All TMAs in an IFS must have a probability for stochastic generation."
    );
    assert_eq!(
        IFSBuildError::InvalidProbabilities.message(),
        "Probability values must be finite and sum to a positive value."
    );
}
