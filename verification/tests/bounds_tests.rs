use smrk_probe::bounds::validate_matvec_args;
use smrk_probe::bounds::validate_probe_args;
use smrk_probe::bounds::EngineError;

#[test]
fn matvec_rejects_zero_size() {
    assert_eq!(validate_matvec_args(0, 10, 0), Err(EngineError::InvalidArgument));
}

#[test]
fn matvec_rejects_size_over_policy() {
    assert_eq!(validate_matvec_args(50_001, 10, 50_001), Err(EngineError::InvalidArgument));
}

#[test]
fn matvec_rejects_length_mismatch() {
    assert_eq!(validate_matvec_args(10, 10, 9), Err(EngineError::InvalidArgument));
    assert_eq!(validate_matvec_args(10, 10, 11), Err(EngineError::InvalidArgument));
}

#[test]
fn matvec_rejects_cutoff_over_policy() {
    assert_eq!(validate_matvec_args(10, 1_000_001, 10), Err(EngineError::InvalidArgument));
}

#[test]
fn matvec_accepts_extreme_valid_arguments() {
    assert_eq!(validate_matvec_args(1, 0, 1), Ok(()));
    assert_eq!(validate_matvec_args(50_000, 1_000_000, 50_000), Ok(()));
}

#[test]
fn probe_rejects_zero_and_excess_trials() {
    assert_eq!(validate_probe_args(10, 0), Err(EngineError::InvalidArgument));
    assert_eq!(validate_probe_args(10, 201), Err(EngineError::InvalidArgument));
}

#[test]
fn probe_rejects_bad_sizes() {
    assert_eq!(validate_probe_args(0, 10), Err(EngineError::InvalidArgument));
    assert_eq!(validate_probe_args(20_001, 10), Err(EngineError::InvalidArgument));
}

#[test]
fn probe_accepts_extreme_valid_arguments() {
    assert_eq!(validate_probe_args(1, 1), Ok(()));
    assert_eq!(validate_probe_args(20_000, 200), Ok(()));
}
