use xstream_util::{exit_result, Error};

#[test]
fn zero_exit_is_success() {
    assert!(exit_result(Some(0)).is_ok());
}

#[test]
fn nonzero_exit_reports_its_code() {
    assert!(matches!(exit_result(Some(3)), Err(Error::NonZeroExitCode(3))));
    assert!(matches!(exit_result(Some(-1)), Err(Error::NonZeroExitCode(-1))));
}

#[test]
fn no_code_means_signal() {
    assert!(matches!(exit_result(None), Err(Error::KilledBySignal)));
}
