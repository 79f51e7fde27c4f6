use spm_ocr::cancel::{cancellation_outcome, CancellationToken, Cancelled};

#[test]
fn reports_cancellation_after_cancel() {
    let token = CancellationToken::default();

    assert!(token.check().is_ok());
    token.cancel();

    assert_eq!(token.check(), Err(Cancelled));
}

#[test]
fn a_clone_sees_the_cancellation() {
    let token = CancellationToken::default();
    let handler_token = token.clone();
    assert!(!token.is_cancelled());

    handler_token.cancel();

    assert!(token.is_cancelled());
    assert_eq!(token.check(), Err(Cancelled));
}

#[test]
fn the_outcome_follows_the_flag() {
    assert_eq!(cancellation_outcome(false), Ok(()));
    assert_eq!(cancellation_outcome(true), Err(Cancelled));
    assert_eq!(Cancelled.message(), "interrupted");
}
