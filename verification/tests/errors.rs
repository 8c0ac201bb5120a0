//! Error message tests: the text each pipeline error carries.

use cloudmon_metrics::types::CloudMonError;

#[test]
fn test_error_display() {
    assert_eq!(
        CloudMonError::ServiceNotSupported.message(),
        "Requested service not supported"
    );
    assert_eq!(
        CloudMonError::EnvNotSupported.message(),
        "Environment for service not supported"
    );
    assert_eq!(
        CloudMonError::ExpressionError.message(),
        "Internal Expression evaluation error"
    );
    assert_eq!(CloudMonError::GraphiteError.message(), "Graphite error");
}

#[test]
fn test_error_debug() {
    // The diagnostic text equals the user-facing text, variant by variant.
    let cases = [
        (CloudMonError::ServiceNotSupported, "Requested service not supported"),
        (CloudMonError::EnvNotSupported, "Environment for service not supported"),
        (CloudMonError::ExpressionError, "Internal Expression evaluation error"),
        (CloudMonError::GraphiteError, "Graphite error"),
    ];
    for (err, text) in cases {
        assert_eq!(err.message(), text);
        assert_eq!(format!("{}", err.message()), text);
    }
}
