use diag_lang::Severity;

#[test]
fn test_as_str_matches_each_level() {
    assert_eq!(Severity::Error.as_str(), "error");
    assert_eq!(Severity::Warning.as_str(), "warning");
    assert_eq!(Severity::Note.as_str(), "note");
    assert_eq!(Severity::Help.as_str(), "help");
}

#[test]
fn test_display_equals_as_str() {
    assert_eq!(Severity::Error.to_string(), "error");
    assert_eq!(Severity::Note.to_string(), "note");
}

#[test]
fn test_order_runs_most_to_least_serious() {
    assert!(Severity::Error < Severity::Warning);
    assert!(Severity::Warning < Severity::Note);
    assert!(Severity::Note < Severity::Help);
}
