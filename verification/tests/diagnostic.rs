use diag_lang::{Diagnostic, Label, Severity, Span};

#[test]
fn test_new_exposes_all_three_fields() {
    let diag = Diagnostic::new(
        Severity::Error,
        "type mismatch",
        Label::new(Span::new(8, 11), "here"),
    );
    assert_eq!(diag.severity(), Severity::Error);
    assert_eq!(diag.message(), "type mismatch");
    assert_eq!(diag.primary().span(), Span::new(8, 11));
    assert_eq!(diag.primary().message(), "here");
}

#[test]
fn diagnostic_test_message_accepts_owned_string() {
    let diag = Diagnostic::new(
        Severity::Note,
        String::from("owned message"),
        Label::unlabelled(Span::empty(0)),
    );
    assert_eq!(diag.message(), "owned message");
}
