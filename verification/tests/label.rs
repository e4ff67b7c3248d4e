use diag_lang::{Label, Span};

#[test]
fn test_new_stores_span_and_message() {
    let label = Label::new(Span::new(2, 6), "msg");
    assert_eq!(label.span(), Span::new(2, 6));
    assert_eq!(label.message(), "msg");
}

#[test]
fn test_unlabelled_has_empty_message() {
    let label = Label::unlabelled(Span::new(4, 4));
    assert_eq!(label.span(), Span::new(4, 4));
    assert_eq!(label.message(), "");
}

#[test]
fn label_test_message_accepts_owned_string() {
    let label = Label::new(Span::new(0, 1), String::from("owned"));
    assert_eq!(label.message(), "owned");
}
