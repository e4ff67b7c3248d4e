//! A span paired with the message that explains it.
use vstd::prelude::*;
use vstd::string::*;

use crate::span::Span;

verus! {

/// Text that a label or a diagnostic can take as its message: a `&str` or an
/// owned `String`.
pub trait IntoMessage {
    /// The characters the message consists of.
    spec fn message_chars(&self) -> Seq<char>;

    /// The message as an owned string.
    fn into_message(self) -> (s: String)
        ensures
            s@ == self.message_chars(),
    ;
}

impl IntoMessage for &str {
    open spec fn message_chars(&self) -> Seq<char> {
        (**self)@
    }

    fn into_message(self) -> (s: String) {
        String::from_str(self)
    }
}

impl IntoMessage for String {
    open spec fn message_chars(&self) -> Seq<char> {
        self@
    }

    fn into_message(self) -> (s: String) {
        self
    }
}

/// A [`Span`] plus the text that explains what is at that span. The message
/// may be empty: such a label marks a location without annotating it.
#[derive(Clone, Debug, PartialEq, Eq)]
pub struct Label {
    span: Span,
    message: String,
}

impl View for Label {
    type V = (Span, Seq<char>);

    closed spec fn view(&self) -> (Span, Seq<char>) {
        (self.span, self.message@)
    }
}

impl Label {
    /// A label covering `span`, explained by `message`.
    pub fn new<M: IntoMessage>(span: Span, message: M) -> (label: Label)
        ensures
            label@ == (span, message.message_chars()),
    {
        Label { span, message: message.into_message() }
    }

    /// A label that marks `span` with no text.
    pub fn unlabelled(span: Span) -> (label: Label)
        ensures
            label@ == (span, Seq::<char>::empty()),
    {
        Label { span, message: String::new() }
    }

    /// The span this label points at.
    pub fn span(&self) -> (span: Span)
        ensures
            span == self@.0,
    {
        self.span
    }

    /// The label's message, empty for an unlabelled label.
    pub fn message(&self) -> (message: &str)
        ensures
            message@ == self@.1,
    {
        self.message.as_str()
    }
}

} // verus!
