//! The diagnostic: a severity, a message, the labels it points with, and the
//! notes that close it.
use vstd::prelude::*;

use crate::label::{IntoMessage, Label};
use crate::severity::Severity;
use crate::span::Span;

verus! {

/// What a diagnostic consists of.
pub struct DiagnosticView {
    pub severity: Severity,
    pub message: Seq<char>,
    pub primary: (Span, Seq<char>),
    pub secondary: Seq<(Span, Seq<char>)>,
    pub notes: Seq<Seq<char>>,
    pub help: Seq<Seq<char>>,
}

/// One thing a compiler stage has to say about the source: a [`Severity`], a
/// headline message, a primary [`Label`], optional secondary labels for
/// related locations, and trailing note and help lines.
#[derive(Clone, Debug, PartialEq, Eq)]
pub struct Diagnostic {
    severity: Severity,
    message: String,
    primary: Label,
    secondary: Vec<Label>,
    notes: Vec<String>,
    help: Vec<String>,
}

impl View for Diagnostic {
    type V = DiagnosticView;

    closed spec fn view(&self) -> DiagnosticView {
        DiagnosticView {
            severity: self.severity,
            message: self.message@,
            primary: self.primary@,
            secondary: self.secondary@.map_values(|l: Label| l@),
            notes: self.notes@.map_values(|s: String| s@),
            help: self.help@.map_values(|s: String| s@),
        }
    }
}

impl Diagnostic {
    /// A diagnostic at `severity`, headed by `message`, pointing at `primary`,
    /// with no secondary labels, notes or help.
    pub fn new<M: IntoMessage>(severity: Severity, message: M, primary: Label) -> (diag:
        Diagnostic)
        ensures
            diag@ == (DiagnosticView {
                severity,
                message: message.message_chars(),
                primary: primary@,
                secondary: Seq::empty(),
                notes: Seq::empty(),
                help: Seq::empty(),
            }),
    {
        let d = Diagnostic {
            severity,
            message: message.into_message(),
            primary,
            secondary: Vec::new(),
            notes: Vec::new(),
            help: Vec::new(),
        };
        assert(d@.secondary =~= Seq::empty());
        assert(d@.notes =~= Seq::empty());
        assert(d@.help =~= Seq::empty());
        d
    }

    /// Adds a secondary label, rendered with a `-` underline.
    pub fn with_secondary(self, label: Label) -> (diag: Diagnostic)
        ensures
            diag@ == (DiagnosticView { secondary: self@.secondary.push(label@), ..self@ }),
    {
        let mut d = self;
        let ghost l = label@;
        d.secondary.push(label);
        assert(d@.secondary =~= self@.secondary.push(l));
        d
    }

    /// Adds a trailing `note:` line.
    pub fn with_note<M: IntoMessage>(self, note: M) -> (diag: Diagnostic)
        ensures
            diag@ == (DiagnosticView { notes: self@.notes.push(note.message_chars()), ..self@ }),
    {
        let mut d = self;
        let ghost n = note.message_chars();
        d.notes.push(note.into_message());
        assert(d@.notes =~= self@.notes.push(n));
        d
    }

    /// Adds a trailing `help:` line.
    pub fn with_help<M: IntoMessage>(self, help: M) -> (diag: Diagnostic)
        ensures
            diag@ == (DiagnosticView { help: self@.help.push(help.message_chars()), ..self@ }),
    {
        let mut d = self;
        let ghost h = help.message_chars();
        d.help.push(help.into_message());
        assert(d@.help =~= self@.help.push(h));
        d
    }

    /// The level this diagnostic reports at.
    pub fn severity(&self) -> (severity: Severity)
        ensures
            severity == self@.severity,
    {
        self.severity
    }

    /// The headline message.
    pub fn message(&self) -> (message: &str)
        ensures
            message@ == self@.message,
    {
        self.message.as_str()
    }

    /// The primary label: the span the caret underlines.
    pub fn primary(&self) -> (primary: &Label)
        ensures
            primary@ == self@.primary,
    {
        &self.primary
    }

    /// The secondary labels, in the order they were added.
    pub fn secondary(&self) -> (labels: &[Label])
        ensures
            labels@.len() == self@.secondary.len(),
            forall|i: int|
                0 <= i < labels@.len() ==> #[trigger] labels@[i]@ == self@.secondary[i],
    {
        self.secondary.as_slice()
    }

    /// The note lines, in the order they were added.
    pub fn notes(&self) -> (notes: &[String])
        ensures
            notes@.len() == self@.notes.len(),
            forall|i: int| 0 <= i < notes@.len() ==> #[trigger] notes@[i]@ == self@.notes[i],
    {
        self.notes.as_slice()
    }

    /// The help lines, in the order they were added.
    pub fn help(&self) -> (help: &[String])
        ensures
            help@.len() == self@.help.len(),
            forall|i: int| 0 <= i < help@.len() ==> #[trigger] help@[i]@ == self@.help[i],
    {
        self.help.as_slice()
    }
}

} // verus!
