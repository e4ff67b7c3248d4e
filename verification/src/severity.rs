//! The level a diagnostic reports at.
use core::cmp::Ordering;
use vstd::prelude::*;
use vstd::std_specs::cmp::{PartialOrdSpec, PartialOrdSpecImpl};
use vstd::string::*;

verus! {

/// The level a diagnostic reports at: how serious it is and the word that
/// heads its rendering.
///
/// The four levels are ordered from most to least serious, so a batch of
/// diagnostics sorts with the errors first: `Error < Warning < Note < Help`.
#[derive(Clone, Copy, Debug, PartialEq, Eq, Structural, Ord, Hash)]
pub enum Severity {
    /// A hard failure: the input is wrong and cannot be accepted as-is.
    Error,
    /// A suspicious construct that is still accepted, but worth flagging.
    Warning,
    /// Neutral context attached to a diagnostic.
    Note,
    /// A suggestion that points the reader toward a fix.
    Help,
}

/// The lowercase word that heads a rendered diagnostic of level `s`.
pub open spec fn severity_word(s: Severity) -> Seq<char> {
    match s {
        Severity::Error => "error"@,
        Severity::Warning => "warning"@,
        Severity::Note => "note"@,
        Severity::Help => "help"@,
    }
}

/// The position of `s` from most serious (`0`) to least serious (`3`).
pub open spec fn seriousness_rank(s: Severity) -> nat {
    match s {
        Severity::Error => 0,
        Severity::Warning => 1,
        Severity::Note => 2,
        Severity::Help => 3,
    }
}

impl Severity {
    /// Returns the lowercase word that heads a rendered diagnostic of this
    /// level: `"error"`, `"warning"`, `"note"` or `"help"`.
    pub fn as_str(self) -> (word: &'static str)
        ensures
            word@ == severity_word(self),
    {
        match self {
            Severity::Error => "error",
            Severity::Warning => "warning",
            Severity::Note => "note",
            Severity::Help => "help",
        }
    }

    /// The word of [`as_str`](Severity::as_str) as an owned string, the text
    /// this level displays as.
    pub fn to_string(&self) -> (word: String)
        ensures
            word@ == severity_word(*self),
    {
        String::from_str(self.as_str())
    }
}

/// Compares two levels by seriousness.
pub open spec fn compare_seriousness(a: Severity, b: Severity) -> Option<Ordering> {
    if seriousness_rank(a) < seriousness_rank(b) {
        Some(Ordering::Less)
    } else if seriousness_rank(a) > seriousness_rank(b) {
        Some(Ordering::Greater)
    } else {
        Some(Ordering::Equal)
    }
}

impl Severity {
    /// The level's position from most serious (`0`) to least serious (`3`).
    fn rank(self) -> (r: u8)
        ensures
            r == seriousness_rank(self),
    {
        match self {
            Severity::Error => 0,
            Severity::Warning => 1,
            Severity::Note => 2,
            Severity::Help => 3,
        }
    }
}

impl PartialOrd for Severity {
    fn partial_cmp(&self, other: &Severity) -> (r: Option<Ordering>) {
        let a = self.rank();
        let b = other.rank();
        if a < b {
            Some(Ordering::Less)
        } else if a > b {
            Some(Ordering::Greater)
        } else {
            Some(Ordering::Equal)
        }
    }
}

impl PartialOrdSpecImpl for Severity {
    open spec fn obeys_partial_cmp_spec() -> bool {
        true
    }

    open spec fn partial_cmp_spec(&self, other: &Severity) -> Option<Ordering> {
        compare_seriousness(*self, *other)
    }
}

/// Levels order from most to least serious, so that errors sort first:
/// `a` comes before `b` exactly when `a` is the more serious.
pub proof fn law_severity_orders_by_seriousness(a: Severity, b: Severity)
    ensures
        (PartialOrdSpec::partial_cmp_spec(&a, &b) == Some(Ordering::Less)) == (seriousness_rank(a)
            < seriousness_rank(b)),
        (PartialOrdSpec::partial_cmp_spec(&a, &b) == Some(Ordering::Equal)) == (a == b),
        seriousness_rank(Severity::Error) < seriousness_rank(Severity::Warning),
        seriousness_rank(Severity::Warning) < seriousness_rank(Severity::Note),
        seriousness_rank(Severity::Note) < seriousness_rank(Severity::Help),
{
}

} // verus!
