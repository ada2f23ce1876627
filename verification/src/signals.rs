//! Signals: derived findings that link a fix to the feature or refactor
//! commit that likely caused it.
use vstd::prelude::*;

verus! {

/// The kinds of causal signal the detectors emit.
#[derive(Clone, Copy, Debug, PartialEq, Eq, Structural)]
pub enum SignalKind {
    /// A fix shortly after a feature touching shared files.
    FixAfterFeat,
    /// A fix shortly after a refactor touching shared files.
    FixAfterRefactor,
}

/// One emitted signal. The severity is an exact rational in `[0, 1]`:
/// `severity_num / severity_den`.
pub struct Signal {
    /// What kind of linkage was found.
    pub kind: SignalKind,
    /// Severity numerator.
    pub severity_num: u64,
    /// Severity denominator; always positive and at least the numerator.
    pub severity_den: u64,
    /// A human-readable one-liner.
    pub message: String,
    /// The short hashes involved, older commit first.
    pub commits: Vec<String>,
    /// The shared file paths that justify the link.
    pub files: Vec<String>,
}

/// The mathematical content of a `Signal`.
pub struct SignalView {
    /// The kind.
    pub kind: SignalKind,
    /// Severity numerator.
    pub severity_num: u64,
    /// Severity denominator.
    pub severity_den: u64,
    /// The message characters.
    pub message: Seq<char>,
    /// The short hashes involved.
    pub commits: Seq<Seq<char>>,
    /// The shared paths.
    pub files: Seq<Seq<char>>,
}

impl View for Signal {
    type V = SignalView;

    open spec fn view(&self) -> SignalView {
        SignalView {
            kind: self.kind,
            severity_num: self.severity_num,
            severity_den: self.severity_den,
            message: self.message@,
            commits: crate::text::str_views(self.commits@),
            files: crate::text::str_views(self.files@),
        }
    }
}

/// The views of a list of signals.
pub open spec fn signal_views(s: Seq<Signal>) -> Seq<SignalView> {
    s.map_values(|x: Signal| x@)
}

} // verus!
