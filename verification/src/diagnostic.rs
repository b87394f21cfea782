//! What the extraction could not use, told as values for the caller to report.

use vstd::prelude::*;

verus! {

/// One thing that was skipped, and why. None of them stops an extraction.
#[derive(Debug, PartialEq, Eq)]
pub enum Diagnostic {
    /// The pattern engine refused the link pattern: nothing was scanned.
    Pattern { reason: String },
    /// A match that is neither an absolute location nor a relative one.
    Link { link: String, reason: String },
    /// A path that could not be joined to the base location.
    Join { path: String, reason: String },
}

/// A `Diagnostic` as plain text.
pub enum DiagnosticView {
    Pattern { reason: Seq<char> },
    Link { link: Seq<char>, reason: Seq<char> },
    Join { path: Seq<char>, reason: Seq<char> },
}

impl View for Diagnostic {
    type V = DiagnosticView;

    open spec fn view(&self) -> DiagnosticView {
        match self {
            Diagnostic::Pattern { reason } => DiagnosticView::Pattern { reason: reason@ },
            Diagnostic::Link { link, reason } => DiagnosticView::Link {
                link: link@,
                reason: reason@,
            },
            Diagnostic::Join { path, reason } => DiagnosticView::Join {
                path: path@,
                reason: reason@,
            },
        }
    }
}

impl DeepView for Diagnostic {
    type V = DiagnosticView;

    open spec fn deep_view(&self) -> DiagnosticView {
        self@
    }
}

impl DiagnosticView {
    /// The sentence that reports this diagnostic: what failed, then why.
    pub open spec fn message(self) -> Seq<char> {
        match self {
            DiagnosticView::Pattern { reason } => "Could not compile the link pattern: "@ + reason,
            DiagnosticView::Link { link, reason } => "Could not parse given url: "@ + reason,
            DiagnosticView::Join { path, reason } => "Could not join given url to the base url: "@
                + reason,
        }
    }
}

impl Diagnostic {
    /// The sentence that reports this diagnostic: what failed, then why.
    pub fn message(&self) -> (text: String)
        ensures
            text@ == self@.message(),
    {
        match self {
            Diagnostic::Pattern { reason } => {
                String::from_str("Could not compile the link pattern: ").concat(reason.as_str())
            },
            Diagnostic::Link { link, reason } => {
                String::from_str("Could not parse given url: ").concat(reason.as_str())
            },
            Diagnostic::Join { path, reason } => {
                String::from_str("Could not join given url to the base url: ").concat(
                    reason.as_str(),
                )
            },
        }
    }
}

} // verus!
