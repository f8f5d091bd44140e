//! What the server reports about a document.

use crate::json::{Json, JsonView};
use crate::text::Range;
use vstd::prelude::*;

verus! {

#[derive(Debug, Clone, Copy, PartialEq, Eq, Structural)]
pub enum Severity {
    Error,
    Warning,
}

#[derive(Debug)]
pub struct Diagnostic {
    pub range: Range,
    pub severity: Severity,
    pub code: String,
    pub source: String,
    pub message: String,
    pub data: Option<Json>,
}

/// What a [`Diagnostic`] holds.
pub struct DiagnosticView {
    pub range: Range,
    pub severity: Severity,
    pub code: Seq<char>,
    pub source: Seq<char>,
    pub message: Seq<char>,
    pub data: Option<JsonView>,
}

impl DeepView for Diagnostic {
    type V = DiagnosticView;

    open spec fn deep_view(&self) -> DiagnosticView {
        DiagnosticView {
            range: self.range,
            severity: self.severity,
            code: self.code@,
            source: self.source@,
            message: self.message@,
            data: self.data.deep_view(),
        }
    }
}

/// The diagnostics of a document, in the order in which they were found.
#[derive(Debug)]
pub struct AstErrors(pub Vec<Diagnostic>);

impl AstErrors {
    pub fn new() -> (r: Self)
        ensures
            r.0.deep_view() == Seq::<DiagnosticView>::empty(),
    {
        let r = AstErrors(Vec::new());
        assert(r.0.deep_view() =~= Seq::<DiagnosticView>::empty());
        r
    }

    /// Adds a diagnostic at the end.
    pub fn add_diagnostic(&mut self, diagnostic: Diagnostic)
        ensures
            final(self).0.deep_view() == old(self).0.deep_view().push(diagnostic.deep_view()),
    {
        self.0.push(diagnostic);
        assert(self.0.deep_view() =~= old(self).0.deep_view().push(diagnostic.deep_view()));
    }
}

} // verus!
