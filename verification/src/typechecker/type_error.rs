//! The errors of the checks and the words for them.

use crate::autocomplete::normalize_path;
use crate::autocomplete::normalize_path::{write_path, Component, NormalizePath};
use crate::diagnostic::{AstErrors, Diagnostic, DiagnosticView, Severity};
use crate::json::Json;
use crate::strings::{join2, join3};
use crate::text::Range;
use vstd::prelude::*;

verus! {

#[derive(Debug, Clone, Copy)]
pub enum Datatype {
    String,
    Number,
    Tween,
}

#[derive(Debug, Clone, Copy)]
pub enum CyclicKind<'a> {
    Internal,
    /// The chain of style sheets that leads back.
    External(&'a str),
}

#[allow(inconsistent_fields)]
#[derive(Debug, Clone, Copy)]
pub enum TypeError<'a> {
    /// A derived style sheet that does not exist, with its path from the root on.
    UnknownDerive { path: Option<&'a Vec<Component>> },
    CyclicDerive { kind: CyclicKind<'a> },
    InvalidType { expected: Option<Datatype> },
    InvalidTweenArg { expected: &'a str },
    InvalidSelector { msg: Option<&'a str> },
    InvalidMacroArg { msg: &'a str },
}

/// The text in quotes, escaped as `str`'s `Debug` does.
pub uninterp spec fn quoted_text(s: Seq<char>) -> Seq<char>;

/// Formats a string with `str`'s `Debug`: the text in quotes, with escapes.
#[verifier::external_body]
pub(crate) fn quoted(s: &str) -> (r: String)
    ensures
        r@ == quoted_text(s@),
{
    format!("{:?}", s)
}

impl Datatype {
    pub open spec fn text(self) -> &'static str {
        match self {
            Datatype::String => "string",
            Datatype::Number => "number",
            Datatype::Tween => "number or (number, EasingStyle?, EasingDirection?)",
        }
    }

    pub fn to_string(&self) -> (r: String)
        ensures
            r@ == self.text()@,
    {
        let text = match self {
            Datatype::String => "string",
            Datatype::Number => "number",
            Datatype::Tween => "number or (number, EasingStyle?, EasingDirection?)",
        };
        text.to_owned()
    }
}

impl<'a> TypeError<'a> {
    /// The message: the kind of the error, and the details where there are any.
    pub open spec fn text(self) -> Seq<char> {
        match self {
            TypeError::UnknownDerive { path } => match path {
                Some(path) => "Type Error (Unknown Derive): "@ + quoted_text(
                    normalize_path::written(normalize_path::normalized(path.deep_view())),
                ),
                None => "Type Error (Unknown Derive)"@,
            },
            TypeError::CyclicDerive { kind } => match kind {
                CyclicKind::Internal =>
                "Type Error (Cyclic Derive): Cannot derive the current Style Sheet."@,
                CyclicKind::External(chain) => "Type Error (Cyclic Derive): "@ + chain@,
            },
            TypeError::InvalidType { expected } => match expected {
                Some(expected) => "Type Error (Invalid Type): Expected type `"@ + expected.text()@
                    + "`."@,
                None => "Type Error (Invalid Type)"@,
            },
            TypeError::InvalidTweenArg { expected } =>
            "Type Error (Invalid Tween Argument): Expected `"@ + expected@ + "`."@,
            TypeError::InvalidSelector { msg } => match msg {
                Some(msg) => "Type Error (Invalid Selector): "@ + msg@,
                None => "Type Error (Invalid Selector)"@,
            },
            TypeError::InvalidMacroArg { msg } => "Type Error (Invalid Macro Argument): "@ + msg@,
        }
    }

    /// The code that names the kind of the error.
    pub open spec fn code(self) -> &'static str {
        match self {
            TypeError::UnknownDerive { .. } => "TYPE_ERROR(UNKNOWN_DERIVE)",
            TypeError::CyclicDerive { .. } => "TYPE_ERROR(CYCLIC_DERIVE)",
            TypeError::InvalidType { .. } => "TYPE_ERROR(INVALID_TYPE)",
            TypeError::InvalidTweenArg { .. } => "TYPE_ERROR(INVALID_TWEEN_ARG)",
            TypeError::InvalidSelector { .. } => "TYPE_ERROR(INVALID_SELECTOR)",
            TypeError::InvalidMacroArg { .. } => "TYPE_ERROR(INVALID_MACRO_ARG)",
        }
    }

    pub fn severity(&self) -> (r: Severity)
        ensures
            r == Severity::Error,
    {
        Severity::Error
    }

    pub fn message(&self) -> (r: String)
        ensures
            r@ == self.text(),
    {
        match self {
            TypeError::UnknownDerive { path } => match path {
                Some(path) => join2(
                    "Type Error (Unknown Derive): ",
                    quoted(write_path(&path.normalize()).as_str()).as_str(),
                ),
                None => "Type Error (Unknown Derive)".to_owned(),
            },
            TypeError::CyclicDerive { kind } => match kind {
                CyclicKind::Internal =>
                "Type Error (Cyclic Derive): Cannot derive the current Style Sheet.".to_owned(),
                CyclicKind::External(chain) => join2("Type Error (Cyclic Derive): ", chain),
            },
            TypeError::InvalidType { expected } => match expected {
                Some(expected) => join3(
                    "Type Error (Invalid Type): Expected type `",
                    expected.to_string().as_str(),
                    "`.",
                ),
                None => "Type Error (Invalid Type)".to_owned(),
            },
            TypeError::InvalidTweenArg { expected } => join3(
                "Type Error (Invalid Tween Argument): Expected `",
                expected,
                "`.",
            ),
            TypeError::InvalidSelector { msg } => match msg {
                Some(msg) => join2("Type Error (Invalid Selector): ", msg),
                None => "Type Error (Invalid Selector)".to_owned(),
            },
            TypeError::InvalidMacroArg { msg } => join2("Type Error (Invalid Macro Argument): ", msg),
        }
    }

    /// No error of the checks suggests a correction.
    pub fn data(&self) -> (r: Option<Json>)
        ensures
            r is None,
    {
        None
    }

    pub fn to_string(&self) -> (r: String)
        ensures
            r@ == self.code()@,
    {
        let code = match self {
            TypeError::UnknownDerive { .. } => "TYPE_ERROR(UNKNOWN_DERIVE)",
            TypeError::CyclicDerive { .. } => "TYPE_ERROR(CYCLIC_DERIVE)",
            TypeError::InvalidType { .. } => "TYPE_ERROR(INVALID_TYPE)",
            TypeError::InvalidTweenArg { .. } => "TYPE_ERROR(INVALID_TWEEN_ARG)",
            TypeError::InvalidSelector { .. } => "TYPE_ERROR(INVALID_SELECTOR)",
            TypeError::InvalidMacroArg { .. } => "TYPE_ERROR(INVALID_MACRO_ARG)",
        };
        code.to_owned()
    }
}

/// The diagnostic for an error of the checks, from its code and its message.
pub open spec fn type_diagnostic(code: Seq<char>, message: Seq<char>, range: Range) -> DiagnosticView {
    DiagnosticView {
        range,
        severity: Severity::Error,
        code,
        source: "RSML LSP"@,
        message,
        data: None,
    }
}

/// Reports errors of the checks.
pub trait PushTypeError {
    spec fn reported(&self) -> Seq<DiagnosticView>;

    fn push_type_error(&mut self, error: TypeError, range: Range)
        ensures
            final(self).reported() == old(self).reported().push(
                type_diagnostic(error.code()@, error.text(), range),
            ),
    ;
}

impl PushTypeError for AstErrors {
    open spec fn reported(&self) -> Seq<DiagnosticView> {
        self.0.deep_view()
    }

    fn push_type_error(&mut self, error: TypeError, range: Range) {
        self.add_diagnostic(
            Diagnostic {
                range,
                severity: error.severity(),
                code: error.to_string(),
                source: "RSML LSP".to_owned(),
                message: error.message(),
                data: error.data(),
            },
        );
    }
}

} // verus!
