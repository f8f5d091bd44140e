//! The errors of the parser and the words for them.

use crate::diagnostic::{AstErrors, Diagnostic, DiagnosticView, Severity};
use crate::json;
use crate::json::{Json, JsonView};
use crate::strings::{chars_of, join2, join3};
use crate::text;
use crate::text::{byte_len, char_width, Range};
use vstd::prelude::*;

verus! {

#[derive(Debug, Clone, Copy)]
pub enum ParseErrorMessage<'a> {
    Expected(&'a str),
    NotAllowed { name: &'a str, context: Option<&'a str> },
    Correction { closest: Option<&'a str>, range: Range },
}

#[derive(Debug, Clone, Copy)]
pub enum TypeErrorKind {
    UnknownDerive,
}

#[allow(inconsistent_fields)]
#[derive(Debug, Clone, Copy)]
pub enum ParseError<'a> {
    UnexpectedTokens { msg: Option<ParseErrorMessage<'a>> },
    MissingToken { msg: Option<ParseErrorMessage<'a>> },
    TypeError { kind: TypeErrorKind, msg: Option<&'a str> },
    RedundantTokens { msg: Option<&'a str> },
}

/// The least number of insertions, deletions and substitutions that turn one string into
/// the other.
pub open spec fn edit_distance(a: Seq<char>, b: Seq<char>) -> nat
    decreases a.len() + b.len(),
{
    if a.len() == 0 {
        b.len()
    } else if b.len() == 0 {
        a.len()
    } else {
        let substitution = edit_distance(a.drop_last(), b.drop_last()) + if a.last() == b.last() {
            0nat
        } else {
            1nat
        };
        let deletion = edit_distance(a.drop_last(), b) + 1;
        let insertion = edit_distance(a, b.drop_last()) + 1;
        if substitution <= deletion && substitution <= insertion {
            substitution
        } else if deletion <= insertion {
            deletion
        } else {
            insertion
        }
    }
}

/// Calls `levenshtein::levenshtein`: the edit distance of two strings, by characters.
#[verifier::external_body]
fn levenshtein_distance(a: &str, b: &str) -> (r: usize)
    ensures
        r == edit_distance(a@, b@),
{
    levenshtein::levenshtein(a, b)
}

/// The characters of `name` that lie within its first `bytes` bytes.
pub open spec fn clipped(name: Seq<char>, bytes: int) -> Seq<char> {
    name.take(text::char_of_byte(name, bytes) as int)
}

/// How far a name is from a candidate: the distance from the candidate to the name, cut
/// to the candidate's length.
pub open spec fn distance_to(name: Seq<char>, candidate: Seq<char>) -> nat {
    edit_distance(clipped(name, text::utf8_len(candidate) as int), candidate)
}

/// The first of the candidates that are nearest to the name.
pub open spec fn closest(name: Seq<char>, candidates: Seq<&'static str>) -> Option<&'static str>
    decreases candidates.len(),
{
    if candidates.len() == 0 {
        None
    } else {
        match closest(name, candidates.drop_last()) {
            None => Some(candidates.last()),
            Some(best) => if distance_to(name, candidates.last()@) < distance_to(name, best@) {
                Some(candidates.last())
            } else {
                Some(best)
            },
        }
    }
}

/// The suggestion is one of the candidates, no candidate is nearer, and every candidate
/// in front of it is farther.
pub proof fn lemma_closest_is_first_nearest(name: Seq<char>, candidates: Seq<&'static str>)
    requires
        candidates.len() > 0,
    ensures
        closest(name, candidates) is Some,
        exists|i: int|
            0 <= i < candidates.len() && #[trigger] candidates[i] == closest(name, candidates)->0
                && forall|j: int|
                0 <= j < candidates.len() ==> distance_to(name, candidates[i]@) <= distance_to(
                    name,
                    #[trigger] candidates[j]@,
                ) && (j < i ==> distance_to(name, candidates[i]@) < distance_to(
                    name,
                    candidates[j]@,
                )),
    decreases candidates.len(),
{
    let front = candidates.drop_last();
    let n = candidates.len() - 1;
    if n == 0 {
        assert(candidates[0] == closest(name, candidates)->0);
    } else {
        lemma_closest_is_first_nearest(name, front);
        let i = choose|i: int|
            0 <= i < front.len() && #[trigger] front[i] == closest(name, front)->0 && forall|j: int|
                0 <= j < front.len() ==> distance_to(name, front[i]@) <= distance_to(
                    name,
                    #[trigger] front[j]@,
                ) && (j < i ==> distance_to(name, front[i]@) < distance_to(name, front[j]@));
        assert forall|j: int| 0 <= j < n implies #[trigger] candidates[j] == front[j] by {}
        if distance_to(name, candidates.last()@) < distance_to(name, front[i]@) {
            assert(candidates[n] == closest(name, candidates)->0);
            assert forall|j: int| 0 <= j < n implies distance_to(name, candidates[n]@)
                < distance_to(name, #[trigger] candidates[j]@) by {
                assert(front[j]@ == candidates[j]@);
            }
        } else {
            assert(candidates[i] == closest(name, candidates)->0);
            assert forall|j: int| 0 <= j < candidates.len() implies distance_to(
                name,
                candidates[i]@,
            ) <= distance_to(name, #[trigger] candidates[j]@) && (j < i ==> distance_to(
                name,
                candidates[i]@,
            ) < distance_to(name, candidates[j]@)) by {
                if j < n {
                    assert(front[j]@ == candidates[j]@);
                }
            }
        }
    }
}

/// Cuts a name to the characters within its first `bytes` bytes.
fn clip(name: &str, bytes: usize) -> (r: &str)
    ensures
        r@ == clipped(name@, bytes as int),
{
    let chars = chars_of(name);
    let mut n: usize = 0;
    let mut taken: usize = 0;
    while n < chars.len()
        invariant
            n <= chars@.len(),
            chars@ == name@,
            taken == text::utf8_len(name@.take(n as int)),
            taken <= bytes,
        ensures
            n <= name@.len(),
            taken == text::utf8_len(name@.take(n as int)),
            taken <= bytes,
            n == name@.len() || taken + text::utf8_width(name@[n as int]) > bytes,
        decreases chars@.len() - n,
    {
        let width: usize = char_width(chars[n]);
        if width > bytes - taken {
            break;
        }
        assert(name@.take(n + 1).drop_last() =~= name@.take(n as int));
        taken += width;
        n += 1;
    }
    proof {
        text::lemma_char_of_byte_skips(name@, bytes as int, n as int);
        if n < name@.len() {
            assert(name@.skip(n as int)[0] == name@[n as int]);
        }
    }
    name.substring_char(0, n)
}

/// Finds the candidate that is nearest to a name.
pub fn calc_closest(name: &str, allow_list: &[&'static str]) -> (r: Option<&'static str>)
    ensures
        r == closest(name@, allow_list@),
{
    let mut best: Option<(usize, &'static str)> = None;
    let mut i: usize = 0;
    while i < allow_list.len()
        invariant
            i <= allow_list@.len(),
            match best {
                Some((distance, candidate)) => closest(name@, allow_list@.take(i as int)) == Some(
                    candidate,
                ) && distance == distance_to(name@, candidate@),
                None => closest(name@, allow_list@.take(i as int)) is None,
            },
        decreases allow_list@.len() - i,
    {
        let candidate = allow_list[i];
        proof {
            assert(allow_list@.take(i + 1).drop_last() =~= allow_list@.take(i as int));
            assert(allow_list@.take(i + 1).last() == candidate);
        }
        let distance: usize = levenshtein_distance(
            clip(name, byte_len(candidate)),
            candidate,
        );
        best = match best {
            None => Some((distance, candidate)),
            Some((least, nearest)) => if distance < least {
                Some((distance, candidate))
            } else {
                Some((least, nearest))
            },
        };
        i += 1;
    }
    assert(allow_list@.take(i as int) =~= allow_list@);
    match best {
        Some((_, candidate)) => Some(candidate),
        None => None,
    }
}

impl<'a> ParseErrorMessage<'a> {
    /// The message as a sentence.
    pub open spec fn text(self) -> Seq<char> {
        match self {
            ParseErrorMessage::Expected(what) => "Expected "@ + what@ + "."@,
            ParseErrorMessage::NotAllowed { name, context } => match context {
                Some(context) => name@ + " are not allowed in "@ + context@ + "."@,
                None => name@ + " are not allowed here."@,
            },
            ParseErrorMessage::Correction { closest, .. } => match closest {
                Some(closest) => "Did you mean "@ + closest@ + "?"@,
                None => Seq::empty(),
            },
        }
    }

    /// Suggests the candidate that is nearest to a name.
    pub fn correction(name: Option<String>, range: Range, allow_list: &[&'static str]) -> (r:
        ParseErrorMessage<'static>)
        ensures
            r == (ParseErrorMessage::Correction {
                closest: match name {
                    Some(name) => closest(name@, allow_list@),
                    None => None,
                },
                range,
            }),
    {
        let closest = match name {
            Some(name) => calc_closest(name.as_str(), allow_list),
            None => None,
        };
        ParseErrorMessage::Correction { closest, range }
    }

    pub fn to_string(&self) -> (r: String)
        ensures
            r@ == self.text(),
    {
        match self {
            ParseErrorMessage::Expected(what) => join3("Expected ", what, "."),
            ParseErrorMessage::NotAllowed { name, context } => match context {
                Some(context) => {
                    let mut out = join3(name, " are not allowed in ", context);
                    out.append(".");
                    out
                },
                None => join2(name, " are not allowed here."),
            },
            ParseErrorMessage::Correction { closest, .. } => match closest {
                Some(closest) => join3("Did you mean ", closest, "?"),
                None => String::new(),
            },
        }
    }
}

impl TypeErrorKind {
    pub open spec fn text(self) -> &'static str {
        match self {
            TypeErrorKind::UnknownDerive => "Unknown Derive",
        }
    }

    pub fn to_str(&self) -> (r: &'static str)
        ensures
            r == self.text(),
    {
        match self {
            TypeErrorKind::UnknownDerive => "Unknown Derive",
        }
    }
}

/// The data of a suggested correction: where to put it, and what it is.
pub open spec fn correction_data(range: Range, closest: Seq<char>) -> JsonView {
    JsonView::Object(
        seq![
            ("range_start"@, position_data(range.start.line, range.start.character)),
            ("range_end"@, position_data(range.end.line, range.end.character)),
            ("closest"@, JsonView::Text(closest)),
        ],
    )
}

pub open spec fn position_data(line: u32, character: u32) -> JsonView {
    JsonView::Object(
        seq![
            ("line"@, JsonView::Number(Some(line as u64))),
            ("char"@, JsonView::Number(Some(character as u64))),
        ],
    )
}

fn position_to_json(line: u32, character: u32) -> (r: Json)
    ensures
        r.deep_view() == position_data(line, character),
{
    let mut entries: Vec<(String, Json)> = Vec::new();
    entries.push(("line".to_owned(), Json::Number(Some(line as u64))));
    entries.push(("char".to_owned(), Json::Number(Some(character as u64))));
    let r = Json::Object(entries);
    proof {
        reveal_with_fuel(json::json_view, 2);
    }
    assert(r.deep_view()->Object_0 =~= position_data(line, character)->Object_0);
    r
}

impl<'a> ParseError<'a> {
    pub open spec fn severity_of(self) -> Severity {
        if self is RedundantTokens {
            Severity::Warning
        } else {
            Severity::Error
        }
    }

    /// The code that names the kind of the error.
    pub open spec fn code(self) -> Seq<char> {
        match self {
            ParseError::UnexpectedTokens { .. } => "UNEXPECTED_TOKENS"@,
            ParseError::MissingToken { .. } => "MISSING_TOKEN"@,
            ParseError::TypeError { kind, .. } => "TYPE_ERROR["@ + kind.text()@ + "]"@,
            ParseError::RedundantTokens { .. } => "REDUNDANT_TOKENS"@,
        }
    }

    /// The message: the kind of the error, and the details where there are any.
    pub open spec fn text(self) -> Seq<char> {
        match self {
            ParseError::UnexpectedTokens { msg } => match msg {
                Some(msg) => "Unexpected Token(s): "@ + msg.text(),
                None => "Unexpected Token(s)"@,
            },
            ParseError::MissingToken { msg } => match msg {
                Some(msg) => "Missing Token: "@ + msg.text(),
                None => "Missing Token"@,
            },
            ParseError::TypeError { kind, msg } => match msg {
                Some(msg) => "Type Error ("@ + kind.text()@ + "): "@ + msg@,
                None => "Type Error ("@ + kind.text()@ + ")"@,
            },
            ParseError::RedundantTokens { msg } => match msg {
                Some(msg) => "Redundant Token(s): "@ + msg@,
                None => "Redundant Token(s)"@,
            },
        }
    }

    /// The correction that the error suggests, where it suggests one.
    pub open spec fn data_of(self) -> Option<JsonView> {
        match self {
            ParseError::UnexpectedTokens {
                msg: Some(ParseErrorMessage::Correction { closest: Some(closest), range }),
            } => Some(correction_data(range, closest@)),
            ParseError::MissingToken {
                msg: Some(ParseErrorMessage::Correction { closest: Some(closest), range }),
            } => Some(correction_data(range, closest@)),
            _ => None,
        }
    }

    pub fn severity(&self) -> (r: Severity)
        ensures
            r == self.severity_of(),
    {
        match self {
            ParseError::UnexpectedTokens { .. } | ParseError::MissingToken { .. }
            | ParseError::TypeError { .. } => Severity::Error,
            ParseError::RedundantTokens { .. } => Severity::Warning,
        }
    }

    pub fn message(&self) -> (r: String)
        ensures
            r@ == self.text(),
    {
        match self {
            ParseError::UnexpectedTokens { msg } => match msg {
                Some(msg) => join2("Unexpected Token(s): ", msg.to_string().as_str()),
                None => "Unexpected Token(s)".to_owned(),
            },
            ParseError::MissingToken { msg } => match msg {
                Some(msg) => join2("Missing Token: ", msg.to_string().as_str()),
                None => "Missing Token".to_owned(),
            },
            ParseError::TypeError { kind, msg } => match msg {
                Some(msg) => {
                    let mut out = join3("Type Error (", kind.to_str(), "): ");
                    out.append(msg);
                    out
                },
                None => join3("Type Error (", kind.to_str(), ")"),
            },
            ParseError::RedundantTokens { msg } => match msg {
                Some(msg) => join2("Redundant Token(s): ", msg),
                None => "Redundant Token(s)".to_owned(),
            },
        }
    }

    pub fn data(&self) -> (r: Option<Json>)
        ensures
            r.deep_view() == self.data_of(),
    {
        let (closest, range) = match self {
            ParseError::UnexpectedTokens {
                msg: Some(ParseErrorMessage::Correction { closest, range }),
            } => (closest, range),
            ParseError::MissingToken {
                msg: Some(ParseErrorMessage::Correction { closest, range }),
            } => (closest, range),
            _ => return None,
        };
        match closest {
            Some(closest) => {
                let mut entries: Vec<(String, Json)> = Vec::new();
                entries.push(
                    (
                        "range_start".to_owned(),
                        position_to_json(range.start.line, range.start.character),
                    ),
                );
                entries.push(
                    ("range_end".to_owned(), position_to_json(range.end.line, range.end.character)),
                );
                entries.push(("closest".to_owned(), Json::Text((*closest).to_owned())));
                let r = Json::Object(entries);
                proof {
                    reveal_with_fuel(json::json_view, 3);
                }
                assert(r.deep_view()->Object_0 =~= correction_data(*range, closest@)->Object_0);
                Some(r)
            },
            None => None,
        }
    }

    pub fn to_string(&self) -> (r: String)
        ensures
            r@ == self.code(),
    {
        match self {
            ParseError::UnexpectedTokens { .. } => "UNEXPECTED_TOKENS".to_owned(),
            ParseError::MissingToken { .. } => "MISSING_TOKEN".to_owned(),
            ParseError::TypeError { kind, .. } => join3("TYPE_ERROR[", kind.to_str(), "]"),
            ParseError::RedundantTokens { .. } => "REDUNDANT_TOKENS".to_owned(),
        }
    }
}

/// The diagnostic for an error of the parser.
pub open spec fn parse_diagnostic(error: ParseError, range: Range) -> DiagnosticView {
    DiagnosticView {
        range,
        severity: error.severity_of(),
        code: error.code(),
        source: "RSML LSP"@,
        message: error.text(),
        data: error.data_of(),
    }
}

impl AstErrors {
    /// Reports an error of the parser.
    pub fn push(&mut self, error: ParseError, range: Range)
        ensures
            final(self).0.deep_view() == old(self).0.deep_view().push(
                parse_diagnostic(error, range),
            ),
    {
        self.add_diagnostic(
            Diagnostic {
                range,
                severity: error.severity(),
                code: error.to_string(),
                source: "RSML LSP".to_owned(),
                message: error.message(),
                data: error.data(),
            },
        );
    }
}

} // verus!
