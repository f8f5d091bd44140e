//! The fixes that are offered for the diagnostics of a document.

use crate::json;
use crate::json::{Json, JsonView};
use crate::parser::error;
use crate::parser::error::ParseError;
use crate::strings::join2;
use crate::text::{Position, Range};
use vstd::prelude::*;

verus! {

/// A replacement of a stretch of a document.
#[derive(Debug)]
pub struct QuickFix {
    pub title: String,
    pub range: Range,
    pub new_text: String,
}

/// What a [`QuickFix`] holds.
pub struct QuickFixView {
    pub title: Seq<char>,
    pub range: Range,
    pub new_text: Seq<char>,
}

impl DeepView for QuickFix {
    type V = QuickFixView;

    open spec fn deep_view(&self) -> QuickFixView {
        QuickFixView { title: self.title@, range: self.range, new_text: self.new_text@ }
    }
}

/// The lower bits of the whole number under a key.
pub open spec fn number_under(data: JsonView, key: Seq<char>) -> Option<u32> {
    match data.get(key) {
        Some(JsonView::Number(Some(n))) => Some(n as u32),
        _ => None,
    }
}

/// The position under a key.
pub open spec fn position_under(data: JsonView, key: Seq<char>) -> Option<Position> {
    match data.get(key) {
        Some(position) => match (number_under(position, "line"@), number_under(position, "char"@)) {
            (Some(line), Some(character)) => Some(Position { line, character }),
            _ => None,
        },
        None => None,
    }
}

/// The fix that the data of a diagnostic describes: the text that comes closest to what was
/// written, and where that stands.
pub open spec fn quick_fix(data: Option<JsonView>) -> Option<QuickFixView> {
    match data {
        Some(data) => match (
            data.get("closest"@),
            position_under(data, "range_start"@),
            position_under(data, "range_end"@),
        ) {
            (Some(JsonView::Text(closest)), Some(start), Some(end)) => Some(
                QuickFixView {
                    title: "Replace with "@ + closest,
                    range: Range { start, end },
                    new_text: closest,
                },
            ),
            _ => None,
        },
        None => None,
    }
}

/// The fixes that several diagnostics describe, in order.
pub open spec fn quick_fixes(diagnostics: Seq<Option<JsonView>>) -> Seq<QuickFixView>
    decreases diagnostics.len(),
{
    if diagnostics.len() == 0 {
        Seq::empty()
    } else {
        let before = quick_fixes(diagnostics.drop_last());
        match quick_fix(diagnostics.last()) {
            Some(fix) => before.push(fix),
            None => before,
        }
    }
}

fn read_number(data: &Json, key: &str) -> (r: Option<u32>)
    ensures
        r == number_under(data.deep_view(), key@),
{
    match data.get(key) {
        Some(Json::Number(Some(n))) => Some(*n as u32),
        _ => None,
    }
}

fn read_position(data: &Json, key: &str) -> (r: Option<Position>)
    ensures
        r == position_under(data.deep_view(), key@),
{
    match data.get(key) {
        Some(position) => match (read_number(position, "line"), read_number(position, "char")) {
            (Some(line), Some(character)) => Some(Position { line, character }),
            _ => None,
        },
        None => None,
    }
}

fn read_fix(data: &Option<Json>) -> (r: Option<QuickFix>)
    ensures
        r.deep_view() == quick_fix(data.deep_view()),
{
    let data = match data {
        Some(data) => data,
        None => return None,
    };
    let closest = match data.get("closest") {
        Some(Json::Text(closest)) => closest,
        _ => return None,
    };
    match (read_position(data, "range_start"), read_position(data, "range_end")) {
        (Some(start), Some(end)) => Some(
            QuickFix {
                title: join2("Replace with ", closest.as_str()),
                range: Range { start, end },
                new_text: closest.clone(),
            },
        ),
        _ => None,
    }
}

/// The fixes for diagnostics with the given data. Data that describes no fix is passed over.
pub fn code_actions(diagnostics: &Vec<Option<Json>>) -> (r: Vec<QuickFix>)
    ensures
        r.deep_view() == quick_fixes(diagnostics.deep_view()),
{
    let ghost views = diagnostics.deep_view();
    let mut out: Vec<QuickFix> = Vec::new();
    assert(views.take(0) =~= Seq::empty());
    assert(out.deep_view() =~= Seq::empty());
    let mut i: usize = 0;
    while i < diagnostics.len()
        invariant
            i <= diagnostics@.len(),
            views == diagnostics.deep_view(),
            out.deep_view() == quick_fixes(views.take(i as int)),
        decreases diagnostics@.len() - i,
    {
        assert(views.take(i + 1).drop_last() =~= views.take(i as int));
        assert(views.take(i + 1).last() == diagnostics@[i as int].deep_view());
        if let Some(fix) = read_fix(&diagnostics[i]) {
            let ghost before = out.deep_view();
            out.push(fix);
            assert(out.deep_view() =~= before.push(fix.deep_view()));
        }
        i += 1;
    }
    assert(views.take(i as int) =~= views);
    out
}

proof fn lemma_position_is_read_back(position: Position)
    ensures
        number_under(error::position_data(position.line, position.character), "line"@) == Some(
            position.line,
        ),
        number_under(error::position_data(position.line, position.character), "char"@) == Some(
            position.character,
        ),
{
    reveal_strlit("line");
    reveal_strlit("char");
    reveal_with_fuel(json::entry, 3);
    let data = error::position_data(position.line, position.character);
    assert("line"@[0] == 'l' && "char"@[0] == 'c');
    assert(data->Object_0[0].0 == "line"@);
    assert(data->Object_0.drop_first()[0].0 == "char"@);
    let line = position.line;
    let character = position.character;
    assert((line as u64) as u32 == line) by (bit_vector);
    assert((character as u64) as u32 == character) by (bit_vector);
}

/// The fix for an error that suggests a correction replaces what was written with it.
pub proof fn lemma_correction_is_offered(error: ParseError, range: Range, closest: Seq<char>)
    requires
        error.data_of() == Some(error::correction_data(range, closest)),
    ensures
        quick_fix(error.data_of()) == Some(
            QuickFixView { title: "Replace with "@ + closest, range, new_text: closest },
        ),
{
    reveal_strlit("range_start");
    reveal_strlit("range_end");
    reveal_strlit("closest");
    reveal_with_fuel(json::entry, 4);
    let data = error::correction_data(range, closest);
    let entries = data->Object_0;
    assert("range_start"@.len() == 11 && "range_end"@.len() == 9 && "closest"@.len() == 7);
    assert(entries[0].0 == "range_start"@);
    assert(entries.drop_first()[0].0 == "range_end"@);
    assert(entries.drop_first().drop_first()[0].0 == "closest"@);
    lemma_position_is_read_back(range.start);
    lemma_position_is_read_back(range.end);
}

} // verus!
