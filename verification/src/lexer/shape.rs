//! The shapes that tokens have.

use super::chars::{reads, reads_in_any_case, skip, Class};
use super::{chars, skip_line};
use vstd::prelude::*;

verus! {

/// A shape of a token.
#[derive(Debug, Clone, Copy)]
pub enum Shape {
    /// These characters.
    Literal(&'static str),
    /// One or more characters of a class.
    Run(Class),
    /// A `#` and the rest of its line.
    HashLine,
    /// These characters, and behind them an opening long bracket.
    Bracket(&'static str),
    /// These characters, and behind them any number of a class.
    Led(&'static str, Class),
    /// These characters, and behind them one or more of a class.
    LedRun(&'static str, Class),
    /// What stands between two of these quotes.
    Quoted(char),
    /// A word, or several that are joined by hyphens.
    Name,
    /// A name, and behind it a `!`.
    Call,
    /// These characters, and behind them a word.
    Sigil(&'static str),
    /// A number, and behind it these characters.
    Number(&'static str),
    /// Two hyphens, and, where a character is behind them that may follow, that character and
    /// what is behind it on its line; behind a line feed, on the next line.
    CommentLine,
    /// These characters, and behind them a name.
    Named(&'static str),
    /// These characters, and behind them a name, where there is one.
    MaybeNamed(&'static str),
    /// A number with digits in each of its parts, and behind it these characters.
    Numeral(&'static str),
    /// These characters in any case, the name of a colour, and, where it may have one, its shade.
    Color(&'static str, bool),
}

/// Whether the character at `i` is `c`.
pub open spec fn is_at(text: Seq<char>, i: int, c: char) -> bool {
    0 <= i < text.len() && text[i] == c
}

/// Whether a character of the class is at `i`.
pub open spec fn starts(text: Seq<char>, i: int, class: Class) -> bool {
    0 <= i < text.len() && class.has(text[i])
}

/// The end of the word at `i`.
pub open spec fn word_end(text: Seq<char>, i: int) -> Option<int> {
    if starts(text, i, Class::WordStart) {
        Some(chars::past(text, i, Class::Word))
    } else {
        None
    }
}

/// The end of the words that follow at `i`, each with a hyphen before it.
pub open spec fn past_joined(text: Seq<char>, i: int) -> int
    decreases text.len() - i,
{
    if is_at(text, i, '-') && starts(text, i + 1, Class::Word) {
        proof {
            chars::lemma_past(text, i + 1, Class::Word);
        }
        past_joined(text, chars::past(text, i + 1, Class::Word))
    } else {
        i
    }
}

/// The end of the name at `i`: of words that are joined by hyphens, where no digit is in the
/// first, or of a single word.
pub open spec fn name_end(text: Seq<char>, i: int) -> Option<int> {
    let first = chars::past(text, i, Class::WordStart);
    if first > i && past_joined(text, first) > first {
        Some(past_joined(text, first))
    } else {
        word_end(text, i)
    }
}

/// The end of the number at `i`.
pub open spec fn number_end(text: Seq<char>, i: int) -> Option<int> {
    let whole = chars::past(text, i, Class::NumberPart);
    if is_at(text, whole, '.') && starts(text, whole + 1, Class::NumberPart) {
        Some(chars::past(text, whole + 1, Class::NumberPart))
    } else if whole > i {
        Some(whole)
    } else {
        None
    }
}

/// Whether a digit is among the characters from `i` up to `end`.
pub open spec fn has_digit(text: Seq<char>, i: int, end: int) -> bool {
    exists|j: int| i <= j < end && chars::is_digit(#[trigger] text[j])
}

/// The end of a group of digits, with the underscores around it.
pub open spec fn digits_end(text: Seq<char>, i: int) -> Option<int> {
    let start = chars::past(text, i, Class::Underscore);
    if starts(text, start, Class::Digit) {
        Some(chars::past(text, chars::past(text, start, Class::Digit), Class::Underscore))
    } else {
        None
    }
}

/// The end of the numeral at `i`: of a whole number with its fraction, where digits are in it,
/// or of one group of digits behind a point.
pub open spec fn numeral_end(text: Seq<char>, i: int) -> Option<int> {
    let whole = chars::past(text, i, Class::NumberPart);
    let fraction = chars::past(text, whole + 1, Class::NumberPart);
    if has_digit(text, i, whole) {
        if is_at(text, whole, '.') && has_digit(text, whole + 1, fraction) {
            Some(fraction)
        } else {
            Some(whole)
        }
    } else if is_at(text, i, '.') {
        digits_end(text, i + 1)
    } else {
        None
    }
}

/// What is behind the characters that are expected at `i`.
pub open spec fn behind(text: Seq<char>, i: int, word: Seq<char>) -> Option<int> {
    if chars::stands_at(text, i, word) {
        Some(i + word.len())
    } else {
        None
    }
}

/// The end of an opening long bracket.
pub open spec fn bracket_end(text: Seq<char>, i: int) -> Option<int> {
    let close = chars::past(text, i + 1, Class::Equals);
    if is_at(text, i, '[') && is_at(text, close, '[') {
        Some(close + 1)
    } else {
        None
    }
}

/// The end of what stands between quotes.
pub open spec fn quoted_end(text: Seq<char>, i: int, quote: char) -> Option<int> {
    let close = chars::past(text, i + 1, Class::Between(quote));
    if is_at(text, i, quote) && is_at(text, close, quote) {
        Some(close + 1)
    } else {
        None
    }
}

/// The end of the name of a colour, and of its shade, where it may have one.
pub open spec fn color_end(text: Seq<char>, i: int, has_shade: bool) -> Option<int> {
    let name = chars::past(text, i, Class::Letter);
    if name <= i {
        None
    } else if has_shade && is_at(text, name, ':') && starts(text, name + 1, Class::Digit) {
        Some(chars::past(text, name + 1, Class::Digit))
    } else {
        Some(name)
    }
}

impl Shape {
    /// The end of the longest piece from `i` on that has the shape.
    pub open spec fn end(self, text: Seq<char>, i: int) -> Option<int> {
        match self {
            Shape::Literal(word) => behind(text, i, word@),
            Shape::Run(class) => if starts(text, i, class) {
                Some(chars::past(text, i, class))
            } else {
                None
            },
            Shape::HashLine => if is_at(text, i, '#') {
                Some(super::past_line(text, i))
            } else {
                None
            },
            Shape::Bracket(lead) => match behind(text, i, lead@) {
                Some(start) => bracket_end(text, start),
                None => None,
            },
            Shape::Led(lead, class) => match behind(text, i, lead@) {
                Some(start) => Some(chars::past(text, start, class)),
                None => None,
            },
            Shape::LedRun(lead, class) => match behind(text, i, lead@) {
                Some(start) => if starts(text, start, class) {
                    Some(chars::past(text, start, class))
                } else {
                    None
                },
                None => None,
            },
            Shape::Quoted(quote) => quoted_end(text, i, quote),
            Shape::Name => name_end(text, i),
            Shape::Call => match name_end(text, i) {
                Some(end) => if is_at(text, end, '!') {
                    Some(end + 1)
                } else {
                    None
                },
                None => None,
            },
            Shape::Sigil(lead) => match behind(text, i, lead@) {
                Some(start) => word_end(text, start),
                None => None,
            },
            Shape::Number(unit) => match number_end(text, i) {
                Some(end) => behind(text, end, unit@),
                None => None,
            },
            Shape::CommentLine => match behind(text, i, "--"@) {
                Some(start) => if starts(text, start, Class::CommentStart) {
                    Some(chars::past(text, start + 1, Class::Line))
                } else {
                    Some(start)
                },
                None => None,
            },
            Shape::Named(lead) => match behind(text, i, lead@) {
                Some(start) => name_end(text, start),
                None => None,
            },
            Shape::MaybeNamed(lead) => match behind(text, i, lead@) {
                Some(start) => match name_end(text, start) {
                    Some(end) => Some(end),
                    None => Some(start),
                },
                None => None,
            },
            Shape::Numeral(unit) => match numeral_end(text, i) {
                Some(end) => behind(text, end, unit@),
                None => None,
            },
            Shape::Color(lead, has_shade) => if chars::stands_in_any_case(text, i, lead@) {
                color_end(text, i + lead@.len(), has_shade)
            } else {
                None
            },
        }
    }
}

proof fn lemma_joined_within(text: Seq<char>, i: int)
    requires
        0 <= i <= text.len(),
    ensures
        i <= past_joined(text, i) <= text.len(),
    decreases text.len() - i,
{
    if is_at(text, i, '-') && starts(text, i + 1, Class::Word) {
        chars::lemma_past(text, i + 1, Class::Word);
        lemma_joined_within(text, chars::past(text, i + 1, Class::Word));
    }
}

proof fn lemma_name_within(text: Seq<char>, i: int)
    requires
        0 <= i <= text.len(),
    ensures
        name_end(text, i) matches Some(end) ==> i < end <= text.len(),
{
    let first = chars::past(text, i, Class::WordStart);
    chars::lemma_past(text, i, Class::WordStart);
    chars::lemma_past(text, i, Class::Word);
    lemma_joined_within(text, first);
}

proof fn lemma_number_within(text: Seq<char>, i: int)
    requires
        0 <= i <= text.len(),
    ensures
        number_end(text, i) matches Some(end) ==> i <= end <= text.len(),
{
    let whole = chars::past(text, i, Class::NumberPart);
    chars::lemma_past(text, i, Class::NumberPart);
    if whole < text.len() {
        chars::lemma_past(text, whole + 1, Class::NumberPart);
    }
}

proof fn lemma_digits_within(text: Seq<char>, i: int)
    requires
        0 <= i <= text.len(),
    ensures
        digits_end(text, i) matches Some(end) ==> i <= end <= text.len(),
{
    let start = chars::past(text, i, Class::Underscore);
    chars::lemma_past(text, i, Class::Underscore);
    chars::lemma_past(text, start, Class::Digit);
    chars::lemma_past(text, chars::past(text, start, Class::Digit), Class::Underscore);
}

proof fn lemma_numeral_within(text: Seq<char>, i: int)
    requires
        0 <= i <= text.len(),
    ensures
        numeral_end(text, i) matches Some(end) ==> i <= end <= text.len(),
{
    let whole = chars::past(text, i, Class::NumberPart);
    chars::lemma_past(text, i, Class::NumberPart);
    if whole < text.len() {
        chars::lemma_past(text, whole + 1, Class::NumberPart);
    }
    if i < text.len() {
        lemma_digits_within(text, i + 1);
    }
}

/// What has a shape ends within the text.
pub proof fn lemma_end_within(shape: Shape, text: Seq<char>, i: int)
    requires
        0 <= i <= text.len(),
    ensures
        shape.end(text, i) matches Some(end) ==> end <= text.len(),
{
    match shape {
        Shape::Literal(_) => {},
        Shape::Run(class) => {
            chars::lemma_past(text, i, class);
        },
        Shape::HashLine => {
            super::lemma_past_line(text, i);
        },
        Shape::Bracket(_) => {},
        Shape::Led(lead, class) | Shape::LedRun(lead, class) => {
            if chars::stands_at(text, i, lead@) {
                chars::lemma_past(text, i + lead@.len(), class);
            }
        },
        Shape::Quoted(_) => {},
        Shape::Name | Shape::Call => {
            lemma_name_within(text, i);
        },
        Shape::Sigil(lead) => {
            if chars::stands_at(text, i, lead@) {
                chars::lemma_past(text, i + lead@.len(), Class::Word);
            }
        },
        Shape::Number(_) => {
            lemma_number_within(text, i);
        },
        Shape::CommentLine => {
            let start = i + "--"@.len();
            if starts(text, start, Class::CommentStart) {
                chars::lemma_past(text, start + 1, Class::Line);
            }
        },
        Shape::Named(lead) | Shape::MaybeNamed(lead) => {
            if chars::stands_at(text, i, lead@) {
                lemma_name_within(text, i + lead@.len());
            }
        },
        Shape::Numeral(_) => {
            lemma_numeral_within(text, i);
        },
        Shape::Color(lead, _) => {
            if chars::stands_in_any_case(text, i, lead@) {
                let start = i + lead@.len();
                let name = chars::past(text, start, Class::Letter);
                chars::lemma_past(text, start, Class::Letter);
                if name < text.len() {
                    chars::lemma_past(text, name + 1, Class::Digit);
                }
            }
        },
    }
}

/// The characters before and behind the name that stands in a shape.
pub open spec fn margins(shape: Shape) -> (int, int) {
    match shape {
        Shape::Named(lead) | Shape::MaybeNamed(lead) => (lead@.len() as int, 0),
        Shape::Call => (0, 1),
        Shape::Quoted(_) => (1, 1),
        Shape::CommentLine => (2, 0),
        _ => (0, 0),
    }
}

/// The name that stands in a shape is within it.
pub proof fn lemma_margins(shape: Shape, text: Seq<char>, i: int)
    requires
        0 <= i <= text.len(),
    ensures
        shape.end(text, i) matches Some(end) ==> end > i ==> i + margins(shape).0 <= end - margins(
            shape,
        ).1,
{
    match shape {
        Shape::Named(lead) | Shape::MaybeNamed(lead) => {
            if chars::stands_at(text, i, lead@) {
                lemma_name_within(text, i + lead@.len());
            }
        },
        Shape::Call => {
            lemma_name_within(text, i);
        },
        Shape::Quoted(quote) => {
            if i < text.len() {
                chars::lemma_past(text, i + 1, Class::Between(quote));
            }
        },
        Shape::CommentLine => {
            reveal_strlit("--");
            if i + 2 < text.len() {
                chars::lemma_past(text, i + 3, Class::Line);
            }
        },
        _ => {},
    }
}

/// The brackets of a block take two characters or more.
pub proof fn lemma_bracket_takes_two(lead: &'static str, text: Seq<char>, i: int)
    requires
        0 <= i <= text.len(),
    ensures
        Shape::Bracket(lead).end(text, i) matches Some(end) ==> end - i - lead@.len() >= 2,
{
    if is_at(text, i + lead@.len(), '[') {
        chars::lemma_past(text, i + lead@.len() + 1, Class::Equals);
    }
}

fn find_at(text: &Vec<char>, i: usize, c: char) -> (r: bool)
    ensures
        r == is_at(text@, i as int, c),
        text@.len() <= usize::MAX,
{
    i < text.len() && text[i] == c
}

fn find_class(text: &Vec<char>, i: usize, class: Class) -> (r: bool)
    ensures
        r == starts(text@, i as int, class),
        text@.len() <= usize::MAX,
{
    i < text.len() && class.contains(text[i])
}

/// Whether an end is the one that is stated, and within the text.
pub open spec fn is_end(end: Option<usize>, stated: Option<int>, text: Seq<char>) -> bool {
    match end {
        Some(end) => stated == Some(end as int) && end <= text.len(),
        None => stated is None,
    }
}

fn find_word(text: &Vec<char>, i: usize) -> (r: Option<usize>)
    ensures
        is_end(r, word_end(text@, i as int), text@),
{
    if find_class(text, i, Class::WordStart) {
        Some(skip(text, i, Class::Word))
    } else {
        None
    }
}

fn skip_joined(text: &Vec<char>, start: usize) -> (r: usize)
    requires
        start <= text@.len(),
    ensures
        r == past_joined(text@, start as int),
        start <= r <= text@.len(),
{
    let mut i: usize = start;
    while find_at(text, i, '-') && find_class(text, i + 1, Class::Word)
        invariant
            start <= i <= text@.len(),
            past_joined(text@, start as int) == past_joined(text@, i as int),
        decreases text@.len() - i,
    {
        i = skip(text, i + 1, Class::Word);
    }
    i
}

fn find_name(text: &Vec<char>, i: usize) -> (r: Option<usize>)
    requires
        i <= text@.len(),
    ensures
        is_end(r, name_end(text@, i as int), text@),
{
    let first: usize = skip(text, i, Class::WordStart);
    if first > i {
        let end: usize = skip_joined(text, first);
        if end > first {
            return Some(end);
        }
    }
    find_word(text, i)
}

fn find_number(text: &Vec<char>, i: usize) -> (r: Option<usize>)
    requires
        i <= text@.len(),
    ensures
        is_end(r, number_end(text@, i as int), text@),
{
    let whole: usize = skip(text, i, Class::NumberPart);
    if find_at(text, whole, '.') && find_class(text, whole + 1, Class::NumberPart) {
        Some(skip(text, whole + 1, Class::NumberPart))
    } else if whole > i {
        Some(whole)
    } else {
        None
    }
}

fn find_digit(text: &Vec<char>, start: usize, end: usize) -> (r: bool)
    requires
        end <= text@.len(),
    ensures
        r == has_digit(text@, start as int, end as int),
{
    let mut i: usize = start;
    while i < end
        invariant
            start <= i,
            end <= text@.len(),
            forall|j: int| start <= j < i ==> !chars::is_digit(#[trigger] text@[j]),
        decreases end - i,
    {
        if Class::Digit.contains(text[i]) {
            assert(chars::is_digit(text@[i as int]));
            return true;
        }
        i += 1;
    }
    false
}

fn find_digits(text: &Vec<char>, i: usize) -> (r: Option<usize>)
    requires
        i <= text@.len(),
    ensures
        is_end(r, digits_end(text@, i as int), text@),
{
    let start: usize = skip(text, i, Class::Underscore);
    if find_class(text, start, Class::Digit) {
        let end: usize = skip(text, start, Class::Digit);
        Some(skip(text, end, Class::Underscore))
    } else {
        None
    }
}

fn find_numeral(text: &Vec<char>, i: usize) -> (r: Option<usize>)
    requires
        i <= text@.len(),
    ensures
        is_end(r, numeral_end(text@, i as int), text@),
{
    let whole: usize = skip(text, i, Class::NumberPart);
    if find_digit(text, i, whole) {
        if find_at(text, whole, '.') {
            let fraction: usize = skip(text, whole + 1, Class::NumberPart);
            if find_digit(text, whole + 1, fraction) {
                return Some(fraction);
            }
        }
        Some(whole)
    } else if find_at(text, i, '.') {
        find_digits(text, i + 1)
    } else {
        None
    }
}

fn find_behind(text: &Vec<char>, i: usize, word: &str) -> (r: Option<usize>)
    requires
        i <= text@.len(),
    ensures
        is_end(r, behind(text@, i as int, word@), text@),
{
    if reads(text, i, word) {
        Some(i + word.unicode_len())
    } else {
        None
    }
}

fn find_bracket(text: &Vec<char>, i: usize) -> (r: Option<usize>)
    requires
        i <= text@.len(),
    ensures
        is_end(r, bracket_end(text@, i as int), text@),
{
    if find_at(text, i, '[') {
        let close: usize = skip(text, i + 1, Class::Equals);
        if find_at(text, close, '[') {
            return Some(close + 1);
        }
    }
    None
}

fn find_quoted(text: &Vec<char>, i: usize, quote: char) -> (r: Option<usize>)
    requires
        i <= text@.len(),
    ensures
        is_end(r, quoted_end(text@, i as int, quote), text@),
{
    if find_at(text, i, quote) {
        let close: usize = skip(text, i + 1, Class::Between(quote));
        if find_at(text, close, quote) {
            return Some(close + 1);
        }
    }
    None
}

fn find_color(text: &Vec<char>, i: usize, has_shade: bool) -> (r: Option<usize>)
    requires
        i <= text@.len(),
    ensures
        is_end(r, color_end(text@, i as int, has_shade), text@),
{
    let name: usize = skip(text, i, Class::Letter);
    if name <= i {
        None
    } else if has_shade && find_at(text, name, ':') && find_class(text, name + 1, Class::Digit) {
        Some(skip(text, name + 1, Class::Digit))
    } else {
        Some(name)
    }
}

impl Shape {
    /// Finds the end of the longest piece from `i` on that has the shape.
    pub fn find_end(self, text: &Vec<char>, i: usize) -> (r: Option<usize>)
        requires
            i <= text@.len(),
        ensures
            is_end(r, self.end(text@, i as int), text@),
    {
        match self {
            Shape::Literal(word) => find_behind(text, i, word),
            Shape::Run(class) => if find_class(text, i, class) {
                Some(skip(text, i, class))
            } else {
                None
            },
            Shape::HashLine => if find_at(text, i, '#') {
                Some(skip_line(text, i))
            } else {
                None
            },
            Shape::Bracket(lead) => match find_behind(text, i, lead) {
                Some(start) => find_bracket(text, start),
                None => None,
            },
            Shape::Led(lead, class) => match find_behind(text, i, lead) {
                Some(start) => Some(skip(text, start, class)),
                None => None,
            },
            Shape::LedRun(lead, class) => match find_behind(text, i, lead) {
                Some(start) => if find_class(text, start, class) {
                    Some(skip(text, start, class))
                } else {
                    None
                },
                None => None,
            },
            Shape::Quoted(quote) => find_quoted(text, i, quote),
            Shape::Name => find_name(text, i),
            Shape::Call => match find_name(text, i) {
                Some(end) => if find_at(text, end, '!') {
                    Some(end + 1)
                } else {
                    None
                },
                None => None,
            },
            Shape::Sigil(lead) => match find_behind(text, i, lead) {
                Some(start) => find_word(text, start),
                None => None,
            },
            Shape::Number(unit) => match find_number(text, i) {
                Some(end) => find_behind(text, end, unit),
                None => None,
            },
            Shape::CommentLine => match find_behind(text, i, "--") {
                Some(start) => if find_class(text, start, Class::CommentStart) {
                    Some(skip(text, start + 1, Class::Line))
                } else {
                    Some(start)
                },
                None => None,
            },
            Shape::Named(lead) => match find_behind(text, i, lead) {
                Some(start) => find_name(text, start),
                None => None,
            },
            Shape::MaybeNamed(lead) => match find_behind(text, i, lead) {
                Some(start) => match find_name(text, start) {
                    Some(end) => Some(end),
                    None => Some(start),
                },
                None => None,
            },
            Shape::Numeral(unit) => match find_numeral(text, i) {
                Some(end) => find_behind(text, end, unit),
                None => None,
            },
            Shape::Color(lead, has_shade) => if reads_in_any_case(text, i, lead) {
                find_color(text, i + lead.unicode_len(), has_shade)
            } else {
                None
            },
        }
    }
}

} // verus!
