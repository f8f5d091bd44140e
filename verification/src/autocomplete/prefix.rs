//! What has been typed of a value.

use crate::strings;
use crate::strings::{chars_of, split_before, strip_prefix};
use crate::text;
use crate::text::char_index;
use vstd::prelude::*;

verus! {

/// What stands right before the cursor in a value.
#[allow(inconsistent_fields)]
#[derive(Debug)]
pub enum ValuePrefix<'a> {
    Fresh,
    EnumShorthand,
    TailwindFamily { typed: &'a str },
    TailwindShade { family: &'a str },
    SkinFamily { typed: &'a str },
    SkinShade { family: &'a str },
    BrickFamily { typed: &'a str },
    CssFamily { typed: &'a str },
    InsideConstructor,
}

/// What a [`ValuePrefix`] holds.
#[allow(inconsistent_fields)]
pub enum PrefixView {
    Fresh,
    EnumShorthand,
    TailwindFamily { typed: Seq<char> },
    TailwindShade { family: Seq<char> },
    SkinFamily { typed: Seq<char> },
    SkinShade { family: Seq<char> },
    BrickFamily { typed: Seq<char> },
    CssFamily { typed: Seq<char> },
    InsideConstructor,
}

impl<'a> DeepView for ValuePrefix<'a> {
    type V = PrefixView;

    open spec fn deep_view(&self) -> PrefixView {
        match self {
            ValuePrefix::Fresh => PrefixView::Fresh,
            ValuePrefix::EnumShorthand => PrefixView::EnumShorthand,
            ValuePrefix::TailwindFamily { typed } => PrefixView::TailwindFamily { typed: typed@ },
            ValuePrefix::TailwindShade { family } => PrefixView::TailwindShade { family: family@ },
            ValuePrefix::SkinFamily { typed } => PrefixView::SkinFamily { typed: typed@ },
            ValuePrefix::SkinShade { family } => PrefixView::SkinShade { family: family@ },
            ValuePrefix::BrickFamily { typed } => PrefixView::BrickFamily { typed: typed@ },
            ValuePrefix::CssFamily { typed } => PrefixView::CssFamily { typed: typed@ },
            ValuePrefix::InsideConstructor => PrefixView::InsideConstructor,
        }
    }
}

/// Whether a character can be part of a value that is being typed.
pub open spec fn is_word(c: char) -> bool {
    ||| 'a' <= c <= 'z'
    ||| 'A' <= c <= 'Z'
    ||| '0' <= c <= '9'
    ||| c == ':'
    ||| c == '_'
}

/// The start of the longest word that ends before `end`.
pub open spec fn word_start(text: Seq<char>, end: int) -> int
    decreases end,
{
    if 0 < end <= text.len() && is_word(text[end - 1]) {
        word_start(text, end - 1)
    } else {
        end
    }
}

/// What the word before the cursor, which is not empty, has been typed of.
pub open spec fn word_prefix(word: Seq<char>) -> PrefixView {
    if "tw:"@.is_prefix_of(word) {
        let rest = word.skip("tw:"@.len() as int);
        if rest.contains(':') {
            PrefixView::TailwindShade { family: strings::before_first(rest, ':') }
        } else {
            PrefixView::TailwindFamily { typed: rest }
        }
    } else if "skin:"@.is_prefix_of(word) {
        let rest = word.skip("skin:"@.len() as int);
        if rest.contains(':') {
            PrefixView::SkinShade { family: strings::before_first(rest, ':') }
        } else {
            PrefixView::SkinFamily { typed: rest }
        }
    } else if "bc:"@.is_prefix_of(word) {
        PrefixView::BrickFamily { typed: word.skip("bc:"@.len() as int) }
    } else if "css:"@.is_prefix_of(word) {
        PrefixView::CssFamily { typed: word.skip("css:"@.len() as int) }
    } else if word[0] == ':' {
        PrefixView::EnumShorthand
    } else {
        PrefixView::Fresh
    }
}

/// What stands right before the character at `cursor`.
pub open spec fn value_prefix(text: Seq<char>, cursor: int) -> PrefixView {
    let start = word_start(text, cursor);
    if cursor > 0 && text[cursor - 1] == '(' {
        PrefixView::InsideConstructor
    } else if start == cursor {
        PrefixView::Fresh
    } else {
        word_prefix(text.subrange(start, cursor))
    }
}

fn is_word_char(c: char) -> (r: bool)
    ensures
        r == is_word(c),
{
    ('a' <= c && c <= 'z') || ('A' <= c && c <= 'Z') || ('0' <= c && c <= '9') || c == ':' || c
        == '_'
}

fn classify_word(word: &str) -> (r: ValuePrefix<'_>)
    requires
        word@.len() > 0,
    ensures
        r.deep_view() == word_prefix(word@),
{
    if let Some(rest) = strip_prefix(word, "tw:") {
        return match split_before(rest, ':') {
            Some(family) => ValuePrefix::TailwindShade { family },
            None => ValuePrefix::TailwindFamily { typed: rest },
        };
    }
    if let Some(rest) = strip_prefix(word, "skin:") {
        return match split_before(rest, ':') {
            Some(family) => ValuePrefix::SkinShade { family },
            None => ValuePrefix::SkinFamily { typed: rest },
        };
    }
    if let Some(rest) = strip_prefix(word, "bc:") {
        return ValuePrefix::BrickFamily { typed: rest };
    }
    if let Some(rest) = strip_prefix(word, "css:") {
        return ValuePrefix::CssFamily { typed: rest };
    }
    if word.get_char(0) == ':' {
        return ValuePrefix::EnumShorthand;
    }
    ValuePrefix::Fresh
}

/// Finds what stands right before the byte at `offset`. An offset past the end stands for
/// the end.
pub fn scan_value_prefix(source: &str, offset: usize) -> (r: ValuePrefix<'_>)
    ensures
        r.deep_view() == value_prefix(source@, text::char_of_byte(source@, offset as int) as int),
{
    let chars = chars_of(source);
    let cursor: usize = char_index(&chars, offset);
    if cursor > 0 && chars[cursor - 1] == '(' {
        return ValuePrefix::InsideConstructor;
    }
    let mut start: usize = cursor;
    while start > 0 && is_word_char(chars[start - 1])
        invariant
            start <= cursor <= chars@.len(),
            word_start(chars@, cursor as int) == word_start(chars@, start as int),
        decreases start,
    {
        start -= 1;
    }
    if start == cursor {
        return ValuePrefix::Fresh;
    }
    classify_word(source.substring_char(start, cursor))
}

} // verus!
