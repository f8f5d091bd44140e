//! The kinds of characters that tokens are made of, and runs of them.

use crate::strings;
use vstd::prelude::*;

verus! {

/// Whether `n` is one of the ten numbers from `zero` on.
pub open spec fn ten(n: u32, zero: u32) -> bool {
    zero <= n < zero + 10
}

fn from_zero(n: u32, zero: u32) -> (r: bool)
    requires
        zero <= 0x10ffff,
    ensures
        r == ten(n, zero),
{
    zero <= n && n < zero + 10
}

/// Whether a character is a decimal digit, of any script.
pub open spec fn is_digit(c: char) -> bool {
    let n = c as u32;
    ten(n, 0x30) || ten(n, 0x660) || ten(n, 0x6f0)
        || ten(n, 0x7c0) || ten(n, 0x966) || ten(n, 0x9e6)
        || ten(n, 0xa66) || ten(n, 0xae6) || ten(n, 0xb66)
        || ten(n, 0xbe6) || ten(n, 0xc66) || ten(n, 0xce6)
        || ten(n, 0xd66) || ten(n, 0xde6) || ten(n, 0xe50)
        || ten(n, 0xed0) || ten(n, 0xf20) || ten(n, 0x1040)
        || ten(n, 0x1090) || ten(n, 0x17e0) || ten(n, 0x1810)
        || ten(n, 0x1946) || ten(n, 0x19d0) || ten(n, 0x1a80)
        || ten(n, 0x1a90) || ten(n, 0x1b50) || ten(n, 0x1bb0)
        || ten(n, 0x1c40) || ten(n, 0x1c50) || ten(n, 0xa620)
        || ten(n, 0xa8d0) || ten(n, 0xa900) || ten(n, 0xa9d0)
        || ten(n, 0xa9f0) || ten(n, 0xaa50) || ten(n, 0xabf0)
        || ten(n, 0xff10) || ten(n, 0x104a0) || ten(n, 0x10d30)
        || ten(n, 0x10d40) || ten(n, 0x11066) || ten(n, 0x110f0)
        || ten(n, 0x11136) || ten(n, 0x111d0) || ten(n, 0x112f0)
        || ten(n, 0x11450) || ten(n, 0x114d0) || ten(n, 0x11650)
        || ten(n, 0x116c0) || ten(n, 0x116d0) || ten(n, 0x116da)
        || ten(n, 0x11730) || ten(n, 0x118e0) || ten(n, 0x11950)
        || ten(n, 0x11bf0) || ten(n, 0x11c50) || ten(n, 0x11d50)
        || ten(n, 0x11da0) || ten(n, 0x11f50) || ten(n, 0x16130)
        || ten(n, 0x16a60) || ten(n, 0x16ac0) || ten(n, 0x16b50)
        || ten(n, 0x16d70) || ten(n, 0x1ccf0) || ten(n, 0x1d7ce)
        || ten(n, 0x1d7d8) || ten(n, 0x1d7e2) || ten(n, 0x1d7ec)
        || ten(n, 0x1d7f6) || ten(n, 0x1e140) || ten(n, 0x1e2f0)
        || ten(n, 0x1e4f0) || ten(n, 0x1e5f1) || ten(n, 0x1e950)
        || ten(n, 0x1fbf0)
}

fn digit(c: char) -> (r: bool)
    ensures
        r == is_digit(c),
{
    let n: u32 = c as u32;
    from_zero(n, 0x30) || from_zero(n, 0x660) || from_zero(n, 0x6f0)
        || from_zero(n, 0x7c0) || from_zero(n, 0x966) || from_zero(n, 0x9e6)
        || from_zero(n, 0xa66) || from_zero(n, 0xae6) || from_zero(n, 0xb66)
        || from_zero(n, 0xbe6) || from_zero(n, 0xc66) || from_zero(n, 0xce6)
        || from_zero(n, 0xd66) || from_zero(n, 0xde6) || from_zero(n, 0xe50)
        || from_zero(n, 0xed0) || from_zero(n, 0xf20) || from_zero(n, 0x1040)
        || from_zero(n, 0x1090) || from_zero(n, 0x17e0) || from_zero(n, 0x1810)
        || from_zero(n, 0x1946) || from_zero(n, 0x19d0) || from_zero(n, 0x1a80)
        || from_zero(n, 0x1a90) || from_zero(n, 0x1b50) || from_zero(n, 0x1bb0)
        || from_zero(n, 0x1c40) || from_zero(n, 0x1c50) || from_zero(n, 0xa620)
        || from_zero(n, 0xa8d0) || from_zero(n, 0xa900) || from_zero(n, 0xa9d0)
        || from_zero(n, 0xa9f0) || from_zero(n, 0xaa50) || from_zero(n, 0xabf0)
        || from_zero(n, 0xff10) || from_zero(n, 0x104a0) || from_zero(n, 0x10d30)
        || from_zero(n, 0x10d40) || from_zero(n, 0x11066) || from_zero(n, 0x110f0)
        || from_zero(n, 0x11136) || from_zero(n, 0x111d0) || from_zero(n, 0x112f0)
        || from_zero(n, 0x11450) || from_zero(n, 0x114d0) || from_zero(n, 0x11650)
        || from_zero(n, 0x116c0) || from_zero(n, 0x116d0) || from_zero(n, 0x116da)
        || from_zero(n, 0x11730) || from_zero(n, 0x118e0) || from_zero(n, 0x11950)
        || from_zero(n, 0x11bf0) || from_zero(n, 0x11c50) || from_zero(n, 0x11d50)
        || from_zero(n, 0x11da0) || from_zero(n, 0x11f50) || from_zero(n, 0x16130)
        || from_zero(n, 0x16a60) || from_zero(n, 0x16ac0) || from_zero(n, 0x16b50)
        || from_zero(n, 0x16d70) || from_zero(n, 0x1ccf0) || from_zero(n, 0x1d7ce)
        || from_zero(n, 0x1d7d8) || from_zero(n, 0x1d7e2) || from_zero(n, 0x1d7ec)
        || from_zero(n, 0x1d7f6) || from_zero(n, 0x1e140) || from_zero(n, 0x1e2f0)
        || from_zero(n, 0x1e4f0) || from_zero(n, 0x1e5f1) || from_zero(n, 0x1e950)
        || from_zero(n, 0x1fbf0)
}

/// The kinds of characters.
#[derive(Debug, Clone, Copy, PartialEq, Eq, Structural)]
pub enum Class {
    Blank,
    /// A blank or a carriage return.
    Space,
    /// All but a line feed.
    Line,
    WordStart,
    Word,
    Digit,
    Underscore,
    /// A digit or an underscore.
    NumberPart,
    Hex,
    /// What stands for an ASCII letter where case does not matter.
    Letter,
    Equals,
    /// What may stand in a comment of one line.
    Comment,
    /// What may stand behind the hyphens of a comment that ends with a line.
    CommentStart,
    /// What may stand between these quotes.
    Between(char),
    /// What may stand in the address of an asset.
    Address,
}

/// Whether a character is an ASCII letter.
pub open spec fn is_letter(c: char) -> bool {
    'a' <= c <= 'z' || 'A' <= c <= 'Z'
}

impl Class {
    pub open spec fn has(self, c: char) -> bool {
        match self {
            Class::Blank => c == ' ' || c == '\t' || c == '\n' || c == '\u{c}',
            Class::Space => c == ' ' || c == '\t' || c == '\n' || c == '\r' || c == '\u{c}',
            Class::Line => c != '\n',
            Class::WordStart => c == '_' || is_letter(c),
            Class::Word => c == '_' || is_letter(c) || is_digit(c),
            Class::Digit => is_digit(c),
            Class::Underscore => c == '_',
            Class::NumberPart => c == '_' || is_digit(c),
            Class::Hex => is_digit(c) || 'a' <= c <= 'f' || 'A' <= c <= 'F',
            Class::Letter => is_letter(c) || c == '\u{17f}' || c == '\u{212a}',
            Class::Equals => c == '=',
            Class::Comment => c != '[' && c != '\n' && c != '\u{c}' && c != '\r',
            Class::CommentStart => c != '(' && c != '[' && c != ')',
            Class::Between(quote) => c != quote && c != '\n' && c != '\t',
            Class::Address => c != ')' && c != ' ',
        }
    }

    pub fn contains(self, c: char) -> (r: bool)
        ensures
            r == self.has(c),
    {
        match self {
            Class::Blank => c == ' ' || c == '\t' || c == '\n' || c == '\u{c}',
            Class::Space => c == ' ' || c == '\t' || c == '\n' || c == '\r' || c == '\u{c}',
            Class::Line => c != '\n',
            Class::WordStart => c == '_' || letter(c),
            Class::Word => c == '_' || letter(c) || digit(c),
            Class::Digit => digit(c),
            Class::Underscore => c == '_',
            Class::NumberPart => c == '_' || digit(c),
            Class::Hex => digit(c) || ('a' <= c && c <= 'f') || ('A' <= c && c <= 'F'),
            Class::Letter => letter(c) || c == '\u{17f}' || c == '\u{212a}',
            Class::Equals => c == '=',
            Class::Comment => c != '[' && c != '\n' && c != '\u{c}' && c != '\r',
            Class::CommentStart => c != '(' && c != '[' && c != ')',
            Class::Between(quote) => c != quote && c != '\n' && c != '\t',
            Class::Address => c != ')' && c != ' ',
        }
    }
}

fn letter(c: char) -> (r: bool)
    ensures
        r == is_letter(c),
{
    ('a' <= c && c <= 'z') || ('A' <= c && c <= 'Z')
}

/// The first place from `i` on whose character is not of the class.
pub open spec fn past(text: Seq<char>, i: int, class: Class) -> int
    decreases text.len() - i,
{
    if 0 <= i < text.len() && class.has(text[i]) {
        past(text, i + 1, class)
    } else {
        i
    }
}

/// A run ends within the text, and no character in it is of another class.
pub proof fn lemma_past(text: Seq<char>, i: int, class: Class)
    requires
        0 <= i <= text.len(),
    ensures
        i <= past(text, i, class) <= text.len(),
        forall|j: int| i <= j < past(text, i, class) ==> class.has(#[trigger] text[j]),
        past(text, i, class) < text.len() ==> !class.has(text[past(text, i, class)]),
    decreases text.len() - i,
{
    if i < text.len() && class.has(text[i]) {
        lemma_past(text, i + 1, class);
    }
}

/// Passes over the characters of a class.
pub fn skip(text: &Vec<char>, start: usize, class: Class) -> (r: usize)
    requires
        start <= text@.len(),
    ensures
        r == past(text@, start as int, class),
        start <= r <= text@.len(),
{
    let mut i: usize = start;
    while i < text.len() && class.contains(text[i])
        invariant
            start <= i <= text@.len(),
            past(text@, start as int, class) == past(text@, i as int, class),
        decreases text@.len() - i,
    {
        i += 1;
    }
    i
}

/// Whether `word` stands at `i`.
pub open spec fn stands_at(text: Seq<char>, i: int, word: Seq<char>) -> bool {
    &&& i + word.len() <= text.len()
    &&& forall|j: int| 0 <= j < word.len() ==> text[i + j] == #[trigger] word[j]
}

pub fn reads(text: &Vec<char>, i: usize, word: &str) -> (r: bool)
    requires
        i <= text@.len(),
    ensures
        r == stands_at(text@, i as int, word@),
        text@.len() <= usize::MAX,
{
    let letters = strings::chars_of(word);
    let len: usize = text.len();
    if len - i < letters.len() {
        return false;
    }
    let mut j: usize = 0;
    while j < letters.len()
        invariant
            j <= letters@.len(),
            letters@ == word@,
            i + letters@.len() <= len == text@.len(),
            forall|k: int| 0 <= k < j ==> text@[i + k] == #[trigger] letters@[k],
        decreases letters@.len() - j,
    {
        if text[i + j] != letters[j] {
            return false;
        }
        j += 1;
    }
    true
}

/// Whether a character is the small letter `small`, where case does not matter. Two letters
/// beyond ASCII have a small letter of ASCII: the long s and the sign of the kelvin.
pub open spec fn is_cased(c: char, small: char) -> bool {
    ||| c == small
    ||| 'a' <= small <= 'z' && c as u32 + 32 == small as u32
    ||| small == 's' && c == '\u{17f}'
    ||| small == 'k' && c == '\u{212a}'
}

/// Whether `word`, which is written in small letters, stands at `i` in any case.
pub open spec fn stands_in_any_case(text: Seq<char>, i: int, word: Seq<char>) -> bool {
    &&& i + word.len() <= text.len()
    &&& forall|j: int| 0 <= j < word.len() ==> is_cased(text[i + j], #[trigger] word[j])
}

fn cased(c: char, small: char) -> (r: bool)
    ensures
        r == is_cased(c, small),
{
    let n: u32 = c as u32;
    let s: u32 = small as u32;
    c == small || ('a' <= small && small <= 'z' && n + 32 == s) || (small == 's'
        && c == '\u{17f}') || (small == 'k' && c == '\u{212a}')
}

pub fn reads_in_any_case(text: &Vec<char>, i: usize, word: &str) -> (r: bool)
    requires
        i <= text@.len(),
    ensures
        r == stands_in_any_case(text@, i as int, word@),
        text@.len() <= usize::MAX,
{
    let letters = strings::chars_of(word);
    let len: usize = text.len();
    if len - i < letters.len() {
        return false;
    }
    let mut j: usize = 0;
    while j < letters.len()
        invariant
            j <= letters@.len(),
            letters@ == word@,
            i + letters@.len() <= len == text@.len(),
            forall|k: int| 0 <= k < j ==> is_cased(text@[i + k], #[trigger] letters@[k]),
        decreases letters@.len() - j,
    {
        if !cased(text[i + j], letters[j]) {
            return false;
        }
        j += 1;
    }
    true
}

} // verus!
