//! Positions in a document and the conversions between byte offsets and positions.

use crate::strings::chars_of;
use ropey::Rope;
use vstd::prelude::*;

verus! {

/// A zero-based line and column.
#[derive(Debug, Clone, Copy, PartialEq, Eq, Structural)]
pub struct Position {
    pub line: u32,
    pub character: u32,
}

/// A half-open stretch of a document.
#[derive(Debug, Clone, Copy, PartialEq, Eq, Structural)]
pub struct Range {
    pub start: Position,
    pub end: Position,
}

/// The number of bytes a character takes in UTF-8.
pub open spec fn utf8_width(c: char) -> nat {
    if c as u32 <= 0x7f {
        1
    } else if c as u32 <= 0x7ff {
        2
    } else if c as u32 <= 0xffff {
        3
    } else {
        4
    }
}

/// The number of bytes a text takes in UTF-8.
pub open spec fn utf8_len(text: Seq<char>) -> nat
    decreases text.len(),
{
    if text.len() == 0 {
        0
    } else {
        utf8_len(text.drop_last()) + utf8_width(text.last())
    }
}

/// The index of the character that holds the given byte; the number of characters at
/// the end of the text and past it.
pub open spec fn char_of_byte(text: Seq<char>, byte: int) -> nat
    decreases text.len(),
{
    if text.len() == 0 || byte < utf8_width(text[0]) {
        0
    } else {
        1 + char_of_byte(text.drop_first(), byte - utf8_width(text[0]))
    }
}

/// Whether a line ends right after the character at `i`. A carriage return that a line
/// feed follows ends no line of its own.
pub open spec fn ends_line(text: Seq<char>, i: int) -> bool {
    let c = text[i] as u32;
    ||| c == 0x0a || c == 0x0b || c == 0x0c || c == 0x85 || c == 0x2028 || c == 0x2029
    ||| c == 0x0d && !(i + 1 < text.len() && text[i + 1] as u32 == 0x0a)
}

/// The number of lines that end before the character at `char_idx`.
pub open spec fn line_of_char(text: Seq<char>, char_idx: int) -> nat
    decreases char_idx,
{
    if char_idx <= 0 {
        0
    } else if ends_line(text, char_idx - 1) {
        line_of_char(text, char_idx - 1) + 1
    } else {
        line_of_char(text, char_idx - 1)
    }
}

/// The first character of the line that `char_idx` is on.
pub open spec fn line_start(text: Seq<char>, char_idx: int) -> int
    decreases char_idx,
{
    if char_idx <= 0 {
        0
    } else if ends_line(text, char_idx - 1) {
        char_idx
    } else {
        line_start(text, char_idx - 1)
    }
}

/// The position of the character at `char_idx`.
pub open spec fn position_of(text: Seq<char>, char_idx: int) -> Position {
    Position {
        line: line_of_char(text, char_idx) as u32,
        character: (char_idx - line_start(text, char_idx)) as u32,
    }
}

/// The range of a span of bytes. A byte past the end of the text stands for the end.
pub open spec fn range_of(text: Seq<char>, span: (int, int)) -> Range {
    Range {
        start: position_of(text, char_of_byte(text, span.0) as int),
        end: position_of(text, char_of_byte(text, span.1) as int),
    }
}

/// `ropey::Rope`, the text of a document.
#[verifier::external_type_specification]
#[verifier::external_body]
pub struct ExRope(Rope);

/// The text that a rope holds.
pub uninterp spec fn rope_text(rope: &Rope) -> Seq<char>;

/// Calls `Rope::from_str`, which builds a rope that holds the given text.
#[verifier::external_body]
pub(crate) fn rope_from_str(text: &str) -> (rope: Rope)
    ensures
        rope_text(&rope) == text@,
{
    Rope::from_str(text)
}

/// Calls `Rope::len_bytes`: the length of the text in bytes.
#[verifier::external_body]
pub(crate) fn rope_len_bytes(rope: &Rope) -> (len: usize)
    ensures
        len == utf8_len(rope_text(rope)),
{
    rope.len_bytes()
}

/// Calls `Rope::byte_to_char`: the index of the character that the byte belongs to, or
/// the number of characters for the byte just past the end. It panics on a byte beyond.
#[verifier::external_body]
pub(crate) fn rope_byte_to_char(rope: &Rope, byte_idx: usize) -> (char_idx: usize)
    requires
        byte_idx <= utf8_len(rope_text(rope)),
    ensures
        char_idx == char_of_byte(rope_text(rope), byte_idx as int),
{
    rope.byte_to_char(byte_idx)
}

/// Calls `Rope::char_to_line`: the number of line endings before the character. It
/// panics past the end of the text.
#[verifier::external_body]
pub(crate) fn rope_char_to_line(rope: &Rope, char_idx: usize) -> (line_idx: usize)
    requires
        char_idx <= rope_text(rope).len(),
    ensures
        line_idx == line_of_char(rope_text(rope), char_idx as int),
{
    rope.char_to_line(char_idx)
}

/// Calls `Rope::line_to_char`: the first character that as many lines end before. It
/// panics past the number of lines, which is one more than the number of line endings.
#[verifier::external_body]
pub(crate) fn rope_line_to_char(rope: &Rope, line_idx: usize) -> (char_idx: usize)
    requires
        line_idx <= line_of_char(rope_text(rope), rope_text(rope).len() as int),
    ensures
        char_idx <= rope_text(rope).len(),
        line_of_char(rope_text(rope), char_idx as int) == line_idx,
        forall|c: int| 0 <= c < char_idx ==> line_of_char(rope_text(rope), c) < line_idx,
{
    rope.line_to_char(line_idx)
}

pub proof fn lemma_char_of_byte_bounded(text: Seq<char>, byte: int)
    ensures
        char_of_byte(text, byte) <= text.len(),
    decreases text.len(),
{
    if text.len() == 0 || byte < utf8_width(text[0]) {
    } else {
        lemma_char_of_byte_bounded(text.drop_first(), byte - utf8_width(text[0]));
    }
}

pub proof fn lemma_utf8_len_drop_first(text: Seq<char>)
    requires
        text.len() > 0,
    ensures
        utf8_len(text) == utf8_width(text[0]) + utf8_len(text.drop_first()),
    decreases text.len(),
{
    if text.len() == 1 {
        assert(text.drop_last() =~= Seq::<char>::empty());
        assert(text.drop_first() =~= Seq::<char>::empty());
    } else {
        lemma_utf8_len_drop_first(text.drop_last());
        assert(text.drop_last().drop_first() =~= text.drop_first().drop_last());
    }
}

/// Every byte from the end of the text on stands for the end of the text.
proof fn lemma_char_of_byte_past_end(text: Seq<char>, byte: int)
    requires
        byte >= utf8_len(text),
    ensures
        char_of_byte(text, byte) == text.len(),
    decreases text.len(),
{
    if text.len() > 0 {
        lemma_utf8_len_drop_first(text);
        lemma_char_of_byte_past_end(text.drop_first(), byte - utf8_width(text[0]));
    }
}

proof fn lemma_line_of_char_monotone(text: Seq<char>, a: int, b: int)
    requires
        a <= b,
    ensures
        line_of_char(text, a) <= line_of_char(text, b),
    decreases b - a,
{
    if a < b {
        lemma_line_of_char_monotone(text, a, b - 1);
    }
}

/// The start of a line is the only character on it that no character on it precedes.
proof fn lemma_line_start_is_least(text: Seq<char>, char_idx: int, start: int)
    requires
        0 <= start,
        0 <= char_idx,
        line_of_char(text, start) == line_of_char(text, char_idx),
        forall|c: int| 0 <= c < start ==> line_of_char(text, c) < line_of_char(text, char_idx),
    ensures
        start == line_start(text, char_idx),
        start <= char_idx,
    decreases char_idx,
{
    if start > char_idx {
        assert(line_of_char(text, char_idx) < line_of_char(text, char_idx));
    }
    if char_idx > 0 {
        if ends_line(text, char_idx - 1) {
            if start < char_idx {
                lemma_line_of_char_monotone(text, start, char_idx - 1);
            }
        } else {
            lemma_line_start_is_least(text, char_idx - 1, start);
        }
    }
}

/// The characters before byte `byte` are as many as the character that holds it counts.
pub(crate) proof fn lemma_char_of_byte_skips(text: Seq<char>, byte: int, n: int)
    requires
        0 <= n <= text.len(),
        utf8_len(text.take(n)) <= byte,
    ensures
        char_of_byte(text, byte) == n + char_of_byte(text.skip(n), byte - utf8_len(text.take(n))),
    decreases n,
{
    if n == 0 {
        assert(text.skip(0) =~= text);
        assert(text.take(0) =~= Seq::empty());
    } else {
        assert(text.take(n).drop_last() =~= text.take(n - 1));
        lemma_char_of_byte_skips(text, byte, n - 1);
        assert(text.skip(n - 1).drop_first() =~= text.skip(n));
        assert(text.skip(n - 1)[0] == text[n - 1]);
    }
}

/// The number of bytes of a character.
pub(crate) fn char_width(c: char) -> (r: usize)
    ensures
        r == utf8_width(c),
{
    let code: u32 = c as u32;
    if code <= 0x7f {
        1
    } else if code <= 0x7ff {
        2
    } else if code <= 0xffff {
        3
    } else {
        4
    }
}

/// Finds the character that holds the given byte.
pub fn char_index(text: &Vec<char>, byte: usize) -> (r: usize)
    ensures
        r == char_of_byte(text@, byte as int),
        r <= text@.len(),
{
    let mut rest: usize = byte;
    let mut i: usize = 0;
    assert(text@.take(0) =~= Seq::empty());
    while i < text.len()
        invariant
            i <= text@.len(),
            rest == byte - utf8_len(text@.take(i as int)),
        decreases text@.len() - i,
    {
        proof {
            lemma_char_of_byte_skips(text@, byte as int, i as int);
            assert(text@.take(i + 1).drop_last() =~= text@.take(i as int));
            assert(text@.skip(i as int)[0] == text@[i as int]);
        }
        let width: usize = char_width(text[i]);
        if rest < width {
            return i;
        }
        rest -= width;
        i += 1;
    }
    proof {
        lemma_char_of_byte_skips(text@, byte as int, i as int);
        assert(text@.skip(i as int) =~= Seq::empty());
    }
    i
}

/// Finds the position of a character.
fn position_in(rope: &Rope, char_idx: usize) -> (r: Position)
    requires
        char_idx <= rope_text(rope).len(),
    ensures
        r == position_of(rope_text(rope), char_idx as int),
{
    let ghost text = rope_text(rope);
    let line_idx: usize = rope_char_to_line(rope, char_idx);
    proof {
        lemma_line_of_char_monotone(text, char_idx as int, text.len() as int);
    }
    let start: usize = rope_line_to_char(rope, line_idx);
    proof {
        lemma_line_start_is_least(text, char_idx as int, start as int);
    }
    Position { line: line_idx as u32, character: (char_idx - start) as u32 }
}

/// The offset itself, or the end of the text where it lies beyond.
fn byte_to_char(rope: &Rope, byte_idx: usize) -> (r: usize)
    ensures
        r == char_of_byte(rope_text(rope), byte_idx as int),
        r <= rope_text(rope).len(),
{
    let len: usize = rope_len_bytes(rope);
    let idx: usize = if byte_idx <= len { byte_idx } else { len };
    proof {
        lemma_char_of_byte_bounded(rope_text(rope), byte_idx as int);
        if byte_idx > len {
            lemma_char_of_byte_past_end(rope_text(rope), byte_idx as int);
            lemma_char_of_byte_past_end(rope_text(rope), len as int);
        }
    }
    rope_byte_to_char(rope, idx)
}

impl Range {
    /// Converts a span of bytes of the rope's text to a range.
    pub fn from_span(rope: &Rope, location: (usize, usize)) -> (r: Range)
        ensures
            r == range_of(rope_text(rope), (location.0 as int, location.1 as int)),
    {
        let start_char_idx: usize = byte_to_char(rope, location.0);
        let end_char_idx: usize = byte_to_char(rope, location.1);
        Range { start: position_in(rope, start_char_idx), end: position_in(rope, end_char_idx) }
    }
}

/// The number of line feeds before the character at `i`.
pub open spec fn line_feeds(text: Seq<char>, i: int) -> nat
    decreases i,
{
    if 0 < i <= text.len() {
        line_feeds(text, i - 1) + (if text[i - 1] == '\n' {
            1nat
        } else {
            0nat
        })
    } else {
        0
    }
}

/// The first character from `i` on that as many line feeds as `line` come before; the first
/// of the text where there is none.
pub open spec fn first_of_line(text: Seq<char>, line: nat, i: int) -> int
    decreases text.len() - i,
{
    if i >= text.len() {
        0
    } else if line_feeds(text, i) == line {
        i
    } else {
        first_of_line(text, line, i + 1)
    }
}

/// The number of units a character takes in UTF-16.
pub open spec fn utf16_width(c: char) -> nat {
    if c as u32 <= 0xffff {
        1
    } else {
        2
    }
}

/// The character that is reached from `i` after at least `units` units of UTF-16, or the end.
pub open spec fn advanced(text: Seq<char>, i: int, units: int) -> int
    decreases text.len() - i,
{
    if i >= text.len() || units <= 0 {
        i
    } else {
        advanced(text, i + 1, units - utf16_width(text[i]))
    }
}

/// The byte at a position that an editor gives: lines end with a line feed, and columns
/// count units of UTF-16. A line past the last one stands for the end of the text; a last
/// line without characters stands for the first.
pub open spec fn offset_of(text: Seq<char>, position: Position) -> nat {
    if line_feeds(text, text.len() as int) < position.line {
        utf8_len(text)
    } else {
        let start = first_of_line(text, position.line as nat, 0);
        utf8_len(text.take(advanced(text, start, position.character as int)))
    }
}

pub(crate) proof fn lemma_utf8_len_is_encoded(text: Seq<char>)
    ensures
        utf8_len(text) == vstd::utf8::encode_utf8(text).len(),
    decreases text.len(),
{
    if text.len() > 0 {
        lemma_utf8_len_drop_first(text);
        lemma_utf8_len_is_encoded(text.drop_first());
        vstd::utf8::char_is_scalar(text[0]);
    }
}

proof fn lemma_utf8_len_monotone(text: Seq<char>, i: int)
    requires
        0 <= i <= text.len(),
    ensures
        utf8_len(text.take(i)) <= utf8_len(text),
    decreases text.len() - i,
{
    if i < text.len() {
        lemma_utf8_len_monotone(text, i + 1);
        assert(text.take(i + 1).drop_last() =~= text.take(i));
    } else {
        assert(text.take(i) =~= text);
    }
}

/// Counts the line feeds of a text up to the first character of a line.
fn find_line(chars: &Vec<char>, line: usize) -> (r: Option<usize>)
    ensures
        match r {
            Some(start) => line_feeds(chars@, chars@.len() as int) >= line && start
                == first_of_line(chars@, line as nat, 0) && start <= chars@.len(),
            None => line_feeds(chars@, chars@.len() as int) < line,
        },
{
    let mut count: usize = 0;
    let mut i: usize = 0;
    while i < chars.len()
        invariant
            i <= chars@.len(),
            count == line_feeds(chars@, i as int),
            count <= i,
            first_of_line(chars@, line as nat, 0) == first_of_line(chars@, line as nat, i as int),
        decreases chars@.len() - i,
    {
        if count == line {
            proof {
                lemma_line_feeds_monotone(chars@, i as int, chars@.len() as int);
            }
            return Some(i);
        }
        if chars[i] == '\n' {
            count += 1;
        }
        i += 1;
    }
    if count < line {
        return None;
    }
    Some(0)
}

proof fn lemma_line_feeds_monotone(text: Seq<char>, a: int, b: int)
    requires
        0 <= a <= b <= text.len(),
    ensures
        line_feeds(text, a) <= line_feeds(text, b),
    decreases b - a,
{
    if a < b {
        lemma_line_feeds_monotone(text, a, b - 1);
    }
}

/// The number of bytes of a text.
pub fn byte_len(text: &str) -> (r: usize)
    ensures
        r == utf8_len(text@),
{
    proof {
        lemma_utf8_len_is_encoded(text@);
    }
    text.as_bytes().len()
}

/// The number of bytes of the first `end` characters of a text, from the number of those of
/// the first `start`.
pub fn bytes_of(chars: &Vec<char>, start: usize, before: usize, end: usize, total: usize) -> (r:
    usize)
    requires
        start <= end <= chars@.len(),
        before == utf8_len(chars@.take(start as int)),
        total == utf8_len(chars@),
    ensures
        r == utf8_len(chars@.take(end as int)),
        r >= before,
{
    let mut bytes: usize = before;
    let mut i: usize = start;
    while i < end
        invariant
            i <= end <= chars@.len(),
            total == utf8_len(chars@),
            bytes == utf8_len(chars@.take(i as int)),
            bytes >= before,
        decreases end - i,
    {
        assert(chars@.take(i + 1).drop_last() =~= chars@.take(i as int));
        proof {
            lemma_utf8_len_monotone(chars@, i + 1);
        }
        bytes += char_width(chars[i]);
        i += 1;
    }
    bytes
}

impl Position {
    /// Finds the byte at a position that an editor gives.
    pub fn byte_offset(&self, text: &str) -> (r: usize)
        ensures
            r == offset_of(text@, *self),
    {
        let chars = chars_of(text);
        let total: usize = byte_len(text);
        let start: usize = match find_line(&chars, self.line as usize) {
            Some(start) => start,
            None => return total,
        };
        let character: usize = self.character as usize;
        let mut units: usize = 0;
        let mut i: usize = start;
        while i < chars.len() && units < character
            invariant
                i <= chars@.len(),
                character == self.character,
                units <= character + 1,
                character <= u32::MAX,
                advanced(chars@, start as int, character as int) == advanced(
                    chars@,
                    i as int,
                    character - units,
                ),
            decreases chars@.len() - i,
        {
            if (chars[i] as u32) <= 0xffff {
                units += 1;
            } else {
                if units >= character - 1 {
                    proof {
                        assert(advanced(
                            chars@,
                            i + 1,
                            character - units - 2,
                        ) == i + 1);
                        assert(advanced(chars@, i + 1, 0) == i + 1);
                    }
                    units = character;
                } else {
                    units += 2;
                }
            }
            i += 1;
        }
        assert(chars@.take(0) =~= Seq::empty());
        bytes_of(&chars, 0, 0, i, total)
    }
}

/// Whether all characters take one unit of UTF-16, and lines end with line feeds only.
pub open spec fn is_plain(text: Seq<char>) -> bool {
    forall|k: int|
        0 <= k < text.len() ==> utf16_width(#[trigger] text[k]) == 1 && (ends_line(text, k)
            <==> text[k] == '\n')
}

proof fn lemma_lines_are_line_feeds(text: Seq<char>, i: int)
    requires
        is_plain(text),
        0 <= i <= text.len(),
    ensures
        line_of_char(text, i) == line_feeds(text, i),
        line_feeds(text, i) <= i,
    decreases i,
{
    if i > 0 {
        assert(utf16_width(text[i - 1]) == 1);
        lemma_lines_are_line_feeds(text, i - 1);
    }
}

proof fn lemma_line_start(text: Seq<char>, i: int)
    requires
        is_plain(text),
        0 <= i <= text.len(),
    ensures
        0 <= line_start(text, i) <= i,
        line_feeds(text, line_start(text, i)) == line_feeds(text, i),
        line_start(text, i) > 0 ==> text[line_start(text, i) - 1] == '\n',
        i > 0 && text[i - 1] != '\n' ==> line_start(text, i) < i,
    decreases i,
{
    if i > 0 {
        assert(utf16_width(text[i - 1]) == 1);
        if !ends_line(text, i - 1) {
            lemma_line_start(text, i - 1);
        }
    }
}

proof fn lemma_first_of_line(text: Seq<char>, start: int, i: int)
    requires
        0 <= i <= start < text.len(),
        start > 0 ==> text[start - 1] == '\n',
    ensures
        first_of_line(text, line_feeds(text, start), i) == start,
    decreases start - i,
{
    if i < start {
        lemma_line_feeds_monotone(text, i, start - 1);
        lemma_first_of_line(text, start, i + 1);
    }
}

proof fn lemma_advanced(text: Seq<char>, start: int, i: int)
    requires
        is_plain(text),
        0 <= start <= i <= text.len(),
    ensures
        advanced(text, start, i - start) == i,
    decreases i - start,
{
    if start < i {
        assert(utf16_width(text[start]) == 1);
        lemma_advanced(text, start + 1, i);
    }
}

/// The position of a character leads back to the character's first byte. This holds of
/// texts in which both ways of counting lines and columns agree, but for the end of a text
/// that ends with a line feed.
pub proof fn lemma_offset_undoes_position(text: Seq<char>, i: int)
    requires
        is_plain(text),
        text.len() <= u32::MAX,
        0 <= i <= text.len(),
        i == text.len() && i > 0 ==> text.last() != '\n',
    ensures
        offset_of(text, position_of(text, i)) == utf8_len(text.take(i)),
{
    let start = line_start(text, i);
    lemma_lines_are_line_feeds(text, i);
    lemma_line_start(text, i);
    lemma_line_feeds_monotone(text, i, text.len() as int);
    lemma_advanced(text, start, i);
    if text.len() > 0 {
        lemma_first_of_line(text, start, 0);
    }
}

/// The byte at the end of a text stands for the end.
pub proof fn lemma_char_of_last_byte(text: Seq<char>)
    ensures
        char_of_byte(text, utf8_len(text) as int) == text.len(),
    decreases text.len(),
{
    if text.len() > 0 {
        lemma_utf8_len_drop_first(text);
        lemma_char_of_last_byte(text.drop_first());
    }
}

/// The number of units a text takes in UTF-16.
pub open spec fn utf16_len(text: Seq<char>) -> nat
    decreases text.len(),
{
    if text.len() == 0 {
        0
    } else {
        utf16_len(text.drop_last()) + utf16_width(text.last())
    }
}

/// The first character behind the last line feed in front of a character.
pub open spec fn behind_line_feed(text: Seq<char>, i: int) -> int
    decreases i,
{
    if i <= 0 {
        0
    } else if text[i - 1] == '\n' {
        i
    } else {
        behind_line_feed(text, i - 1)
    }
}

proof fn lemma_behind_line_feed(text: Seq<char>, i: int)
    requires
        0 <= i <= text.len(),
    ensures
        0 <= behind_line_feed(text, i) <= i,
        line_feeds(text, behind_line_feed(text, i)) == line_feeds(text, i),
        behind_line_feed(text, i) > 0 ==> text[behind_line_feed(text, i) - 1] == '\n',
    decreases i,
{
    if i > 0 && text[i - 1] != '\n' {
        lemma_behind_line_feed(text, i - 1);
    }
}

proof fn lemma_utf16_len_add(a: Seq<char>, b: Seq<char>)
    ensures
        utf16_len(a + b) == utf16_len(a) + utf16_len(b),
    decreases b.len(),
{
    if b.len() == 0 {
        assert(a + b =~= a);
    } else {
        assert((a + b).drop_last() =~= a + b.drop_last());
        lemma_utf16_len_add(a, b.drop_last());
    }
}

proof fn lemma_advanced_by_units(text: Seq<char>, start: int, i: int)
    requires
        0 <= start <= i <= text.len(),
    ensures
        advanced(text, start, utf16_len(text.subrange(start, i)) as int) == i,
    decreases i - start,
{
    if start < i {
        let first = seq![text[start]];
        assert(text.subrange(start, i) =~= first + text.subrange(start + 1, i));
        lemma_utf16_len_add(first, text.subrange(start + 1, i));
        assert(first.drop_last() =~= Seq::empty());
        reveal_with_fuel(utf16_len, 2);
        lemma_advanced_by_units(text, start + 1, i);
    }
}

proof fn lemma_advanced_bounded(text: Seq<char>, i: int, units: int)
    requires
        0 <= i <= text.len(),
    ensures
        i <= advanced(text, i, units) <= text.len(),
    decreases text.len() - i,
{
    if i < text.len() && units > 0 {
        lemma_advanced_bounded(text, i + 1, units - utf16_width(text[i]));
    }
}

proof fn lemma_first_of_line_bounded(text: Seq<char>, line: nat, i: int)
    requires
        0 <= i <= text.len(),
    ensures
        0 <= first_of_line(text, line, i) <= text.len(),
    decreases text.len() - i,
{
    if i < text.len() && line_feeds(text, i) != line {
        lemma_first_of_line_bounded(text, line, i + 1);
    }
}

/// Whatever the text is, the position of a character, by line feeds and units of UTF-16, leads
/// back to the character's first byte. Only a last line without characters is left out.
pub proof fn lemma_offset_finds_character(text: Seq<char>, i: int, position: Position)
    requires
        0 <= i <= text.len(),
        behind_line_feed(text, i) == 0 || behind_line_feed(text, i) < text.len(),
        position.line == line_feeds(text, i),
        position.character == utf16_len(text.subrange(behind_line_feed(text, i), i)),
    ensures
        offset_of(text, position) == utf8_len(text.take(i)),
{
    let start = behind_line_feed(text, i);
    lemma_behind_line_feed(text, i);
    lemma_line_feeds_monotone(text, i, text.len() as int);
    lemma_advanced_by_units(text, start, i);
    if text.len() > 0 {
        lemma_first_of_line(text, start, 0);
    }
}

/// Every position at all leads to the first byte of a character, or to the end of the text.
pub proof fn lemma_offset_is_boundary(text: Seq<char>, position: Position)
    ensures
        exists|i: int|
            0 <= i <= text.len() && offset_of(text, position) == utf8_len(#[trigger] text.take(i)),
        offset_of(text, position) <= utf8_len(text),
{
    let i = if line_feeds(text, text.len() as int) < position.line {
        text.len() as int
    } else {
        advanced(
            text,
            first_of_line(text, position.line as nat, 0),
            position.character as int,
        )
    };
    lemma_first_of_line_bounded(text, position.line as nat, 0);
    lemma_advanced_bounded(
        text,
        first_of_line(text, position.line as nat, 0),
        position.character as int,
    );
    assert(text.take(text.len() as int) =~= text);
    assert(offset_of(text, position) == utf8_len(text.take(i)));
    lemma_utf8_len_monotone(text, i);
}

} // verus!
