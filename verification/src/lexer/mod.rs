//! The tokens of a style sheet.

pub mod chars;
pub mod grammar;
pub mod scan;
pub mod shape;

use chars::Class;
use vstd::prelude::*;

verus! {

#[derive(Debug, Clone, Copy, PartialEq, Eq, Structural)]
pub enum LexicalError {
    InvalidToken,
    Ignore,
}

impl Default for LexicalError {
    fn default() -> (r: Self)
        ensures
            r is InvalidToken,
    {
        LexicalError::InvalidToken
    }
}

#[derive(Debug, PartialEq)]
pub enum Token {
    OpPow,
    OpDiv,
    OpFloorDiv,
    OpMod,
    OpMult,
    OpAdd,
    OpSub,
    /// A comment of several lines, with its level; an error where it is not closed.
    CommentMulti(Result<usize, usize>),
    /// A string of several lines, with its level; an error where it is not closed.
    StringMulti(Result<usize, usize>),
    CommentSingle,
    ScopeOpen,
    ScopeClose,
    ParensOpen,
    ParensClose,
    Comma,
    SemiColon,
    Colon,
    Dot,
    Equals,
    Identifier,
    TokenIdentifier,
    StaticTokenIdentifier,
    StaticArgumentIdentifier,
    MacroIdentifier,
    TagSelectorOrEnumPart,
    NameSelector,
    PsuedoSelector,
    StateSelectorOrEnumPart,
    ChildrenSelector,
    DescendantsSelector,
    PriorityDeclaration,
    DeriveDeclaration,
    NameDeclaration,
    MacroDeclaration,
    UtilDeclaration,
    BoolTrue,
    BoolFalse,
    Nil,
    EnumKeyword,
    ColorTailwind,
    ColorSkin,
    ColorBrick,
    ColorCss,
    ColorHex,
    Number,
    NumberScale,
    NumberOffset,
    StringSingle,
    RbxAsset,
    RbxContent,
    Error,
    Expr(Expr),
}

#[derive(Debug, PartialEq)]
pub enum Expr {
    MacroDefinition,
    PriorityDefinition,
    PropertyAssignment,
    ScopeRuleDeclaration((Vec<Vec<Token>>, Vec<Token>)),
    Operation((Box<Token>, Box<Token>, Box<Token>)),
    Tuple((Option<Box<Token>>, Box<Vec<Token>>)),
    MacroCall((Box<Token>, Box<Vec<Vec<Token>>>)),
    Enum((Box<Token>, Box<Token>)),
    EnumShorthand(Box<Token>),
    AssetUrl(Box<Token>),
    ContentUrl(Box<Token>),
}

/// The first character behind the line that `i` is on.
pub open spec fn past_line(text: Seq<char>, i: int) -> int
    decreases text.len() - i,
{
    if i < 0 || i >= text.len() {
        i
    } else if text[i] == '\n' {
        i + 1
    } else {
        past_line(text, i + 1)
    }
}

pub proof fn lemma_past_line(text: Seq<char>, i: int)
    requires
        0 <= i <= text.len(),
    ensures
        i <= past_line(text, i) <= text.len(),
        i < text.len() ==> i < past_line(text, i),
    decreases text.len() - i,
{
    if i < text.len() {
        lemma_past_line(text, i + 1);
    }
}

/// The end of a block whose brackets take `len` characters, from `i` on: behind the first
/// closing bracket of that length. Closing brackets of other lengths are passed over whole,
/// and so is the rest of a line behind a `#`, where there are such lines.
pub open spec fn block_end(text: Seq<char>, i: int, len: int, has_lines: bool) -> Option<int>
    decreases text.len() - i,
{
    if i < 0 || i >= text.len() {
        None
    } else if text[i] == '#' && has_lines {
        proof {
            lemma_past_line(text, i);
        }
        block_end(text, past_line(text, i), len, has_lines)
    } else if text[i] == ']' {
        let close = chars::past(text, i + 1, Class::Equals);
        proof {
            chars::lemma_past(text, i + 1, Class::Equals);
        }
        if close < text.len() && text[close] == ']' {
            if close + 1 - i == len {
                Some(close + 1)
            } else {
                block_end(text, close + 1, len, has_lines)
            }
        } else {
            block_end(text, i + 1, len, has_lines)
        }
    } else {
        block_end(text, i + 1, len, has_lines)
    }
}

pub fn skip_line(text: &Vec<char>, start: usize) -> (r: usize)
    requires
        start < text@.len(),
    ensures
        r == past_line(text@, start as int),
        start < r <= text@.len(),
{
    let mut i: usize = start;
    proof {
        lemma_past_line(text@, start as int);
    }
    while i < text.len()
        invariant
            start <= i <= text@.len(),
            start < past_line(text@, start as int) <= text@.len(),
            past_line(text@, start as int) == past_line(text@, i as int),
        decreases text@.len() - i,
    {
        if text[i] == '\n' {
            return i + 1;
        }
        i += 1;
    }
    i
}

/// A block ends behind its start, within the text, and so does its closing bracket.
pub proof fn lemma_block_end(text: Seq<char>, i: int, len: int, has_lines: bool)
    requires
        0 <= i <= text.len(),
    ensures
        block_end(text, i, len, has_lines) matches Some(end) ==> i <= end - len && i < end
            <= text.len(),
    decreases text.len() - i,
{
    if i < text.len() {
        lemma_past_line(text, i);
        chars::lemma_past(text, i + 1, Class::Equals);
        lemma_block_end(text, i + 1, len, has_lines);
        if text[i] == '#' && has_lines {
            lemma_block_end(text, past_line(text, i), len, has_lines);
        } else if text[i] == ']' {
            let close = chars::past(text, i + 1, Class::Equals);
            if close < text.len() {
                lemma_block_end(text, close + 1, len, has_lines);
            }
        }
    }
}

/// Finds the end of a comment or string of several lines. `start` is the first character
/// behind its opening bracket, which takes `bracket_len` characters. The level is the number
/// of `=` in the brackets; without a closing bracket the block goes on to the end.
pub fn multiline_string_block(
    text: &Vec<char>,
    start: usize,
    bracket_len: usize,
    has_lines: bool,
) -> (r: (Result<usize, usize>, usize))
    requires
        start <= text@.len(),
        bracket_len >= 2,
    ensures
        match block_end(text@, start as int, bracket_len as int, has_lines) {
            Some(end) => r.0 == Ok::<usize, usize>((bracket_len - 2) as usize) && r.1 == end,
            None => r.0 == Err::<usize, usize>((bracket_len - 2) as usize) && r.1
                == text@.len(),
        },
{
    let level: usize = bracket_len - 2;
    let len: usize = text.len();
    let mut i: usize = start;
    while i < len
        invariant
            i <= len == text@.len(),
            level == bracket_len - 2,
            block_end(text@, start as int, bracket_len as int, has_lines) == block_end(
                text@,
                i as int,
                bracket_len as int,
                has_lines,
            ),
        decreases len - i,
    {
        if has_lines && text[i] == '#' {
            i = skip_line(text, i);
        } else if text[i] == ']' {
            let close: usize = chars::skip(text, i + 1, Class::Equals);
            if close < len && text[close] == ']' {
                if close + 1 - i == bracket_len {
                    return (Ok(level), close + 1);
                }
                i = close + 1;
            } else {
                i += 1;
            }
        } else {
            i += 1;
        }
    }
    (Err(level), len)
}

/// What is cut out of a text: a token or an error, and where it stands.
pub type Cut = (Result<Token, LexicalError>, usize, usize);

/// Whether something that was cut out is left out: a comment that is complete.
pub open spec fn is_left_out(cut: Cut) -> bool {
    match cut.0 {
        Ok(Token::CommentMulti(Ok(_))) => true,
        Ok(Token::CommentSingle) => true,
        _ => false,
    }
}

/// The token that something stands for. An error stands for a token of its own.
pub open spec fn token_of(cut: Cut) -> (usize, Token, usize) {
    match cut.0 {
        Ok(token) => (cut.1, token, cut.2),
        Err(_) => (cut.1, Token::Error, cut.2),
    }
}

/// The tokens of a text, without its comments.
pub open spec fn tokens_of(cuts: Seq<Cut>) -> Seq<(usize, Token, usize)>
    decreases cuts.len(),
{
    if cuts.len() == 0 {
        Seq::empty()
    } else if is_left_out(cuts[0]) {
        tokens_of(cuts.drop_first())
    } else {
        seq![token_of(cuts[0])] + tokens_of(cuts.drop_first())
    }
}

/// Hands out the tokens of a text, one after the other.
#[derive(Debug)]
pub struct Lexer {
    /// What is still to be handed out, last first.
    rest: Vec<Cut>,
}

impl View for Lexer {
    type V = Seq<(usize, Token, usize)>;

    /// The tokens that are still to be handed out.
    closed spec fn view(&self) -> Seq<(usize, Token, usize)> {
        tokens_of(self.rest@.reverse())
    }
}

impl Lexer {
    /// Starts at the first token of a text.
    pub fn new(input: &str) -> (r: Self)
        ensures
            r@ == tokens_of(grammar::cuts_of(input@, 0)),
    {
        Lexer::of(grammar::cut(input))
    }

    fn of(cuts: Vec<Cut>) -> (r: Self)
        ensures
            r@ == tokens_of(cuts@),
    {
        let mut cuts = cuts;
        let ghost all = cuts@;
        let mut rest: Vec<Cut> = Vec::new();
        assert(all.reverse().take(0) =~= Seq::empty());
        while cuts.len() > 0
            invariant
                cuts@ == all.take(cuts@.len() as int),
                cuts@.len() <= all.len(),
                rest@ == all.reverse().take(all.len() - cuts@.len()),
            decreases cuts@.len(),
        {
            let ghost n = cuts@.len();
            if let Some(cut) = cuts.pop() {
                assert(cut == all[n - 1]);
                assert(cuts@ =~= all.take(n - 1));
                assert(all.reverse()[all.len() - n] == all[n - 1]);
                assert(all.reverse().take(all.len() - n + 1) =~= all.reverse().take(
                    all.len() - n,
                ).push(cut));
                rest.push(cut);
            }
        }
        assert(rest@ =~= all.reverse());
        assert(all.reverse().reverse() =~= all);
        Lexer { rest }
    }

    /// The next token.
    pub fn next(&mut self) -> (r: Option<Result<(usize, Token, usize), LexicalError>>)
        ensures
            match r {
                Some(next) => old(self)@.len() > 0 && next == Ok::<
                    (usize, Token, usize),
                    LexicalError,
                >(old(self)@[0]) && final(self)@ == old(self)@.drop_first(),
                None => old(self)@.len() == 0 && final(self)@ == old(self)@,
            },
    {
        while self.rest.len() > 0
            invariant
                self@ == old(self)@,
            decreases self.rest@.len(),
        {
            let ghost before = self.rest@;
            let (cut, start, end) = match self.rest.pop() {
                Some(cut) => cut,
                None => return None,
            };
            proof {
                assert(before.reverse()[0] == (cut, start, end));
                assert(before.reverse().drop_first() =~= self.rest@.reverse());
            }
            match cut {
                Ok(Token::CommentMulti(Ok(_))) | Ok(Token::CommentSingle) => {},
                Ok(token) => {
                    assert(old(self)@.drop_first() =~= self@);
                    return Some(Ok((start, token, end)));
                },
                Err(_) => {
                    assert(old(self)@.drop_first() =~= self@);
                    return Some(Ok((start, Token::Error, end)));
                },
            }
        }
        assert(self.rest@.reverse() =~= Seq::empty());
        None
    }
}

} // verus!
