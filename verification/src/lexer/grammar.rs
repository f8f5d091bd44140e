//! The token grammar of a style sheet, and cutting a text by it.

use super::chars::Class;
use super::scan::find_longest;
use super::shape::Shape;
use super::{scan, shape};
use super::{multiline_string_block, Cut, LexicalError, Token};
use crate::strings::chars_of;
use crate::text::{byte_len, bytes_of};
use crate::text;
use vstd::prelude::*;

verus! {

/// What a piece of a text is.
#[derive(Debug, Clone, Copy)]
pub enum Kind {
    /// A piece that no token stands for.
    Nothing,
    RbxContent,
    CommentMulti,
    StringMulti,
    CommentSingle,
    NumberScale,
    NumberOffset,
    MacroDeclaration,
    UtilDeclaration,
    BoolTrue,
    BoolFalse,
    Nil,
    EnumKeyword,
    ColorTailwind,
    ColorSkin,
    ColorBrick,
    ColorCss,
    RbxAsset,
    StringSingle,
    Number,
    ColorHex,
    MacroIdentifier,
    Identifier,
    OpPow,
    OpDiv,
    OpFloorDiv,
    OpMod,
    OpMult,
    OpAdd,
    OpSub,
    ScopeOpen,
    ScopeClose,
    ParensOpen,
    ParensClose,
    Comma,
    SemiColon,
    Colon,
    Dot,
    Equals,
    TokenIdentifier,
    StaticTokenIdentifier,
    StaticArgumentIdentifier,
    TagSelectorOrEnumPart,
    NameSelector,
    PsuedoSelector,
    StateSelectorOrEnumPart,
    ChildrenSelector,
    DescendantsSelector,
    PriorityDeclaration,
    DeriveDeclaration,
    NameDeclaration,
}

/// The shapes of the pieces of a text. Where two shapes fit pieces of the same length, the one
/// that is higher up counts.
pub open spec fn rows() -> Seq<(Shape, Kind)> {
    seq![
        (Shape::Led("contentid://", Class::Digit), Kind::RbxContent),
        (Shape::Bracket("--"), Kind::CommentMulti),
        (Shape::Bracket(""), Kind::StringMulti),
        (Shape::Led("--", Class::Comment), Kind::CommentSingle),
        (Shape::Number("%"), Kind::NumberScale),
        (Shape::Number("px"), Kind::NumberOffset),
        (Shape::Literal("@macro"), Kind::MacroDeclaration),
        (Shape::Literal("@util"), Kind::UtilDeclaration),
        (Shape::Literal("true"), Kind::BoolTrue),
        (Shape::Literal("false"), Kind::BoolFalse),
        (Shape::Literal("nil"), Kind::Nil),
        (Shape::Literal("Enum"), Kind::EnumKeyword),
        (Shape::Color("tw:", true), Kind::ColorTailwind),
        (Shape::Color("skin:", true), Kind::ColorSkin),
        (Shape::Color("bc:", false), Kind::ColorBrick),
        (Shape::Color("css:", false), Kind::ColorCss),
        (Shape::Led("rbxassetid://", Class::Digit), Kind::RbxAsset),
        (Shape::Led("rbxasset://", Class::Address), Kind::RbxAsset),
        (Shape::Led("rbxthumb://", Class::Address), Kind::RbxAsset),
        (Shape::Led("rbxgameasset://", Class::Address), Kind::RbxAsset),
        (Shape::Led("rbxhttp://", Class::Address), Kind::RbxAsset),
        (Shape::Led("rbxtemp://", Class::Address), Kind::RbxAsset),
        (Shape::Led("http://", Class::Address), Kind::RbxAsset),
        (Shape::Led("https://", Class::Address), Kind::RbxAsset),
        (Shape::Quoted('"'), Kind::StringSingle),
        (Shape::Quoted('\''), Kind::StringSingle),
        (Shape::Number(""), Kind::Number),
        (Shape::LedRun("#", Class::Hex), Kind::ColorHex),
        (Shape::Call, Kind::MacroIdentifier),
        (Shape::Name, Kind::Identifier),
        (Shape::Run(Class::Blank), Kind::Nothing),
        (Shape::HashLine, Kind::Nothing),
        (Shape::Literal("^"), Kind::OpPow),
        (Shape::Literal("/"), Kind::OpDiv),
        (Shape::Literal("//"), Kind::OpFloorDiv),
        (Shape::Literal("%"), Kind::OpMod),
        (Shape::Literal("*"), Kind::OpMult),
        (Shape::Literal("+"), Kind::OpAdd),
        (Shape::Literal("-"), Kind::OpSub),
        (Shape::Literal("{"), Kind::ScopeOpen),
        (Shape::Literal("}"), Kind::ScopeClose),
        (Shape::Literal("("), Kind::ParensOpen),
        (Shape::Literal(")"), Kind::ParensClose),
        (Shape::Literal(","), Kind::Comma),
        (Shape::Literal(";"), Kind::SemiColon),
        (Shape::Literal(":"), Kind::Colon),
        (Shape::Literal("."), Kind::Dot),
        (Shape::Literal("="), Kind::Equals),
        (Shape::Sigil("$"), Kind::TokenIdentifier),
        (Shape::Sigil("$!"), Kind::StaticTokenIdentifier),
        (Shape::Sigil("&"), Kind::StaticArgumentIdentifier),
        (Shape::Sigil("."), Kind::TagSelectorOrEnumPart),
        (Shape::Sigil("#"), Kind::NameSelector),
        (Shape::Sigil("::"), Kind::PsuedoSelector),
        (Shape::Sigil(":"), Kind::StateSelectorOrEnumPart),
        (Shape::Literal(">"), Kind::ChildrenSelector),
        (Shape::Literal(">>"), Kind::DescendantsSelector),
        (Shape::Literal("@priority"), Kind::PriorityDeclaration),
        (Shape::Literal("@derive"), Kind::DeriveDeclaration),
        (Shape::Literal("@name"), Kind::NameDeclaration),
    ]
}

fn table() -> (r: Vec<(Shape, Kind)>)
    ensures
        r@ == rows(),
{
    vec![
        (Shape::Led("contentid://", Class::Digit), Kind::RbxContent),
        (Shape::Bracket("--"), Kind::CommentMulti),
        (Shape::Bracket(""), Kind::StringMulti),
        (Shape::Led("--", Class::Comment), Kind::CommentSingle),
        (Shape::Number("%"), Kind::NumberScale),
        (Shape::Number("px"), Kind::NumberOffset),
        (Shape::Literal("@macro"), Kind::MacroDeclaration),
        (Shape::Literal("@util"), Kind::UtilDeclaration),
        (Shape::Literal("true"), Kind::BoolTrue),
        (Shape::Literal("false"), Kind::BoolFalse),
        (Shape::Literal("nil"), Kind::Nil),
        (Shape::Literal("Enum"), Kind::EnumKeyword),
        (Shape::Color("tw:", true), Kind::ColorTailwind),
        (Shape::Color("skin:", true), Kind::ColorSkin),
        (Shape::Color("bc:", false), Kind::ColorBrick),
        (Shape::Color("css:", false), Kind::ColorCss),
        (Shape::Led("rbxassetid://", Class::Digit), Kind::RbxAsset),
        (Shape::Led("rbxasset://", Class::Address), Kind::RbxAsset),
        (Shape::Led("rbxthumb://", Class::Address), Kind::RbxAsset),
        (Shape::Led("rbxgameasset://", Class::Address), Kind::RbxAsset),
        (Shape::Led("rbxhttp://", Class::Address), Kind::RbxAsset),
        (Shape::Led("rbxtemp://", Class::Address), Kind::RbxAsset),
        (Shape::Led("http://", Class::Address), Kind::RbxAsset),
        (Shape::Led("https://", Class::Address), Kind::RbxAsset),
        (Shape::Quoted('"'), Kind::StringSingle),
        (Shape::Quoted('\''), Kind::StringSingle),
        (Shape::Number(""), Kind::Number),
        (Shape::LedRun("#", Class::Hex), Kind::ColorHex),
        (Shape::Call, Kind::MacroIdentifier),
        (Shape::Name, Kind::Identifier),
        (Shape::Run(Class::Blank), Kind::Nothing),
        (Shape::HashLine, Kind::Nothing),
        (Shape::Literal("^"), Kind::OpPow),
        (Shape::Literal("/"), Kind::OpDiv),
        (Shape::Literal("//"), Kind::OpFloorDiv),
        (Shape::Literal("%"), Kind::OpMod),
        (Shape::Literal("*"), Kind::OpMult),
        (Shape::Literal("+"), Kind::OpAdd),
        (Shape::Literal("-"), Kind::OpSub),
        (Shape::Literal("{"), Kind::ScopeOpen),
        (Shape::Literal("}"), Kind::ScopeClose),
        (Shape::Literal("("), Kind::ParensOpen),
        (Shape::Literal(")"), Kind::ParensClose),
        (Shape::Literal(","), Kind::Comma),
        (Shape::Literal(";"), Kind::SemiColon),
        (Shape::Literal(":"), Kind::Colon),
        (Shape::Literal("."), Kind::Dot),
        (Shape::Literal("="), Kind::Equals),
        (Shape::Sigil("$"), Kind::TokenIdentifier),
        (Shape::Sigil("$!"), Kind::StaticTokenIdentifier),
        (Shape::Sigil("&"), Kind::StaticArgumentIdentifier),
        (Shape::Sigil("."), Kind::TagSelectorOrEnumPart),
        (Shape::Sigil("#"), Kind::NameSelector),
        (Shape::Sigil("::"), Kind::PsuedoSelector),
        (Shape::Sigil(":"), Kind::StateSelectorOrEnumPart),
        (Shape::Literal(">"), Kind::ChildrenSelector),
        (Shape::Literal(">>"), Kind::DescendantsSelector),
        (Shape::Literal("@priority"), Kind::PriorityDeclaration),
        (Shape::Literal("@derive"), Kind::DeriveDeclaration),
        (Shape::Literal("@name"), Kind::NameDeclaration),
    ]
}

/// The piece at `i`, with its end: a token, an error, or nothing. A character that no shape
/// fits is a piece of its own.
pub open spec fn piece_at(text: Seq<char>, i: int) -> (Option<Result<Token, LexicalError>>, int) {
    match scan::longest(rows(), text, i) {
        Some((row, end)) => piece_of(row, text, i, end),
        None => (Some(Err(LexicalError::InvalidToken)), i + 1),
    }
}

/// The piece that has the shape of a row from `i` up to `end`. A block goes on behind its
/// opening bracket.
pub open spec fn piece_of(row: (Shape, Kind), text: Seq<char>, i: int, end: int) -> (
    Option<Result<Token, LexicalError>>,
    int,
) {
    match row.0 {
        Shape::Bracket(lead) => {
            let len = end - i - lead@.len();
            let level = scan::level_of(text, end, len, true);
            let token = if row.1 is CommentMulti {
                Token::CommentMulti(level)
            } else {
                Token::StringMulti(level)
            };
            (Some(Ok(token)), scan::past_block(text, end, len, true))
        },
        _ => (
            if row.1 is Nothing {
                None
            } else {
                Some(Ok(plain_token(row.1)))
            },
            end,
        ),
    }
}

/// The token of a kind that holds no more than what it is.
pub open spec fn plain_token(kind: Kind) -> Token {
    match kind {
        Kind::RbxContent => Token::RbxContent,
        Kind::CommentSingle => Token::CommentSingle,
        Kind::NumberScale => Token::NumberScale,
        Kind::NumberOffset => Token::NumberOffset,
        Kind::MacroDeclaration => Token::MacroDeclaration,
        Kind::UtilDeclaration => Token::UtilDeclaration,
        Kind::BoolTrue => Token::BoolTrue,
        Kind::BoolFalse => Token::BoolFalse,
        Kind::Nil => Token::Nil,
        Kind::EnumKeyword => Token::EnumKeyword,
        Kind::ColorTailwind => Token::ColorTailwind,
        Kind::ColorSkin => Token::ColorSkin,
        Kind::ColorBrick => Token::ColorBrick,
        Kind::ColorCss => Token::ColorCss,
        Kind::RbxAsset => Token::RbxAsset,
        Kind::StringSingle => Token::StringSingle,
        Kind::Number => Token::Number,
        Kind::ColorHex => Token::ColorHex,
        Kind::MacroIdentifier => Token::MacroIdentifier,
        Kind::Identifier => Token::Identifier,
        Kind::OpPow => Token::OpPow,
        Kind::OpDiv => Token::OpDiv,
        Kind::OpFloorDiv => Token::OpFloorDiv,
        Kind::OpMod => Token::OpMod,
        Kind::OpMult => Token::OpMult,
        Kind::OpAdd => Token::OpAdd,
        Kind::OpSub => Token::OpSub,
        Kind::ScopeOpen => Token::ScopeOpen,
        Kind::ScopeClose => Token::ScopeClose,
        Kind::ParensOpen => Token::ParensOpen,
        Kind::ParensClose => Token::ParensClose,
        Kind::Comma => Token::Comma,
        Kind::SemiColon => Token::SemiColon,
        Kind::Colon => Token::Colon,
        Kind::Dot => Token::Dot,
        Kind::Equals => Token::Equals,
        Kind::TokenIdentifier => Token::TokenIdentifier,
        Kind::StaticTokenIdentifier => Token::StaticTokenIdentifier,
        Kind::StaticArgumentIdentifier => Token::StaticArgumentIdentifier,
        Kind::TagSelectorOrEnumPart => Token::TagSelectorOrEnumPart,
        Kind::NameSelector => Token::NameSelector,
        Kind::PsuedoSelector => Token::PsuedoSelector,
        Kind::StateSelectorOrEnumPart => Token::StateSelectorOrEnumPart,
        Kind::ChildrenSelector => Token::ChildrenSelector,
        Kind::DescendantsSelector => Token::DescendantsSelector,
        Kind::PriorityDeclaration => Token::PriorityDeclaration,
        Kind::DeriveDeclaration => Token::DeriveDeclaration,
        Kind::NameDeclaration => Token::NameDeclaration,
        _ => Token::Error,
    }
}

fn plain(kind: Kind) -> (r: Token)
    ensures
        r == plain_token(kind),
{
    match kind {
        Kind::RbxContent => Token::RbxContent,
        Kind::CommentSingle => Token::CommentSingle,
        Kind::NumberScale => Token::NumberScale,
        Kind::NumberOffset => Token::NumberOffset,
        Kind::MacroDeclaration => Token::MacroDeclaration,
        Kind::UtilDeclaration => Token::UtilDeclaration,
        Kind::BoolTrue => Token::BoolTrue,
        Kind::BoolFalse => Token::BoolFalse,
        Kind::Nil => Token::Nil,
        Kind::EnumKeyword => Token::EnumKeyword,
        Kind::ColorTailwind => Token::ColorTailwind,
        Kind::ColorSkin => Token::ColorSkin,
        Kind::ColorBrick => Token::ColorBrick,
        Kind::ColorCss => Token::ColorCss,
        Kind::RbxAsset => Token::RbxAsset,
        Kind::StringSingle => Token::StringSingle,
        Kind::Number => Token::Number,
        Kind::ColorHex => Token::ColorHex,
        Kind::MacroIdentifier => Token::MacroIdentifier,
        Kind::Identifier => Token::Identifier,
        Kind::OpPow => Token::OpPow,
        Kind::OpDiv => Token::OpDiv,
        Kind::OpFloorDiv => Token::OpFloorDiv,
        Kind::OpMod => Token::OpMod,
        Kind::OpMult => Token::OpMult,
        Kind::OpAdd => Token::OpAdd,
        Kind::OpSub => Token::OpSub,
        Kind::ScopeOpen => Token::ScopeOpen,
        Kind::ScopeClose => Token::ScopeClose,
        Kind::ParensOpen => Token::ParensOpen,
        Kind::ParensClose => Token::ParensClose,
        Kind::Comma => Token::Comma,
        Kind::SemiColon => Token::SemiColon,
        Kind::Colon => Token::Colon,
        Kind::Dot => Token::Dot,
        Kind::Equals => Token::Equals,
        Kind::TokenIdentifier => Token::TokenIdentifier,
        Kind::StaticTokenIdentifier => Token::StaticTokenIdentifier,
        Kind::StaticArgumentIdentifier => Token::StaticArgumentIdentifier,
        Kind::TagSelectorOrEnumPart => Token::TagSelectorOrEnumPart,
        Kind::NameSelector => Token::NameSelector,
        Kind::PsuedoSelector => Token::PsuedoSelector,
        Kind::StateSelectorOrEnumPart => Token::StateSelectorOrEnumPart,
        Kind::ChildrenSelector => Token::ChildrenSelector,
        Kind::DescendantsSelector => Token::DescendantsSelector,
        Kind::PriorityDeclaration => Token::PriorityDeclaration,
        Kind::DeriveDeclaration => Token::DeriveDeclaration,
        Kind::NameDeclaration => Token::NameDeclaration,
        _ => Token::Error,
    }
}

/// A piece ends behind its start, within the text.
pub proof fn lemma_piece_at(text: Seq<char>, i: int)
    requires
        0 <= i < text.len(),
    ensures
        i < piece_at(text, i).1 <= text.len(),
{
    scan::lemma_longest(rows(), text, i);
    if let Some((row, end)) = scan::longest(rows(), text, i) {
        shape::lemma_end_within(row.0, text, i);
        if let Shape::Bracket(lead) = row.0 {
            super::lemma_block_end(text, end, end - i - lead@.len(), true);
        }
    }
}

/// What is cut out of a text from `i` on: its tokens and errors, with the bytes that they take.
pub open spec fn cuts_of(text: Seq<char>, i: int) -> Seq<Cut>
    decreases text.len() - i,
{
    if i < 0 || i >= text.len() {
        Seq::empty()
    } else {
        proof {
            lemma_piece_at(text, i);
        }
        let (piece, end) = piece_at(text, i);
        match piece {
            Some(token) => seq![(token, scan::byte_of(text, i), scan::byte_of(text, end))] + cuts_of(
                text,
                end,
            ),
            None => cuts_of(text, end),
        }
    }
}

fn find_piece(table: &Vec<(Shape, Kind)>, text: &Vec<char>, i: usize) -> (r: (
    Option<Result<Token, LexicalError>>,
    usize,
))
    requires
        table@ == rows(),
        i < text@.len() <= usize::MAX,
    ensures
        r.0 == piece_at(text@, i as int).0,
        r.1 == piece_at(text@, i as int).1,
{
    proof {
        scan::lemma_longest(rows(), text@, i as int);
    }
    let (row, end) = match find_longest(table, text, i) {
        Some(found) => found,
        None => return (Some(Err(LexicalError::InvalidToken)), i + 1),
    };
    match row.0 {
        Shape::Bracket(lead) => {
            proof {
                shape::lemma_bracket_takes_two(lead, text@, i as int);
            }
            let len: usize = end - i - lead.unicode_len();
            let (level, past) = multiline_string_block(text, end, len, true);
            match row.1 {
                Kind::CommentMulti => (Some(Ok(Token::CommentMulti(level))), past),
                _ => (Some(Ok(Token::StringMulti(level))), past),
            }
        },
        _ => match row.1 {
            Kind::Nothing => (None, end),
            kind => (Some(Ok(plain(kind))), end),
        },
    }
}

/// Cuts a text into its tokens and errors.
pub fn cut(input: &str) -> (r: Vec<Cut>)
    ensures
        r@ == cuts_of(input@, 0),
{
    let text = chars_of(input);
    let total: usize = byte_len(input);
    let table = table();
    let mut cuts: Vec<Cut> = Vec::new();
    let mut i: usize = 0;
    let mut start: usize = 0;
    assert(text@.take(0) =~= Seq::empty());
    while i < text.len()
        invariant
            i <= text@.len(),
            text@ == input@,
            total == text::utf8_len(text@),
            table@ == rows(),
            start == text::utf8_len(text@.take(i as int)),
            cuts@ + cuts_of(text@, i as int) == cuts_of(text@, 0),
        decreases text@.len() - i,
    {
        proof {
            lemma_piece_at(text@, i as int);
        }
        let ghost before = cuts@;
        let (piece, next) = find_piece(&table, &text, i);
        let end: usize = bytes_of(&text, i, start, next, total);
        if let Some(token) = piece {
            cuts.push((token, start, end));
            assert(cuts@ + cuts_of(text@, next as int) =~= before + cuts_of(text@, i as int));
        }
        i = next;
        start = end;
    }
    assert(cuts@ + cuts_of(text@, i as int) =~= cuts@);
    cuts
}

} // verus!
