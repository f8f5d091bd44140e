//! The token grammar that the parser reads by, and cutting a text by it.

use super::order;
use super::token::{MultilineString, SpannedToken, Token};
use crate::lexer;
use crate::lexer::chars;
use crate::lexer::chars::Class;
use crate::lexer::multiline_string_block;
use crate::lexer::scan;
use crate::lexer::scan::find_longest;
use crate::lexer::shape;
use crate::lexer::shape::Shape;
use crate::strings::chars_of;
use crate::text;
use crate::text::{byte_len, bytes_of};
use vstd::prelude::*;

verus! {

/// What a piece of a text is.
#[derive(Debug, Clone, Copy)]
pub enum Kind {
    /// A piece that no token stands for.
    Nothing,
    RbxContent,
    CommentMulti,
    Number,
    NumberScale,
    NumberOffset,
    ColorHex,
    StringMulti,
    DeriveDeclaration,
    MacroDeclaration,
    PriorityDeclaration,
    NameDeclaration,
    TweenDeclaration,
    Boolean,
    Nil,
    EnumKeyword,
    ColorTailwind,
    ColorSkin,
    ColorBrick,
    ColorCss,
    RbxAsset,
    StringSingle,
    QuerySelector,
    InvalidDeclaration,
    StaticTokenIdentifier,
    Error,
    TokenIdentifier,
    MacroArgIdentifier,
    MacroCallIdentifier,
    Identifier,
    NameSelector,
    TagSelectorOrEnumPart,
    StateSelectorOrEnumPart,
    PseudoSelector,
    CommentSingle,
    Equals,
    Comma,
    SemiColon,
    ReturnArrow,
    ChildrenSelector,
    DescendantsSelector,
    ScopeOpen,
    ScopeClose,
    ParensOpen,
    ParensClose,
    OpDiv,
    OpFloorDiv,
    OpMod,
    OpMult,
    OpPow,
    OpAdd,
    OpSub,
}

/// The shapes of the pieces of a text. Where two shapes fit pieces of the same length, the one
/// that is higher up counts.
pub open spec fn rows() -> Seq<(Shape, Kind)> {
    seq![
        (Shape::Led("contentid://", Class::Digit), Kind::RbxContent),
        (Shape::Bracket("--"), Kind::CommentMulti),
        (Shape::Numeral(""), Kind::Number),
        (Shape::Numeral("%"), Kind::NumberScale),
        (Shape::Numeral("px"), Kind::NumberOffset),
        (Shape::LedRun("#", Class::Hex), Kind::ColorHex),
        (Shape::Bracket(""), Kind::StringMulti),
        (Shape::Literal("@derive"), Kind::DeriveDeclaration),
        (Shape::Literal("@macro"), Kind::MacroDeclaration),
        (Shape::Literal("@priority"), Kind::PriorityDeclaration),
        (Shape::Literal("@name"), Kind::NameDeclaration),
        (Shape::Literal("@tween"), Kind::TweenDeclaration),
        (Shape::Literal("true"), Kind::Boolean),
        (Shape::Literal("false"), Kind::Boolean),
        (Shape::Literal("nil"), Kind::Nil),
        (Shape::Literal("Enum"), Kind::EnumKeyword),
        (Shape::Color("tw:", true), Kind::ColorTailwind),
        (Shape::Color("skin:", true), Kind::ColorSkin),
        (Shape::Color("bc:", false), Kind::ColorBrick),
        (Shape::Color("css:", false), Kind::ColorCss),
        (Shape::Led("rbxassetid://", Class::Digit), Kind::RbxAsset),
        (Shape::Led("rbxasset://", Class::Address), Kind::RbxAsset),
        (Shape::Led("rbxthumb://", Class::Address), Kind::RbxAsset),
        (Shape::Led("rbxgameasset://", Class::Address), Kind::RbxAsset),
        (Shape::Led("rbxhttp://", Class::Address), Kind::RbxAsset),
        (Shape::Led("rbxtemp://", Class::Address), Kind::RbxAsset),
        (Shape::Led("http://", Class::Address), Kind::RbxAsset),
        (Shape::Led("https://", Class::Address), Kind::RbxAsset),
        (Shape::Quoted('"'), Kind::StringSingle),
        (Shape::Quoted('\''), Kind::StringSingle),
        (Shape::Named("@"), Kind::QuerySelector),
        (Shape::MaybeNamed("@"), Kind::InvalidDeclaration),
        (Shape::Named("$!"), Kind::StaticTokenIdentifier),
        (Shape::Literal("$!"), Kind::Error),
        (Shape::Named("$"), Kind::TokenIdentifier),
        (Shape::MaybeNamed("&"), Kind::MacroArgIdentifier),
        (Shape::Call, Kind::MacroCallIdentifier),
        (Shape::Name, Kind::Identifier),
        (Shape::Named("#"), Kind::NameSelector),
        (Shape::MaybeNamed("."), Kind::TagSelectorOrEnumPart),
        (Shape::MaybeNamed(":"), Kind::StateSelectorOrEnumPart),
        (Shape::Named("::"), Kind::PseudoSelector),
        (Shape::Run(Class::Space), Kind::Nothing),
        (Shape::CommentLine, Kind::CommentSingle),
        (Shape::Literal("="), Kind::Equals),
        (Shape::Literal(","), Kind::Comma),
        (Shape::Literal(";"), Kind::SemiColon),
        (Shape::Literal("->"), Kind::ReturnArrow),
        (Shape::Literal(">"), Kind::ChildrenSelector),
        (Shape::Literal(">>"), Kind::DescendantsSelector),
        (Shape::Literal("{"), Kind::ScopeOpen),
        (Shape::Literal("}"), Kind::ScopeClose),
        (Shape::Literal("("), Kind::ParensOpen),
        (Shape::Literal(")"), Kind::ParensClose),
        (Shape::Literal("/"), Kind::OpDiv),
        (Shape::Literal("//"), Kind::OpFloorDiv),
        (Shape::Literal("%"), Kind::OpMod),
        (Shape::Literal("*"), Kind::OpMult),
        (Shape::Literal("^"), Kind::OpPow),
        (Shape::Literal("+"), Kind::OpAdd),
        (Shape::Literal("-"), Kind::OpSub),
    ]
}

fn table() -> (r: Vec<(Shape, Kind)>)
    ensures
        r@ == rows(),
{
    vec![
        (Shape::Led("contentid://", Class::Digit), Kind::RbxContent),
        (Shape::Bracket("--"), Kind::CommentMulti),
        (Shape::Numeral(""), Kind::Number),
        (Shape::Numeral("%"), Kind::NumberScale),
        (Shape::Numeral("px"), Kind::NumberOffset),
        (Shape::LedRun("#", Class::Hex), Kind::ColorHex),
        (Shape::Bracket(""), Kind::StringMulti),
        (Shape::Literal("@derive"), Kind::DeriveDeclaration),
        (Shape::Literal("@macro"), Kind::MacroDeclaration),
        (Shape::Literal("@priority"), Kind::PriorityDeclaration),
        (Shape::Literal("@name"), Kind::NameDeclaration),
        (Shape::Literal("@tween"), Kind::TweenDeclaration),
        (Shape::Literal("true"), Kind::Boolean),
        (Shape::Literal("false"), Kind::Boolean),
        (Shape::Literal("nil"), Kind::Nil),
        (Shape::Literal("Enum"), Kind::EnumKeyword),
        (Shape::Color("tw:", true), Kind::ColorTailwind),
        (Shape::Color("skin:", true), Kind::ColorSkin),
        (Shape::Color("bc:", false), Kind::ColorBrick),
        (Shape::Color("css:", false), Kind::ColorCss),
        (Shape::Led("rbxassetid://", Class::Digit), Kind::RbxAsset),
        (Shape::Led("rbxasset://", Class::Address), Kind::RbxAsset),
        (Shape::Led("rbxthumb://", Class::Address), Kind::RbxAsset),
        (Shape::Led("rbxgameasset://", Class::Address), Kind::RbxAsset),
        (Shape::Led("rbxhttp://", Class::Address), Kind::RbxAsset),
        (Shape::Led("rbxtemp://", Class::Address), Kind::RbxAsset),
        (Shape::Led("http://", Class::Address), Kind::RbxAsset),
        (Shape::Led("https://", Class::Address), Kind::RbxAsset),
        (Shape::Quoted('"'), Kind::StringSingle),
        (Shape::Quoted('\''), Kind::StringSingle),
        (Shape::Named("@"), Kind::QuerySelector),
        (Shape::MaybeNamed("@"), Kind::InvalidDeclaration),
        (Shape::Named("$!"), Kind::StaticTokenIdentifier),
        (Shape::Literal("$!"), Kind::Error),
        (Shape::Named("$"), Kind::TokenIdentifier),
        (Shape::MaybeNamed("&"), Kind::MacroArgIdentifier),
        (Shape::Call, Kind::MacroCallIdentifier),
        (Shape::Name, Kind::Identifier),
        (Shape::Named("#"), Kind::NameSelector),
        (Shape::MaybeNamed("."), Kind::TagSelectorOrEnumPart),
        (Shape::MaybeNamed(":"), Kind::StateSelectorOrEnumPart),
        (Shape::Named("::"), Kind::PseudoSelector),
        (Shape::Run(Class::Space), Kind::Nothing),
        (Shape::CommentLine, Kind::CommentSingle),
        (Shape::Literal("="), Kind::Equals),
        (Shape::Literal(","), Kind::Comma),
        (Shape::Literal(";"), Kind::SemiColon),
        (Shape::Literal("->"), Kind::ReturnArrow),
        (Shape::Literal(">"), Kind::ChildrenSelector),
        (Shape::Literal(">>"), Kind::DescendantsSelector),
        (Shape::Literal("{"), Kind::ScopeOpen),
        (Shape::Literal("}"), Kind::ScopeClose),
        (Shape::Literal("("), Kind::ParensOpen),
        (Shape::Literal(")"), Kind::ParensClose),
        (Shape::Literal("/"), Kind::OpDiv),
        (Shape::Literal("//"), Kind::OpFloorDiv),
        (Shape::Literal("%"), Kind::OpMod),
        (Shape::Literal("*"), Kind::OpMult),
        (Shape::Literal("^"), Kind::OpPow),
        (Shape::Literal("+"), Kind::OpAdd),
        (Shape::Literal("-"), Kind::OpSub),
    ]
}

/// A piece of a text: what it is, the characters that it takes, those that its token holds, and
/// the level of its brackets.
pub ghost struct Lexeme {
    pub kind: Kind,
    pub start: int,
    pub end: int,
    pub name: Seq<char>,
    pub level: Result<usize, usize>,
}

/// The piece at `i`. A character that no shape fits is a piece of its own. A block goes on
/// behind its opening bracket, and its token holds all from its third character up to its
/// closing bracket.
pub open spec fn lexeme_at(text: Seq<char>, i: int) -> Lexeme {
    match scan::longest(rows(), text, i) {
        Some((row, end)) => match row.0 {
            Shape::Bracket(lead) => {
                let len = end - i - lead@.len();
                let past = scan::past_block(text, end, len, false);
                let level = scan::level_of(text, end, len, false);
                let close = if level is Ok {
                    past - len
                } else {
                    past
                };
                Lexeme {
                    kind: row.1,
                    start: i,
                    end: past,
                    name: text.subrange(i + 2, close),
                    level,
                }
            },
            shape => {
                let (before, behind) = shape::margins(shape);
                Lexeme {
                    kind: row.1,
                    start: i,
                    end,
                    name: text.subrange(i + before, end - behind),
                    level: Ok(0),
                }
            },
        },
        None => Lexeme {
            kind: Kind::Error,
            start: i,
            end: i + 1,
            name: Seq::empty(),
            level: Ok(0),
        },
    }
}

/// Whether a name is the one that is given, where that one is not empty.
pub open spec fn is_optional(name: Option<&str>, given: Seq<char>) -> bool {
    match name {
        Some(name) => name@ == given && given.len() > 0,
        None => given.len() == 0,
    }
}

/// Whether a token is of a kind, and holds a name and a level, as far as such a token does.
pub open spec fn is_token(
    token: Token,
    kind: Kind,
    name: Seq<char>,
    level: Result<usize, usize>,
) -> bool {
    match kind {
        Kind::Nothing => false,
        Kind::RbxContent => token matches Token::RbxContent(n) && n@ == name,
        Kind::CommentMulti => token matches Token::CommentMulti(string)
            && string.nestedness == level
            && string.content@ == name,
        Kind::Number => token matches Token::Number(n) && n@ == name,
        Kind::NumberScale => token matches Token::NumberScale(n) && n@ == name,
        Kind::NumberOffset => token matches Token::NumberOffset(n) && n@ == name,
        Kind::ColorHex => token matches Token::ColorHex(n) && n@ == name,
        Kind::StringMulti => token matches Token::StringMulti(string) && string.nestedness == level
            && string.content@ == name,
        Kind::DeriveDeclaration => token is DeriveDeclaration,
        Kind::MacroDeclaration => token is MacroDeclaration,
        Kind::PriorityDeclaration => token is PriorityDeclaration,
        Kind::NameDeclaration => token is NameDeclaration,
        Kind::TweenDeclaration => token is TweenDeclaration,
        Kind::Boolean => token matches Token::Boolean(n) && n@ == name,
        Kind::Nil => token is Nil,
        Kind::EnumKeyword => token is EnumKeyword,
        Kind::ColorTailwind => token matches Token::ColorTailwind(n) && n@ == name,
        Kind::ColorSkin => token matches Token::ColorSkin(n) && n@ == name,
        Kind::ColorBrick => token matches Token::ColorBrick(n) && n@ == name,
        Kind::ColorCss => token matches Token::ColorCss(n) && n@ == name,
        Kind::RbxAsset => token matches Token::RbxAsset(n) && n@ == name,
        Kind::StringSingle => token matches Token::StringSingle(n) && n@ == name,
        Kind::QuerySelector => token matches Token::QuerySelector(n) && n@ == name,
        Kind::InvalidDeclaration => token matches Token::InvalidDeclaration(n)
            && is_optional(n, name),
        Kind::StaticTokenIdentifier => token matches Token::StaticTokenIdentifier(n) && n@ == name,
        Kind::Error => token is Error,
        Kind::TokenIdentifier => token matches Token::TokenIdentifier(n) && n@ == name,
        Kind::MacroArgIdentifier => token matches Token::MacroArgIdentifier(n)
            && is_optional(n, name),
        Kind::MacroCallIdentifier => token matches Token::MacroCallIdentifier(Some(n))
            && n@ == name,
        Kind::Identifier => token matches Token::Identifier(n) && n@ == name,
        Kind::NameSelector => token matches Token::NameSelector(n) && n@ == name,
        Kind::TagSelectorOrEnumPart => token matches Token::TagSelectorOrEnumPart(n)
            && is_optional(n, name),
        Kind::StateSelectorOrEnumPart => token matches Token::StateSelectorOrEnumPart(n)
            && is_optional(n, name),
        Kind::PseudoSelector => token matches Token::PseudoSelector(n) && n@ == name,
        Kind::CommentSingle => token matches Token::CommentSingle(n) && is_optional(n, name),
        Kind::Equals => token is Equals,
        Kind::Comma => token is Comma,
        Kind::SemiColon => token is SemiColon,
        Kind::ReturnArrow => token is ReturnArrow,
        Kind::ChildrenSelector => token is ChildrenSelector,
        Kind::DescendantsSelector => token is DescendantsSelector,
        Kind::ScopeOpen => token is ScopeOpen,
        Kind::ScopeClose => token is ScopeClose,
        Kind::ParensOpen => token is ParensOpen,
        Kind::ParensClose => token is ParensClose,
        Kind::OpDiv => token is OpDiv,
        Kind::OpFloorDiv => token is OpFloorDiv,
        Kind::OpMod => token is OpMod,
        Kind::OpMult => token is OpMult,
        Kind::OpPow => token is OpPow,
        Kind::OpAdd => token is OpAdd,
        Kind::OpSub => token is OpSub,
    }
}

fn optional(name: &str) -> (r: Option<&str>)
    ensures
        is_optional(r, name@),
{
    if name.unicode_len() == 0 {
        None
    } else {
        Some(name)
    }
}

fn token_of<'a>(kind: Kind, name: &'a str, level: Result<usize, usize>) -> (r: Token<'a>)
    requires
        !(kind is Nothing),
    ensures
        is_token(r, kind, name@, level),
{
    match kind {
        Kind::RbxContent => Token::RbxContent(name),
        Kind::CommentMulti => Token::CommentMulti(MultilineString { nestedness: level, content: name }),
        Kind::Number => Token::Number(name),
        Kind::NumberScale => Token::NumberScale(name),
        Kind::NumberOffset => Token::NumberOffset(name),
        Kind::ColorHex => Token::ColorHex(name),
        Kind::StringMulti => Token::StringMulti(MultilineString { nestedness: level, content: name }),
        Kind::DeriveDeclaration => Token::DeriveDeclaration,
        Kind::MacroDeclaration => Token::MacroDeclaration,
        Kind::PriorityDeclaration => Token::PriorityDeclaration,
        Kind::NameDeclaration => Token::NameDeclaration,
        Kind::TweenDeclaration => Token::TweenDeclaration,
        Kind::Boolean => Token::Boolean(name),
        Kind::Nil => Token::Nil,
        Kind::EnumKeyword => Token::EnumKeyword,
        Kind::ColorTailwind => Token::ColorTailwind(name),
        Kind::ColorSkin => Token::ColorSkin(name),
        Kind::ColorBrick => Token::ColorBrick(name),
        Kind::ColorCss => Token::ColorCss(name),
        Kind::RbxAsset => Token::RbxAsset(name),
        Kind::StringSingle => Token::StringSingle(name),
        Kind::QuerySelector => Token::QuerySelector(name),
        Kind::InvalidDeclaration => Token::InvalidDeclaration(optional(name)),
        Kind::StaticTokenIdentifier => Token::StaticTokenIdentifier(name),
        Kind::TokenIdentifier => Token::TokenIdentifier(name),
        Kind::MacroArgIdentifier => Token::MacroArgIdentifier(optional(name)),
        Kind::MacroCallIdentifier => Token::MacroCallIdentifier(Some(name)),
        Kind::Identifier => Token::Identifier(name),
        Kind::NameSelector => Token::NameSelector(name),
        Kind::TagSelectorOrEnumPart => Token::TagSelectorOrEnumPart(optional(name)),
        Kind::StateSelectorOrEnumPart => Token::StateSelectorOrEnumPart(optional(name)),
        Kind::PseudoSelector => Token::PseudoSelector(name),
        Kind::CommentSingle => Token::CommentSingle(optional(name)),
        Kind::Equals => Token::Equals,
        Kind::Comma => Token::Comma,
        Kind::SemiColon => Token::SemiColon,
        Kind::ReturnArrow => Token::ReturnArrow,
        Kind::ChildrenSelector => Token::ChildrenSelector,
        Kind::DescendantsSelector => Token::DescendantsSelector,
        Kind::ScopeOpen => Token::ScopeOpen,
        Kind::ScopeClose => Token::ScopeClose,
        Kind::ParensOpen => Token::ParensOpen,
        Kind::ParensClose => Token::ParensClose,
        Kind::OpDiv => Token::OpDiv,
        Kind::OpFloorDiv => Token::OpFloorDiv,
        Kind::OpMod => Token::OpMod,
        Kind::OpMult => Token::OpMult,
        Kind::OpPow => Token::OpPow,
        Kind::OpAdd => Token::OpAdd,
        Kind::OpSub => Token::OpSub,
        _ => Token::Error,
    }
}

/// A piece ends behind its start, within the text.
pub proof fn lemma_lexeme_at(text: Seq<char>, i: int)
    requires
        0 <= i < text.len(),
    ensures
        lexeme_at(text, i).start == i,
        i < lexeme_at(text, i).end <= text.len(),
{
    scan::lemma_longest(rows(), text, i);
    if let Some((row, end)) = scan::longest(rows(), text, i) {
        shape::lemma_end_within(row.0, text, i);
        if let Shape::Bracket(lead) = row.0 {
            lexer::lemma_block_end(text, end, end - i - lead@.len(), false);
        }
    }
}

/// The pieces of a text from `i` on, without those that no token stands for.
pub open spec fn lexemes(text: Seq<char>, i: int) -> Seq<Lexeme>
    decreases text.len() - i,
{
    if i < 0 || i >= text.len() {
        Seq::empty()
    } else {
        proof {
            lemma_lexeme_at(text, i);
        }
        let lexeme = lexeme_at(text, i);
        if lexeme.kind is Nothing {
            lexemes(text, lexeme.end)
        } else {
            seq![lexeme] + lexemes(text, lexeme.end)
        }
    }
}

/// Only white space is passed over without a token.
proof fn lemma_nothing_is_space(k: int)
    requires
        0 <= k < rows().len(),
        rows()[k].1 is Nothing,
    ensures
        rows()[k].0 == Shape::Run(Class::Space),
{
}

/// The pieces of a text follow one another, and every character that is no white space is in
/// one of them.
pub proof fn lemma_lexemes_cover_text(text: Seq<char>, i: int)
    requires
        0 <= i <= text.len(),
    ensures
        forall|k: int|
            0 <= k < lexemes(text, i).len() ==> i <= (#[trigger] lexemes(text, i)[k]).start
                < lexemes(text, i)[k].end <= text.len(),
        forall|k: int, m: int|
            0 <= k < m < lexemes(text, i).len() ==> (#[trigger] lexemes(text, i)[k]).end <= (
            #[trigger] lexemes(text, i)[m]).start,
        forall|j: int|
            i <= j < text.len() && !Class::Space.has(#[trigger] text[j]) ==> is_in(
                lexemes(text, i),
                j,
            ),
    decreases text.len() - i,
{
    if i < text.len() {
        let lexeme = lexeme_at(text, i);
        let rest = lexemes(text, lexeme.end);
        let all = lexemes(text, i);
        lemma_lexeme_at(text, i);
        lemma_lexemes_cover_text(text, lexeme.end);
        if lexeme.kind is Nothing {
            scan::lemma_longest(rows(), text, i);
            let (row, end) = scan::longest(rows(), text, i)->0;
            let k = choose|k: int|
                #![trigger rows()[k]]
                0 <= k < rows().len() && rows()[k] == row && row.0.end(text, i) == Some(end);
            lemma_nothing_is_space(k);
            chars::lemma_past(text, i, Class::Space);
        } else {
            assert(all =~= seq![lexeme] + rest);
            assert forall|j: int|
                i <= j < text.len() && !Class::Space.has(#[trigger] text[j]) implies is_in(
                all,
                j,
            ) by {
                if j < lexeme.end {
                    assert(all[0] == lexeme);
                } else {
                    let k = choose|k: int|
                        0 <= k < rest.len() && (#[trigger] rest[k]).start <= j < rest[k].end;
                    assert(all[k + 1] == rest[k]);
                }
            }
            assert forall|k: int| 0 <= k < all.len() implies i <= (#[trigger] all[k]).start
                < all[k].end <= text.len() by {
                if k > 0 {
                    assert(all[k] == rest[k - 1]);
                }
            }
            assert forall|k: int, m: int| 0 <= k < m < all.len() implies (#[trigger] all[k]).end
                <= (#[trigger] all[m]).start by {
                assert(all[m] == rest[m - 1]);
                if k > 0 {
                    assert(all[k] == rest[k - 1]);
                }
            }
        }
    }
}

/// Whether a character is in one of the pieces.
pub open spec fn is_in(pieces: Seq<Lexeme>, j: int) -> bool {
    exists|k: int| 0 <= k < pieces.len() && (#[trigger] pieces[k]).start <= j < pieces[k].end
}

/// What stands before and behind the name in the text of a token that holds a name.
pub open spec fn around_name(kind: Kind) -> Option<(Seq<char>, Seq<char>)> {
    match kind {
        Kind::TokenIdentifier => Some(("$"@, ""@)),
        Kind::StaticTokenIdentifier => Some(("$!"@, ""@)),
        Kind::MacroArgIdentifier => Some(("&"@, ""@)),
        Kind::MacroCallIdentifier => Some((""@, "!"@)),
        Kind::NameSelector => Some(("#"@, ""@)),
        Kind::TagSelectorOrEnumPart => Some(("."@, ""@)),
        Kind::StateSelectorOrEnumPart => Some((":"@, ""@)),
        Kind::PseudoSelector => Some(("::"@, ""@)),
        Kind::QuerySelector | Kind::InvalidDeclaration => Some(("@"@, ""@)),
        Kind::CommentSingle => Some(("--"@, ""@)),
        Kind::Identifier | Kind::Number | Kind::NumberScale | Kind::NumberOffset | Kind::Boolean
        | Kind::ColorTailwind | Kind::ColorSkin | Kind::ColorBrick | Kind::ColorCss
        | Kind::ColorHex | Kind::RbxAsset | Kind::RbxContent => Some((""@, ""@)),
        _ => None,
    }
}

/// Whether the tokens of a kind have a shape, where they hold a name.
spec fn fits(kind: Kind, shape: Shape) -> bool {
    match kind {
        Kind::TokenIdentifier => shape == Shape::Named("$"),
        Kind::StaticTokenIdentifier => shape == Shape::Named("$!"),
        Kind::MacroArgIdentifier => shape == Shape::MaybeNamed("&"),
        Kind::MacroCallIdentifier => shape is Call,
        Kind::NameSelector => shape == Shape::Named("#"),
        Kind::TagSelectorOrEnumPart => shape == Shape::MaybeNamed("."),
        Kind::StateSelectorOrEnumPart => shape == Shape::MaybeNamed(":"),
        Kind::PseudoSelector => shape == Shape::Named("::"),
        Kind::QuerySelector => shape == Shape::Named("@"),
        Kind::InvalidDeclaration => shape == Shape::MaybeNamed("@"),
        Kind::CommentSingle => shape is CommentLine,
        Kind::Identifier | Kind::Number | Kind::NumberScale | Kind::NumberOffset | Kind::Boolean
        | Kind::ColorTailwind | Kind::ColorSkin | Kind::ColorBrick | Kind::ColorCss
        | Kind::ColorHex | Kind::RbxAsset | Kind::RbxContent => shape::margins(shape) == (0int, 0int)
            && !(shape is Bracket),
        _ => true,
    }
}

proof fn lemma_row_fits(k: int)
    requires
        0 <= k < rows().len(),
    ensures
        fits(rows()[k].1, rows()[k].0),
{
}

/// Each piece of a text is the one that starts where it does.
proof fn lemma_lexemes_are_pieces(text: Seq<char>, i: int)
    requires
        0 <= i <= text.len(),
    ensures
        forall|k: int|
            0 <= k < lexemes(text, i).len() ==> #[trigger] lexemes(text, i)[k] == lexeme_at(
                text,
                lexemes(text, i)[k].start,
            ) && i <= lexemes(text, i)[k].start < text.len(),
    decreases text.len() - i,
{
    if i < text.len() {
        let lexeme = lexeme_at(text, i);
        lemma_lexeme_at(text, i);
        lemma_lexemes_are_pieces(text, lexeme.end);
        let rest = lexemes(text, lexeme.end);
        let all = lexemes(text, i);
        assert forall|k: int| 0 <= k < all.len() implies #[trigger] all[k] == lexeme_at(
            text,
            all[k].start,
        ) && i <= all[k].start < text.len() by {
            if lexeme.kind is Nothing {
                assert(all[k] == rest[k]);
            } else if k > 0 {
                assert(all[k] == rest[k - 1]);
            }
        }
    }
}

proof fn lemma_shape_of_piece(text: Seq<char>, i: int) -> (shape: Shape)
    requires
        0 <= i < text.len(),
        around_name(lexeme_at(text, i).kind) is Some,
    ensures
        fits(lexeme_at(text, i).kind, shape),
        shape.end(text, i) == Some(lexeme_at(text, i).end),
        i < lexeme_at(text, i).end,
        lexeme_at(text, i).name == text.subrange(
            i + shape::margins(shape).0,
            lexeme_at(text, i).end - shape::margins(shape).1,
        ),
{
    scan::lemma_longest(rows(), text, i);
    lemma_lexeme_at(text, i);
    let (row, end) = scan::longest(rows(), text, i)->0;
    let r = choose|r: int|
        #![trigger rows()[r]]
        0 <= r < rows().len() && rows()[r] == row && row.0.end(text, i) == Some(end);
    lemma_row_fits(r);
    row.0
}

proof fn lemma_shape_is_written(text: Seq<char>, i: int, end: int, kind: Kind, shape: Shape)
    requires
        0 <= i < end,
        i < text.len(),
        around_name(kind) is Some,
        fits(kind, shape),
        shape.end(text, i) == Some(end),
    ensures
        around_name(kind) matches Some((lead, trail)) ==> text.subrange(i, end) == lead
            + text.subrange(i + shape::margins(shape).0, end - shape::margins(shape).1) + trail,
{
    reveal_strlit("");
    shape::lemma_margins(shape, text, i);
    shape::lemma_end_within(shape, text, i);
    let written = text.subrange(i, end);
    let name = text.subrange(i + shape::margins(shape).0, end - shape::margins(shape).1);
    match shape {
        Shape::Named(word) | Shape::MaybeNamed(word) => {
            assert(chars::stands_at(text, i, word@));
            assert forall|j: int| 0 <= j < word@.len() implies written[j] == word@[j] by {
                assert(text[i + j] == word@[j]);
            }
            assert(written =~= word@ + name + ""@);
        },
        Shape::Call => {
            reveal_strlit("!");
            assert(written =~= ""@ + name + "!"@);
        },
        Shape::CommentLine => {
            reveal_strlit("--");
            assert(chars::stands_at(text, i, "--"@));
            assert(text[i + 0] == "--"@[0] && text[i + 1] == "--"@[1]);
            assert(written =~= "--"@ + name + ""@);
        },
        _ => {
            assert(written =~= ""@ + name + ""@);
        },
    }
}

/// The text of a token that holds a name is the name, with what marks the kind of the token
/// around it.
pub proof fn lemma_token_is_written(text: Seq<char>, k: int)
    requires
        0 <= k < lexemes(text, 0).len(),
    ensures
        ({
            let lexeme = lexemes(text, 0)[k];
            around_name(lexeme.kind) matches Some((lead, trail)) ==> text.subrange(
                lexeme.start,
                lexeme.end,
            ) == lead + lexeme.name + trail
        }),
{
    lemma_lexemes_are_pieces(text, 0);
    let lexeme = lexemes(text, 0)[k];
    if around_name(lexeme.kind) is Some {
        let shape = lemma_shape_of_piece(text, lexeme.start);
        lemma_shape_is_written(text, lexeme.start, lexeme.end, lexeme.kind, shape);
    }
}

/// Whether a token is the one of a piece, with the bytes that the piece takes.
pub open spec fn is_token_of(token: SpannedToken, lexeme: Lexeme, text: Seq<char>) -> bool {
    &&& token.0 == scan::byte_of(text, lexeme.start)
    &&& token.2 == scan::byte_of(text, lexeme.end)
    &&& is_token(token.1, lexeme.kind, lexeme.name, lexeme.level)
}

/// Whether tokens are those of a text, in order.
pub open spec fn are_tokens_of(
    tokens: Seq<SpannedToken>,
    lexemes: Seq<Lexeme>,
    text: Seq<char>,
) -> bool {
    &&& tokens.len() == lexemes.len()
    &&& forall|k: int|
        0 <= k < tokens.len() ==> is_token_of(#[trigger] tokens[k], lexemes[k], text)
}

fn find_token<'a>(
    table: &Vec<(Shape, Kind)>,
    source: &'a str,
    text: &Vec<char>,
    i: usize,
) -> (r: (Option<Token<'a>>, usize))
    requires
        table@ == rows(),
        text@ == source@,
        i < text@.len() <= usize::MAX,
    ensures
        r.1 == lexeme_at(text@, i as int).end,
        match r.0 {
            Some(token) => !(lexeme_at(text@, i as int).kind is Nothing) && is_token(
                token,
                lexeme_at(text@, i as int).kind,
                lexeme_at(text@, i as int).name,
                lexeme_at(text@, i as int).level,
            ),
            None => lexeme_at(text@, i as int).kind is Nothing,
        },
{
    proof {
        scan::lemma_longest(rows(), text@, i as int);
    }
    let (row, end) = match find_longest(table, text, i) {
        Some(found) => found,
        None => return (Some(Token::Error), i + 1),
    };
    if let Shape::Bracket(lead) = row.0 {
        proof {
            shape::lemma_bracket_takes_two(lead, text@, i as int);
            lexer::lemma_block_end(text@, end as int, end - i - lead@.len(), false);
        }
        let len: usize = end - i - lead.unicode_len();
        let (level, past) = multiline_string_block(text, end, len, false);
        let close: usize = if level.is_ok() {
            past - len
        } else {
            past
        };
        let token = match row.1 {
            Kind::Nothing => None,
            kind => Some(token_of(kind, source.substring_char(i + 2, close), level)),
        };
        return (token, past);
    }
    proof {
        shape::lemma_margins(row.0, text@, i as int);
    }
    let (before, behind): (usize, usize) = match row.0 {
        Shape::Named(lead) | Shape::MaybeNamed(lead) => (lead.unicode_len(), 0),
        Shape::Call => (0, 1),
        Shape::Quoted(_) => (1, 1),
        Shape::CommentLine => (2, 0),
        _ => (0, 0),
    };
    let token = match row.1 {
        Kind::Nothing => None,
        kind => Some(token_of(kind, source.substring_char(i + before, end - behind), Ok(0))),
    };
    (token, end)
}

/// Cuts a text into the tokens that the parser reads.
pub fn tokenize<'a>(source: &'a str) -> (r: Vec<SpannedToken<'a>>)
    ensures
        are_tokens_of(r@, lexemes(source@, 0), source@),
        order::is_ordered(r@),
{
    let text = chars_of(source);
    let total: usize = byte_len(source);
    let table = table();
    let mut tokens: Vec<SpannedToken<'a>> = Vec::new();
    let mut i: usize = 0;
    let mut start: usize = 0;
    let ghost mut done: Seq<Lexeme> = Seq::empty();
    assert(text@.take(0) =~= Seq::empty());
    while i < text.len()
        invariant
            i <= text@.len(),
            text@ == source@,
            total == text::utf8_len(text@),
            table@ == rows(),
            start == text::utf8_len(text@.take(i as int)),
            are_tokens_of(tokens@, done, source@),
            order::is_ordered(tokens@),
            forall|k: int| 0 <= k < tokens@.len() ==> (#[trigger] tokens@[k]).2 <= start,
            done + lexemes(text@, i as int) == lexemes(text@, 0),
        decreases text@.len() - i,
    {
        proof {
            lemma_lexeme_at(text@, i as int);
        }
        let (token, next) = find_token(&table, source, &text, i);
        let end: usize = bytes_of(&text, i, start, next, total);
        if let Some(token) = token {
            tokens.push(SpannedToken(start, token, end));
            proof {
                let lexeme = lexeme_at(text@, i as int);
                assert(done + lexemes(text@, i as int) =~= done.push(lexeme) + lexemes(
                    text@,
                    next as int,
                ));
                done = done.push(lexeme);
            }
        }
        i = next;
        start = end;
    }
    assert(done + lexemes(text@, i as int) =~= done);
    tokens
}

} // verus!
