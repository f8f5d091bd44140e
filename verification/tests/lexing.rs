//! How a text is cut into tokens.

use rsml_lsp::lexer::{Lexer, LexicalError, Token};
use rsml_lsp::parser::scanner::tokenize;
use rsml_lsp::parser::token::{MultilineString, SpannedToken, Token as ParserToken};

fn lex(text: &str) -> Vec<(usize, Token, usize)> {
    let mut lexer = Lexer::new(text);
    let mut tokens = Vec::new();
    while let Some(Ok(token)) = lexer.next() {
        tokens.push(token);
    }
    tokens
}

fn kinds(text: &str) -> Vec<Token> {
    lex(text).into_iter().map(|(_, token, _)| token).collect()
}

/// The tokens that the parser reads, each with the text that it takes.
fn written(text: &str) -> Vec<String> {
    tokenize(text)
        .iter()
        .map(|token| format!("{:?} {}", token.value(), &text[token.start()..token.end()]))
        .collect()
}

fn only(text: &str) -> ParserToken<'_> {
    let tokens = tokenize(text);
    assert_eq!(tokens.len(), 1, "{:?}", tokens);
    assert_eq!(tokens[0].span(), (0, text.len()));
    tokens[0].value()
}

#[test]
fn lexer_leaves_comments_out() {
    assert_eq!(lex("-- a\n,"), vec![(5, Token::Comma, 6)]);
    assert_eq!(lex("--[[ a\n ]],"), vec![(10, Token::Comma, 11)]);
    assert_eq!(lex(", --[=[ a ]]"), vec![
        (0, Token::Comma, 1),
        (2, Token::CommentMulti(Err(1)), 12),
    ]);
    let mut lexer = Lexer::new("");
    assert_eq!(lexer.next(), None);
    assert_eq!(lexer.next(), None);
}

#[test]
fn lexer_makes_errors_tokens() {
    assert_eq!(lex("?"), vec![(0, Token::Error, 1)]);
    assert_eq!(lex("a \u{e9} b"), vec![
        (0, Token::Identifier, 1),
        (2, Token::Error, 4),
        (5, Token::Identifier, 6),
    ]);
    assert_eq!(LexicalError::default(), LexicalError::InvalidToken);
}

#[test]
fn lexer_takes_the_longest_piece() {
    assert_eq!(kinds("/ // > >> : ::a :a . .a"), vec![
        Token::OpDiv,
        Token::OpFloorDiv,
        Token::ChildrenSelector,
        Token::DescendantsSelector,
        Token::Colon,
        Token::PsuedoSelector,
        Token::StateSelectorOrEnumPart,
        Token::Dot,
        Token::TagSelectorOrEnumPart,
    ]);
    assert_eq!(kinds("true trues nil Enum Enums a! a-b a-b!"), vec![
        Token::BoolTrue,
        Token::Identifier,
        Token::Nil,
        Token::EnumKeyword,
        Token::Identifier,
        Token::MacroIdentifier,
        Token::Identifier,
        Token::MacroIdentifier,
    ]);
}

#[test]
fn lexer_reads_each_kind() {
    assert_eq!(kinds("^*+-%{}(),;="), vec![
        Token::OpPow,
        Token::OpMult,
        Token::OpAdd,
        Token::OpSub,
        Token::OpMod,
        Token::ScopeOpen,
        Token::ScopeClose,
        Token::ParensOpen,
        Token::ParensClose,
        Token::Comma,
        Token::SemiColon,
        Token::Equals,
    ]);
    assert_eq!(kinds("@priority @derive @name @macro @util $a $!a &a false"), vec![
        Token::PriorityDeclaration,
        Token::DeriveDeclaration,
        Token::NameDeclaration,
        Token::MacroDeclaration,
        Token::UtilDeclaration,
        Token::TokenIdentifier,
        Token::StaticTokenIdentifier,
        Token::StaticArgumentIdentifier,
        Token::BoolFalse,
    ]);
    assert_eq!(kinds("1 1.5 .5 50% 1px _1 _a"), vec![
        Token::Number,
        Token::Number,
        Token::Number,
        Token::NumberScale,
        Token::NumberOffset,
        Token::Number,
        Token::Identifier,
    ]);
    assert_eq!(kinds("tw:red:500 SKIN:rose bc:white css:blue tw:"), vec![
        Token::ColorTailwind,
        Token::ColorSkin,
        Token::ColorBrick,
        Token::ColorCss,
        Token::Identifier,
        Token::Colon,
    ]);
    assert_eq!(kinds("\"a\" 'b' rbxassetid://1 http://a) contentid://2"), vec![
        Token::StringSingle,
        Token::StringSingle,
        Token::RbxAsset,
        Token::RbxAsset,
        Token::ParensClose,
        Token::RbxContent,
    ]);
    assert_eq!(lex("[=[ a ]] ]=] b"), vec![
        (0, Token::StringMulti(Ok(1)), 12),
        (13, Token::Identifier, 14),
    ]);
}

#[test]
fn lexer_passes_over_lines_behind_a_hash() {
    assert_eq!(kinds("#name {\n,"), vec![Token::Comma]);
    assert_eq!(kinds("#name"), vec![]);
    assert_eq!(kinds("#ff0"), vec![Token::ColorHex]);
    assert_eq!(kinds("#ff0\n"), vec![]);
}

#[test]
fn lexer_knows_digits_of_other_scripts() {
    assert_eq!(lex("\u{661}"), vec![(0, Token::Number, 2)]);
    assert_eq!(lex("a\u{1d7ff}"), vec![(0, Token::Identifier, 5)]);
    assert_eq!(kinds("tw:\u{212a}"), vec![Token::ColorTailwind]);
    assert_eq!(kinds("c\u{17f}s:red"), vec![Token::ColorCss]);
}

#[test]
fn tokens_hold_their_names() {
    assert!(matches!(only("$a-b"), ParserToken::TokenIdentifier("a-b")));
    assert!(matches!(only("$!a"), ParserToken::StaticTokenIdentifier("a")));
    assert!(matches!(only("a_1"), ParserToken::Identifier("a_1")));
    assert!(matches!(only("&a"), ParserToken::MacroArgIdentifier(Some("a"))));
    assert!(matches!(only("&"), ParserToken::MacroArgIdentifier(None)));
    assert!(matches!(only("a!"), ParserToken::MacroCallIdentifier(Some("a"))));
    assert!(matches!(only("#Frame"), ParserToken::NameSelector("Frame")));
    assert!(matches!(only(".a"), ParserToken::TagSelectorOrEnumPart(Some("a"))));
    assert!(matches!(only("."), ParserToken::TagSelectorOrEnumPart(None)));
    assert!(matches!(only(":a"), ParserToken::StateSelectorOrEnumPart(Some("a"))));
    assert!(matches!(only("::UICorner"), ParserToken::PseudoSelector("UICorner")));
    assert!(matches!(only("@query"), ParserToken::QuerySelector("query")));
    assert!(matches!(only("@"), ParserToken::InvalidDeclaration(None)));
    assert!(matches!(only("@derive"), ParserToken::DeriveDeclaration));
    assert!(matches!(only("@derived"), ParserToken::QuerySelector("derived")));
    assert!(matches!(only("@name"), ParserToken::NameDeclaration));
    assert!(matches!(only("@tween"), ParserToken::TweenDeclaration));
    assert!(matches!(only("\"a'b\""), ParserToken::StringSingle("a'b")));
    assert!(matches!(only("''"), ParserToken::StringSingle("")));
    assert!(matches!(only("true"), ParserToken::Boolean("true")));
    assert!(matches!(only("->"), ParserToken::ReturnArrow));
    assert!(matches!(only("$!"), ParserToken::Error));
    assert!(matches!(only("$"), ParserToken::Error));
}

#[test]
fn tokens_hold_numbers_and_colors() {
    assert!(matches!(only("1_0.5"), ParserToken::Number("1_0.5")));
    assert!(matches!(only(".5"), ParserToken::Number(".5")));
    assert!(matches!(only("50%"), ParserToken::NumberScale("50%")));
    assert!(matches!(only("8px"), ParserToken::NumberOffset("8px")));
    assert!(matches!(only("__"), ParserToken::Identifier("__")));
    assert!(matches!(only("_1"), ParserToken::Number("_1")));
    assert!(matches!(only("tw:red:500"), ParserToken::ColorTailwind("tw:red:500")));
    assert!(matches!(only("#ff0"), ParserToken::ColorHex("#ff0")));
    assert!(matches!(only("#fff0g"), ParserToken::NameSelector("fff0g")));
    assert!(matches!(only("rbxassetid://12"), ParserToken::RbxAsset("rbxassetid://12")));
    assert!(matches!(only("contentid://1"), ParserToken::RbxContent("contentid://1")));
    assert_eq!(written(".1_2"), vec!["Number(\".1_\") .1_", "Number(\"2\") 2"]);
    assert_eq!(written("1._"), vec![
        "Number(\"1\") 1",
        "TagSelectorOrEnumPart(Some(\"_\")) ._",
    ]);
}

#[test]
fn tokens_hold_blocks_and_comments() {
    assert!(matches!(
        only("[[a\nb]]"),
        ParserToken::StringMulti(MultilineString { nestedness: Ok(0), content: "a\nb" })
    ));
    assert!(matches!(
        only("[=[a]]"),
        ParserToken::StringMulti(MultilineString { nestedness: Err(1), content: "[a]]" })
    ));
    assert!(matches!(
        only("--[[a]]"),
        ParserToken::CommentMulti(MultilineString { nestedness: Ok(0), content: "[[a" })
    ));
    assert!(matches!(only("-- a # b"), ParserToken::CommentSingle(Some(" a # b"))));
    assert!(matches!(only("--"), ParserToken::CommentSingle(None)));
    assert_eq!(written("-- a\n,"), vec!["CommentSingle(Some(\" a\")) -- a", "Comma ,"]);
    assert_eq!(written("--\na\n,"), vec!["CommentSingle(Some(\"\\na\")) --\na", "Comma ,"]);
    assert_eq!(written("--("), vec!["CommentSingle(None) --", "ParensOpen ("]);
}

#[test]
fn tokens_follow_one_another() {
    let source = "@derive \"x\";\r\n\u{e9} Frame > .a-b::UICorner { Size = udim2 (50%, 8px); } -- end";
    let tokens: Vec<SpannedToken<'_>> = tokenize(source);
    let mut end = 0;
    for token in &tokens {
        assert!(source[end..token.start()].chars().all(char::is_whitespace));
        assert!(token.start() < token.end());
        end = token.end();
    }
    assert_eq!(end, source.len());
    assert!(matches!(tokens[3].value(), ParserToken::Error));
    assert_eq!(tokens[3].span(), (14, 16));
}
