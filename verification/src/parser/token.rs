//! The tokens that the parser reads.

use vstd::prelude::*;

verus! {

/// A string or comment between long brackets.
#[derive(Debug, Clone, Copy)]
pub struct MultilineString<'a> {
    /// The number of equal signs of the brackets; an `Err` where the closing one is missing.
    pub nestedness: Result<usize, usize>,
    pub content: &'a str,
}

#[derive(Debug, Clone, Copy)]
pub enum Token<'a> {
    CommentMulti(MultilineString<'a>),
    CommentSingle(Option<&'a str>),
    DeriveDeclaration,
    MacroDeclaration,
    PriorityDeclaration,
    NameDeclaration,
    TweenDeclaration,
    InvalidDeclaration(Option<&'a str>),
    QuerySelector(&'a str),
    StaticTokenIdentifier(&'a str),
    TokenIdentifier(&'a str),
    Identifier(&'a str),
    MacroArgIdentifier(Option<&'a str>),
    MacroCallIdentifier(Option<&'a str>),
    Equals,
    Comma,
    SemiColon,
    NameSelector(&'a str),
    TagSelectorOrEnumPart(Option<&'a str>),
    StateSelectorOrEnumPart(Option<&'a str>),
    PseudoSelector(&'a str),
    ReturnArrow,
    ChildrenSelector,
    DescendantsSelector,
    ScopeOpen,
    ScopeClose,
    ParensOpen,
    ParensClose,
    OpDiv,
    OpFloorDiv,
    OpMod,
    OpMult,
    OpPow,
    OpAdd,
    OpSub,
    StringMulti(MultilineString<'a>),
    StringSingle(&'a str),
    Number(&'a str),
    NumberScale(&'a str),
    NumberOffset(&'a str),
    Boolean(&'a str),
    Nil,
    ColorTailwind(&'a str),
    ColorSkin(&'a str),
    ColorBrick(&'a str),
    ColorCss(&'a str),
    ColorHex(&'a str),
    RbxAsset(&'a str),
    RbxContent(&'a str),
    EnumKeyword,
    Error,
    /// Stands in for a token where only comments are left.
    Absent,
}

/// A token and the bytes it takes, from the first up to the one behind the last.
#[derive(Debug, Clone, Copy)]
pub struct SpannedToken<'a>(pub usize, pub Token<'a>, pub usize);

impl<'a> SpannedToken<'a> {
    pub fn new(start: usize, value: Token<'a>, end: usize) -> (r: Self)
        ensures
            r == SpannedToken(start, value, end),
    {
        SpannedToken(start, value, end)
    }

    pub fn start(&self) -> (r: usize)
        ensures
            r == self.0,
    {
        self.0
    }

    pub fn value(&self) -> (r: Token<'a>)
        ensures
            r == self.1,
    {
        self.1
    }

    pub fn end(&self) -> (r: usize)
        ensures
            r == self.2,
    {
        self.2
    }

    pub fn span(&self) -> (r: (usize, usize))
        ensures
            r == (self.0, self.2),
    {
        (self.0, self.2)
    }
}

/// The token kinds that one place of the grammar accepts.
#[derive(Debug, Clone, Copy)]
pub enum TokenSet {
    Datatype,
    EnumPart,
    SemiColon,
    ParensOpen,
    ScopeOpen,
    Equals,
    MacroName,
    TweenName,
    MacroArgsOrBody,
    MacroArg,
    MacroArgAfterComma,
    MacroContextOrBody,
    MacroContext,
    MacroSelectorPart,
    ScopeClose,
    PropertyOrSelector,
    SelectorPart,
    SelectorPartOrComma,
}

impl TokenSet {
    /// Whether the set holds the kind of the token.
    pub open spec fn has(self, token: Token) -> bool {
        match self {
            TokenSet::Datatype => token is Identifier || token is ParensOpen || token is StringMulti
                || token is StringSingle || token is Number || token is NumberScale
                || token is NumberOffset || token is Boolean || token is Nil
                || token is StaticTokenIdentifier || token is TokenIdentifier || token is ColorHex
                || token is ColorTailwind || token is ColorCss || token is ColorBrick
                || token is RbxAsset || token is RbxContent || token is EnumKeyword
                || token is StateSelectorOrEnumPart || token is MacroCallIdentifier
                || token is ColorSkin || token is MacroArgIdentifier || token is OpSub,
            TokenSet::EnumPart => token is StateSelectorOrEnumPart || token is TagSelectorOrEnumPart,
            TokenSet::SemiColon => token is SemiColon,
            TokenSet::ParensOpen => token is ParensOpen,
            TokenSet::ScopeOpen => token is ScopeOpen,
            TokenSet::Equals => token is Equals,
            TokenSet::MacroName | TokenSet::TweenName | TokenSet::MacroContext =>
                token is Identifier,
            TokenSet::MacroArgsOrBody => token is ScopeOpen || token is ParensOpen
                || token is ReturnArrow,
            TokenSet::MacroArg => token is MacroArgIdentifier || token is Comma
                || token is ParensClose,
            TokenSet::MacroArgAfterComma => token is MacroArgIdentifier || token is ParensClose,
            TokenSet::MacroContextOrBody => token is ScopeOpen || token is ReturnArrow,
            TokenSet::MacroSelectorPart => is_selector_part(token) || token is Comma
                || token is ScopeClose,
            TokenSet::ScopeClose => token is ScopeClose,
            TokenSet::PropertyOrSelector => token is Equals || token is ScopeOpen
                || token is Identifier || token is NameSelector || token is TagSelectorOrEnumPart
                || token is StateSelectorOrEnumPart || token is PseudoSelector || token is Comma
                || token is ChildrenSelector || token is DescendantsSelector,
            TokenSet::SelectorPart => is_selector_part(token) || token is ScopeOpen,
            TokenSet::SelectorPartOrComma => is_selector_part(token) || token is ScopeOpen
                || token is Comma,
        }
    }

    /// The words in which an error names what is expected.
    pub open spec fn text(self) -> &'static str {
        match self {
            TokenSet::Datatype => "a datatype",
            TokenSet::EnumPart => "enum part",
            TokenSet::SemiColon => "\";\"",
            TokenSet::ParensOpen => "\"(\"",
            TokenSet::ScopeOpen => "\"{\"",
            TokenSet::Equals => "\"=\"",
            TokenSet::MacroName => "macro name",
            TokenSet::TweenName => "tween name",
            TokenSet::MacroArgsOrBody => "macro arguments or body",
            TokenSet::MacroArg => "`macro argument`, \",\" or \")\"",
            TokenSet::MacroArgAfterComma => "`macro argument` or \")\"",
            TokenSet::MacroContextOrBody => "\"{\" or \"->\"",
            TokenSet::MacroContext => "macro context",
            TokenSet::MacroSelectorPart => "selector part or \"}\"",
            TokenSet::ScopeClose => "\"}\"",
            TokenSet::PropertyOrSelector => "property assignment, selector part or rule body",
            TokenSet::SelectorPart => "selector part or \"{\"",
            TokenSet::SelectorPartOrComma => "selector part or \"{\"",
        }
    }

    pub fn contains(self, token: &Token) -> (r: bool)
        ensures
            r == self.has(*token),
    {
        match self {
            TokenSet::Datatype => matches!(
                token,
                Token::Identifier(_) | Token::ParensOpen | Token::StringMulti(_)
                | Token::StringSingle(_) | Token::Number(_) | Token::NumberScale(_)
                | Token::NumberOffset(_) | Token::Boolean(_) | Token::Nil
                | Token::StaticTokenIdentifier(_) | Token::TokenIdentifier(_) | Token::ColorHex(_)
                | Token::ColorTailwind(_) | Token::ColorCss(_) | Token::ColorBrick(_)
                | Token::RbxAsset(_) | Token::RbxContent(_) | Token::EnumKeyword
                | Token::StateSelectorOrEnumPart(_) | Token::MacroCallIdentifier(_)
                | Token::ColorSkin(_) | Token::MacroArgIdentifier(_) | Token::OpSub
            ),
            TokenSet::EnumPart => matches!(
                token,
                Token::StateSelectorOrEnumPart(_) | Token::TagSelectorOrEnumPart(_)
            ),
            TokenSet::SemiColon => matches!(token, Token::SemiColon),
            TokenSet::ParensOpen => matches!(token, Token::ParensOpen),
            TokenSet::ScopeOpen => matches!(token, Token::ScopeOpen),
            TokenSet::Equals => matches!(token, Token::Equals),
            TokenSet::MacroName | TokenSet::TweenName | TokenSet::MacroContext => matches!(
                token,
                Token::Identifier(_)
            ),
            TokenSet::MacroArgsOrBody => matches!(
                token,
                Token::ScopeOpen | Token::ParensOpen | Token::ReturnArrow
            ),
            TokenSet::MacroContextOrBody => matches!(token, Token::ScopeOpen | Token::ReturnArrow),
            TokenSet::MacroSelectorPart => selector_part(token) || matches!(
                token,
                Token::Comma | Token::ScopeClose
            ),
            TokenSet::ScopeClose => matches!(token, Token::ScopeClose),
            TokenSet::MacroArg => matches!(
                token,
                Token::MacroArgIdentifier(_) | Token::Comma | Token::ParensClose
            ),
            TokenSet::MacroArgAfterComma => matches!(
                token,
                Token::MacroArgIdentifier(_) | Token::ParensClose
            ),
            TokenSet::PropertyOrSelector => matches!(
                token,
                Token::Equals | Token::ScopeOpen | Token::Identifier(_) | Token::NameSelector(_)
                | Token::TagSelectorOrEnumPart(_) | Token::StateSelectorOrEnumPart(_)
                | Token::PseudoSelector(_) | Token::Comma | Token::ChildrenSelector
                | Token::DescendantsSelector
            ),
            TokenSet::SelectorPart => selector_part(token) || matches!(token, Token::ScopeOpen),
            TokenSet::SelectorPartOrComma => selector_part(token) || matches!(
                token,
                Token::ScopeOpen | Token::Comma
            ),
        }
    }

    pub fn name(self) -> (r: &'static str)
        ensures
            r == self.text(),
    {
        match self {
            TokenSet::Datatype => "a datatype",
            TokenSet::EnumPart => "enum part",
            TokenSet::SemiColon => "\";\"",
            TokenSet::ParensOpen => "\"(\"",
            TokenSet::ScopeOpen => "\"{\"",
            TokenSet::Equals => "\"=\"",
            TokenSet::MacroName => "macro name",
            TokenSet::TweenName => "tween name",
            TokenSet::MacroArgsOrBody => "macro arguments or body",
            TokenSet::MacroArg => "`macro argument`, \",\" or \")\"",
            TokenSet::MacroArgAfterComma => "`macro argument` or \")\"",
            TokenSet::MacroContextOrBody => "\"{\" or \"->\"",
            TokenSet::MacroContext => "macro context",
            TokenSet::MacroSelectorPart => "selector part or \"}\"",
            TokenSet::ScopeClose => "\"}\"",
            TokenSet::PropertyOrSelector => "property assignment, selector part or rule body",
            TokenSet::SelectorPart => "selector part or \"{\"",
            TokenSet::SelectorPartOrComma => "selector part or \"{\"",
        }
    }
}

/// A token that may stand in the selector of a rule.
pub open spec fn is_selector_part(token: Token) -> bool {
    token is Identifier || token is NameSelector || token is TagSelectorOrEnumPart
        || token is StateSelectorOrEnumPart || token is PseudoSelector || token is QuerySelector
        || token is ChildrenSelector || token is DescendantsSelector
}

fn selector_part(token: &Token) -> (r: bool)
    ensures
        r == is_selector_part(*token),
{
    matches!(
        token,
        Token::Identifier(_) | Token::NameSelector(_) | Token::TagSelectorOrEnumPart(_)
        | Token::StateSelectorOrEnumPart(_) | Token::PseudoSelector(_) | Token::QuerySelector(_)
        | Token::ChildrenSelector | Token::DescendantsSelector
    )
}

/// The token kinds at which the search for an expected token gives up.
#[derive(Debug, Clone, Copy)]
pub enum Delimiters {
    Construct,
    InsideParens,
}

impl Delimiters {
    pub open spec fn has(self, token: Token) -> bool {
        match self {
            Delimiters::Construct => token is ParensClose || token is ScopeClose
                || token is SemiColon || token is DeriveDeclaration || token is MacroDeclaration
                || token is PriorityDeclaration || token is NameDeclaration
                || token is TweenDeclaration,
            Delimiters::InsideParens => token is ParensClose,
        }
    }

    pub fn contains(self, token: &Token) -> (r: bool)
        ensures
            r == self.has(*token),
    {
        match self {
            Delimiters::Construct => matches!(
                token,
                Token::ParensClose | Token::ScopeClose | Token::SemiColon
                | Token::DeriveDeclaration | Token::MacroDeclaration | Token::PriorityDeclaration
                | Token::NameDeclaration | Token::TweenDeclaration
            ),
            Delimiters::InsideParens => matches!(token, Token::ParensClose),
        }
    }
}

/// The precedence of addition and subtraction.
pub const ADD_SUB_PRECEDENCE: usize = 0;

/// The precedence of an operator; nothing for a token that is none.
pub open spec fn precedence_of(token: Token) -> Option<usize> {
    if token is OpAdd || token is OpSub {
        Some(ADD_SUB_PRECEDENCE)
    } else if token is OpDiv || token is OpFloorDiv || token is OpMod || token is OpMult
        || token is OpPow {
        Some(1)
    } else {
        None
    }
}

pub fn operator_precedence(token: &Token) -> (r: Option<usize>)
    ensures
        r == precedence_of(*token),
{
    match token {
        Token::OpAdd | Token::OpSub => Some(ADD_SUB_PRECEDENCE),
        Token::OpDiv | Token::OpFloorDiv | Token::OpMod | Token::OpMult | Token::OpPow => Some(1),
        _ => None,
    }
}

} // verus!
