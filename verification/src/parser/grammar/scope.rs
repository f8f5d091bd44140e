//! Declarations, assignments, rules, macros and the scopes that hold them.

use super::{DeclarationKind, MacroContext, Part, Scope, State, StatusView};
use crate::parser::construct::{ConstructView, DelimitedView, NodeView};
use crate::parser::error;
use crate::parser::error::{ParseError, ParseErrorMessage};
use crate::parser::token::{Delimiters, SpannedToken, Token, TokenSet};
use crate::strings;
use vstd::prelude::*;

verus! {

/// The names of the declarations.
pub open spec fn declaration_names() -> Seq<&'static str> {
    seq!["@derive", "@macro", "@priority", "@name", "@tween"]
}

pub open spec fn assigned<'a>(
    left: NodeView<'a>,
    middle: NodeView<'a>,
    right: Option<ConstructView<'a>>,
    terminator: Option<NodeView<'a>>,
) -> ConstructView<'a> {
    ConstructView::Assignment { left, middle: Some(middle), right: super::in_box(right), terminator }
}

pub open spec fn tweened<'a>(
    declaration: NodeView<'a>,
    name: Option<NodeView<'a>>,
    body: Option<ConstructView<'a>>,
    terminator: Option<NodeView<'a>>,
) -> ConstructView<'a> {
    ConstructView::Tween { declaration, name, body: super::in_box(body), terminator }
}

pub open spec fn macro_of<'a>(
    declaration: NodeView<'a>,
    name: Option<NodeView<'a>>,
    args: Option<DelimitedView<'a>>,
    return_type: Option<(NodeView<'a>, Option<NodeView<'a>>)>,
    body: Option<DelimitedView<'a>>,
) -> ConstructView<'a> {
    ConstructView::Macro { declaration, name, args, return_type, body }
}

/// The names of the contexts that a macro may be called in.
pub open spec fn context_names() -> Seq<&'static str> {
    seq!["Construct", "Selector", "Assignment"]
}

/// The context that a macro is called in, by its name. A macro without a context, or with
/// an unknown one, stands for constructs.
pub open spec fn context_named(name: Seq<char>) -> MacroContext {
    if name == "Selector"@ {
        MacroContext::Selector
    } else if name == "Assignment"@ {
        MacroContext::Assignment
    } else {
        MacroContext::Construct
    }
}

pub open spec fn ruled<'a>(
    selectors: Option<Seq<NodeView<'a>>>,
    body: Option<DelimitedView<'a>>,
) -> ConstructView<'a> {
    ConstructView::Rule { selectors, body }
}

/// The span of the skipped tokens, with one more.
pub open spec fn widened(
    error_span: Option<(usize, usize)>,
    token: SpannedToken,
) -> Option<(usize, usize)> {
    match error_span {
        Some((start, _)) => Some((start, token.2)),
        None => Some((token.0, token.2)),
    }
}

/// The context that a macro is declared with.
pub open spec fn context_of(return_type: Option<(NodeView, Option<NodeView>)>) -> MacroContext {
    match return_type {
        Some((_, Some(ident))) => match ident.token.1 {
            Token::Identifier(context) => context_named(context@),
            _ => MacroContext::Construct,
        },
        _ => MacroContext::Construct,
    }
}

impl<'a> State<'a> {
    /// Looks for the semicolon behind a construct that ends at `end` so far. Gives it, or
    /// the token to go on with.
    #[verifier::opaque]
    pub open spec fn terminate(self, status: StatusView<'a>, end: usize) -> (
        State<'a>,
        Result<NodeView<'a>, Option<NodeView<'a>>>,
    ) {
        match status {
            StatusView::Exists => match self.advance_until(
                TokenSet::SemiColon,
                Delimiters::Construct,
            ) {
                (s, Some(Ok(node))) => (s, Ok(node)),
                (s, Some(Err(node))) => (s, Err(Some(node))),
                (s, None) => (s, Err(None)),
            },
            StatusView::Stopped(node) => if node.token.1 is SemiColon {
                (self, Ok(node))
            } else {
                (self.fail(super::missing("\";\""), super::clamped(end)), Err(Some(node)))
            },
            StatusView::Absent => (self.fail(super::missing("\";\""), super::clamped(end)), Err(None)),
        }
    }

    /// Reads the datatype behind a token that was just accepted.
    #[verifier::opaque]
    pub open spec fn datatype_behind(self) -> (
        State<'a>,
        StatusView<'a>,
        Option<ConstructView<'a>>,
    ) {
        let (s, node) = self.advance_without_flags();
        s.advanced().datatype(node, Delimiters::Construct)
    }

    /// Reads a declaration that is followed by a datatype.
    #[verifier::opaque]
    pub open spec fn declaration(self, node: NodeView<'a>, kind: DeclarationKind) -> (
        State<'a>,
        Option<NodeView<'a>>,
        Option<ConstructView<'a>>,
    ) {
        let starts = match kind {
            DeclarationKind::Derive => node.token.1 is DeriveDeclaration,
            DeclarationKind::Priority => node.token.1 is PriorityDeclaration,
            DeclarationKind::Name => node.token.1 is NameDeclaration,
        };
        if !starts {
            (self, Some(node), None)
        } else {
            let (s, status, body) = self.datatype_behind();
            let unfinished = super::declared(kind, node, body, None);
            match s.terminate(status, unfinished.end()) {
                (s, Ok(terminator)) => {
                    let (s, next) = s.advance();
                    (s, next, Some(super::declared(kind, node, body, Some(terminator))))
                },
                (s, Err(next)) => (s, next, Some(unfinished)),
            }
        }
    }

    /// Reads a tween.
    #[verifier::opaque]
    pub open spec fn tween(self, node: NodeView<'a>) -> (
        State<'a>,
        Option<NodeView<'a>>,
        Option<ConstructView<'a>>,
    ) {
        if !(node.token.1 is TweenDeclaration) {
            (self, Some(node), None)
        } else {
            match self.advance_until(TokenSet::TweenName, Delimiters::Construct) {
                (s, Some(Ok(name))) => {
                    let (s, status, body) = s.datatype_behind();
                    let unfinished = tweened(node, Some(name), body, None);
                    match s.terminate(status, unfinished.end()) {
                        (s, Ok(terminator)) => {
                            let (s, next) = s.advance();
                            (s, next, Some(tweened(node, Some(name), body, Some(terminator))))
                        },
                        (s, Err(next)) => (s, next, Some(unfinished)),
                    }
                },
                (s, Some(Err(next))) => (s, Some(next), Some(tweened(node, None, None, None))),
                (s, None) => (s, None, Some(tweened(node, None, None, None))),
            }
        }
    }

    /// Reads the value of an assignment behind its equals sign.
    #[verifier::opaque]
    pub open spec fn assigned_value(self, left: NodeView<'a>, middle: NodeView<'a>) -> (
        State<'a>,
        Option<NodeView<'a>>,
        Option<ConstructView<'a>>,
    ) {
        let (s, status, body) = self.datatype_behind();
        let unfinished = assigned(left, middle, body, None);
        match s.terminate(status, unfinished.end()) {
            (s, Ok(terminator)) => {
                let (s, next) = s.advance();
                (s, next, Some(assigned(left, middle, body, Some(terminator))))
            },
            (s, Err(next)) => (s, next, Some(unfinished)),
        }
    }

    /// Reads an assignment behind what is assigned to.
    #[verifier::opaque]
    pub open spec fn assignment(self, left: NodeView<'a>) -> (
        State<'a>,
        Option<NodeView<'a>>,
        Option<ConstructView<'a>>,
    ) {
        match self.advance_until(TokenSet::Equals, Delimiters::Construct) {
            (s, Some(Ok(middle))) => s.assigned_value(left, middle),
            (s, Some(Err(next))) => (s, Some(next), None),
            (s, None) => (s, None, None),
        }
    }

    /// Reports a combinator that no selector follows.
    pub open spec fn check_hierarchy(
        self,
        last: SpannedToken<'a>,
        token: SpannedToken<'a>,
    ) -> State<'a> {
        if (last.1 is DescendantsSelector || last.1 is ChildrenSelector) && (
        token.1 is DescendantsSelector || token.1 is ChildrenSelector || token.1 is Comma
            || token.1 is ScopeOpen) {
            self.fail(super::missing("selector part"), super::clamped(last.2))
        } else {
            self
        }
    }

    /// Reports a declaration of an unknown name and suggests a known one.
    #[verifier::opaque]
    pub open spec fn invalid_declaration(self, node: NodeView<'a>) -> (
        State<'a>,
        Option<NodeView<'a>>,
    ) {
        match node.token.1 {
            Token::InvalidDeclaration(name) => {
                let span = (node.token.0, node.token.2);
                let suggestion = match name {
                    Some(name) => error::closest("@"@ + name@, declaration_names()),
                    None => None,
                };
                self.fail(
                    ParseError::UnexpectedTokens {
                        msg: Some(
                            ParseErrorMessage::Correction {
                                closest: suggestion,
                                range: self.range(span),
                            },
                        ),
                    },
                    span,
                ).advance()
            },
            _ => (self, Some(node)),
        }
    }

    /// Puts a construct into a scope, with an error where it is not allowed there.
    pub open spec fn put(
        self,
        construct: Option<ConstructView<'a>>,
        content: Seq<ConstructView<'a>>,
        part: Part,
        scope: Scope,
    ) -> (State<'a>, Seq<ConstructView<'a>>) {
        match construct {
            Some(construct) => match super::objection(part, scope, construct) {
                Some(context) => (
                    self.fail(
                        ParseError::UnexpectedTokens {
                            msg: Some(
                                ParseErrorMessage::NotAllowed {
                                    name: construct.name_plural(),
                                    context: Some(context),
                                },
                            ),
                        },
                        construct.span(),
                    ),
                    content.push(construct),
                ),
                None => (self, content.push(construct)),
            },
            None => (self, content),
        }
    }

    /// Reads a construct of one kind, where the node starts one.
    pub open spec fn part(self, node: NodeView<'a>, part: Part, scope: Scope) -> (
        State<'a>,
        Option<NodeView<'a>>,
        Option<ConstructView<'a>>,
    )
        decreases self.remaining(), 2nat, 0nat,
    {
        match part {
            Part::Macro => self.macro_declaration(node),
            Part::MacroCall => if node.token.1 is MacroCallIdentifier {
                self.macro_call_body(node)
            } else {
                (self, Some(node), None)
            },
            Part::Derive => self.declaration(node, DeclarationKind::Derive),
            Part::Priority => self.declaration(node, DeclarationKind::Priority),
            Part::Name => self.declaration(node, DeclarationKind::Name),
            Part::Tween => self.tween(node),
            Part::StaticTokenAssignment => if node.token.1 is StaticTokenIdentifier {
                self.assignment(node)
            } else {
                (self, Some(node), None)
            },
            Part::TokenAssignment => if node.token.1 is TokenIdentifier {
                self.assignment(node)
            } else {
                (self, Some(node), None)
            },
            Part::PropertyOrRule => self.property_or_rule(node),
            Part::SelectorBegin => self.selector_begin(node),
            Part::InvalidDeclaration => {
                let (s, next) = self.invalid_declaration(node);
                (s, next, None)
            },
            Part::Absent => if node.token.1 is Absent {
                let (s, next) = self.advance();
                (s, next, Some(ConstructView::Absent { node }))
            } else {
                (self, Some(node), None)
            },
        }
    }

    /// Tries the kinds of constructs from `part` on, each on the node that the one before
    /// left.
    pub open spec fn step(
        self,
        node: NodeView<'a>,
        content: Seq<ConstructView<'a>>,
        part: Part,
        scope: Scope,
    ) -> (State<'a>, Seq<ConstructView<'a>>, Option<NodeView<'a>>)
        decreases self.remaining(), 3nat, part.rank(),
    {
        let (s1, next, construct) = self.part(node, part, scope);
        let (s2, content) = s1.put(construct, content, part, scope);
        match (next, part.following()) {
            (Some(node), Some(following)) => if s2.remaining() <= self.remaining() {
                s2.step(node, content, following, scope)
            } else {
                (s2, content, None)
            },
            _ => (s2, content, next),
        }
    }

    /// Reads the constructs of a scope up to its closing brace. Tokens that start none are
    /// skipped and reported as one span. The flag says whether the brace was found.
    pub open spec fn scope_loop(
        self,
        node: NodeView<'a>,
        content: Seq<ConstructView<'a>>,
        scope: Scope,
        error_span: Option<(usize, usize)>,
    ) -> (State<'a>, Seq<ConstructView<'a>>, Option<NodeView<'a>>)
        decreases self.remaining(), 4nat, 0nat,
    {
        let (s1, content, next) = self.step(node, content, Part::Macro, scope);
        match next {
            None => (s1, content, None),
            Some(node) => {
                let ends = node.token.1 is ScopeClose;
                if s1.did_advance {
                    let s2 = (State { did_advance: false, ..s1 }).fail_if(error_span);
                    if ends {
                        (s2, content, Some(node))
                    } else if s2.remaining() < self.remaining() {
                        s2.scope_loop(node, content, scope, error_span)
                    } else {
                        (s2, content, None)
                    }
                } else if ends {
                    (s1.fail_if(error_span), content, Some(node))
                } else {
                    let span = widened(error_span, node.token);
                    let (s2, next) = s1.accept();
                    match next {
                        Some(next) => if s2.remaining() < self.remaining() {
                            s2.scope_loop(next, content, scope, span)
                        } else {
                            (s2, content, None)
                        },
                        None => (s2.fail_if(span), content, None),
                    }
                }
            },
        }
    }

    /// Reads a scope. The closing brace is missing where nothing is given for it; the flag
    /// for progress is then as it was.
    pub open spec fn scope_content(self, node: NodeView<'a>, scope: Scope) -> (
        State<'a>,
        Seq<ConstructView<'a>>,
        Option<NodeView<'a>>,
    )
        decreases self.remaining(), 5nat, 0nat,
    {
        let (s, content, close) = (State { did_advance: false, ..self }).scope_loop(
            node,
            seq![],
            scope,
            None,
        );
        match close {
            Some(_) => (s, content, close),
            None => (State { did_advance: self.did_advance, ..s }, content, None),
        }
    }

    /// Reads a scope between braces. Gives the bracketed stretch and the next token.
    pub open spec fn braced(self, open: NodeView<'a>, scope: Scope) -> (
        State<'a>,
        Option<NodeView<'a>>,
        DelimitedView<'a>,
    )
        decreases self.remaining(), 0nat, 0nat,
    {
        proof {
            super::lemma_advance_without_flags(self);
        }
        match self.advance() {
            (s, None) => (
                s.fail(super::missing("\"}\""), super::clamped(open.token.2)),
                None,
                DelimitedView { left: open, content: None, right: None },
            ),
            (s, Some(node)) => if node.token.1 is ScopeClose {
                let (s, next) = s.advance();
                (s, next, DelimitedView { left: open, content: None, right: Some(node) })
            } else {
                let (s, content, close) = s.scope_content(node, scope);
                let body = DelimitedView { left: open, content: Some(content), right: close };
                let s = if close is Some {
                    s
                } else {
                    s.fail(super::missing("\"}\""), super::clamped(body.end()))
                };
                let (s, next) = s.advance();
                (s, next, body)
            },
        }
    }

    /// Reads the body of a rule behind its opening brace.
    pub open spec fn rule_body(
        self,
        open: NodeView<'a>,
        selectors: Option<Seq<NodeView<'a>>>,
    ) -> (State<'a>, Option<NodeView<'a>>, Option<ConstructView<'a>>)
        decreases self.remaining(), 0nat, 1nat,
    {
        let (s, next, body) = self.braced(open, Scope::Rule);
        (s, next, Some(ruled(selectors, Some(body))))
    }

    /// Reads the body of a macro behind its opening brace.
    pub open spec fn macro_body(
        self,
        open: NodeView<'a>,
        declaration: NodeView<'a>,
        name: Option<NodeView<'a>>,
        args: Option<DelimitedView<'a>>,
        return_type: Option<(NodeView<'a>, Option<NodeView<'a>>)>,
        context: MacroContext,
    ) -> (State<'a>, Option<NodeView<'a>>, Option<ConstructView<'a>>)
        decreases self.remaining(), 0nat, 1nat,
    {
        let (s, next, body) = match context {
            MacroContext::Construct => self.braced(open, Scope::Macro),
            MacroContext::Selector => self.braced_selector(open),
            MacroContext::Assignment => self.braced_datatype(open),
        };
        (s, next, Some(macro_of(declaration, name, args, return_type, Some(body))))
    }

    /// Reads the parts of a selector up to a closing brace. Gives it, or the token to go on
    /// with.
    pub open spec fn selector_parts(self, parts: Seq<ConstructView<'a>>) -> (
        State<'a>,
        Seq<ConstructView<'a>>,
        Result<NodeView<'a>, Option<NodeView<'a>>>,
    )
        decreases self.remaining(),
    {
        proof {
            super::lemma_advance_until(self, TokenSet::MacroSelectorPart, Delimiters::Construct);
        }
        match self.advance_until(TokenSet::MacroSelectorPart, Delimiters::Construct) {
            (s, Some(Ok(node))) => if node.token.1 is ScopeClose {
                (s, parts, Ok(node))
            } else {
                s.selector_parts(parts.push(ConstructView::Node { node }))
            },
            (s, Some(Err(next))) => (s, parts, Err(Some(next))),
            (s, None) => (s, parts, Err(None)),
        }
    }

    /// Reads a selector between braces.
    #[verifier::opaque]
    pub open spec fn braced_selector(self, open: NodeView<'a>) -> (
        State<'a>,
        Option<NodeView<'a>>,
        DelimitedView<'a>,
    ) {
        match self.selector_parts(seq![]) {
            (s, parts, Ok(close)) => {
                let (s, next) = s.advance();
                (s, next, DelimitedView { left: open, content: Some(parts), right: Some(close) })
            },
            (s, parts, Err(next)) => (
                s,
                next,
                DelimitedView { left: open, content: Some(parts), right: None },
            ),
        }
    }

    /// Looks for the closing brace behind a construct that ends at `end`. Gives it, or the
    /// token to go on with.
    #[verifier::opaque]
    pub open spec fn close(self, status: StatusView<'a>, end: usize) -> (
        State<'a>,
        Result<NodeView<'a>, Option<NodeView<'a>>>,
    ) {
        match status {
            StatusView::Exists => match self.advance_until(
                TokenSet::ScopeClose,
                Delimiters::Construct,
            ) {
                (s, Some(Ok(node))) => (s, Ok(node)),
                (s, Some(Err(node))) => (s, Err(Some(node))),
                (s, None) => (s, Err(None)),
            },
            StatusView::Stopped(node) => if node.token.1 is ScopeClose {
                (self, Ok(node))
            } else {
                (self.fail(super::missing("\"}\""), super::clamped(end)), Err(Some(node)))
            },
            StatusView::Absent => (self.fail(super::missing("\"}\""), super::clamped(end)), Err(None)),
        }
    }

    /// Reads a datatype between braces.
    #[verifier::opaque]
    pub open spec fn braced_datatype(self, open: NodeView<'a>) -> (
        State<'a>,
        Option<NodeView<'a>>,
        DelimitedView<'a>,
    ) {
        match self.advance() {
            (s, None) => (
                s.fail(super::missing("\"}\""), super::clamped(open.token.2)),
                None,
                DelimitedView { left: open, content: None, right: None },
            ),
            (s, Some(node)) => if node.token.1 is ScopeClose {
                let (s, next) = s.advance();
                (s, next, DelimitedView { left: open, content: None, right: Some(node) })
            } else {
                let (s, status, value) = s.datatype(Some(node), Delimiters::Construct);
                let content = match value {
                    Some(value) => Some(seq![value]),
                    None => None,
                };
                let unclosed = DelimitedView { left: open, content, right: None };
                match s.close(status, unclosed.end()) {
                    (s, Ok(close)) => {
                        let (s, next) = s.advance();
                        (s, next, DelimitedView { left: open, content, right: Some(close) })
                    },
                    (s, Err(next)) => (s, next, unclosed),
                }
            },
        }
    }

    /// Reads the context of a macro behind its arrow, and the body. An unknown context is
    /// reported with a known one that comes close.
    pub open spec fn macro_context(
        self,
        arrow: NodeView<'a>,
        declaration: NodeView<'a>,
        name: Option<NodeView<'a>>,
        args: Option<DelimitedView<'a>>,
    ) -> (State<'a>, Option<NodeView<'a>>, Option<ConstructView<'a>>)
        decreases self.remaining(), 0nat, 2nat,
    {
        proof {
            super::lemma_advance_until(self, TokenSet::MacroContext, Delimiters::Construct);
        }
        let unnamed = macro_of(declaration, name, args, Some((arrow, None)), None);
        match self.advance_until(TokenSet::MacroContext, Delimiters::Construct) {
            (s, Some(Ok(ident))) => {
                let s1 = s.check_context(ident.token);
                let return_type = Some((arrow, Some(ident)));
                proof {
                    super::lemma_advance_until(s1, TokenSet::ScopeOpen, Delimiters::Construct);
                }
                let unfinished = macro_of(declaration, name, args, return_type, None);
                match s1.advance_until(TokenSet::ScopeOpen, Delimiters::Construct) {
                    (s, Some(Ok(open))) => s.macro_body(
                        open,
                        declaration,
                        name,
                        args,
                        return_type,
                        context_of(return_type),
                    ),
                    (s, Some(Err(next))) => (s, Some(next), Some(unfinished)),
                    (s, None) => (s, None, Some(unfinished)),
                }
            },
            (s, Some(Err(next))) => (s, Some(next), Some(unnamed)),
            (s, None) => (s, None, Some(unnamed)),
        }
    }

    /// Reports a context of an unknown name and suggests a known one.
    pub open spec fn check_context(self, token: SpannedToken<'a>) -> State<'a> {
        match token.1 {
            Token::Identifier(context) => if strings::holds(context_names(), context@) {
                self
            } else {
                let span = (token.0, token.2);
                self.fail(
                    ParseError::UnexpectedTokens {
                        msg: Some(
                            ParseErrorMessage::Correction {
                                closest: error::closest(context@, context_names()),
                                range: self.range(span),
                            },
                        ),
                    },
                    span,
                )
            },
            _ => self,
        }
    }

    /// Reads the body of a macro, or its context and then the body, from the token behind
    /// the name or the arguments on.
    pub open spec fn macro_rest(
        self,
        start: NodeView<'a>,
        declaration: NodeView<'a>,
        name: Option<NodeView<'a>>,
        args: Option<DelimitedView<'a>>,
    ) -> (State<'a>, Option<NodeView<'a>>, Option<ConstructView<'a>>)
        decreases self.remaining(), 0nat, 3nat,
    {
        if start.token.1 is ReturnArrow {
            self.macro_context(start, declaration, name, args)
        } else {
            self.macro_body(start, declaration, name, args, None, MacroContext::Construct)
        }
    }

    /// Reads the rest of a selector, and the body of its rule.
    pub open spec fn rule_selector(
        self,
        last: SpannedToken<'a>,
        selectors: Seq<NodeView<'a>>,
        comma_allowed: bool,
    ) -> (State<'a>, Option<NodeView<'a>>, Option<ConstructView<'a>>)
        decreases self.remaining(), 0nat, 2nat,
    {
        let allow = if comma_allowed {
            TokenSet::SelectorPartOrComma
        } else {
            TokenSet::SelectorPart
        };
        proof {
            super::lemma_advance_until(self, allow, Delimiters::Construct);
        }
        match self.advance_until(allow, Delimiters::Construct) {
            (s, Some(Ok(node))) => {
                let s1 = s.check_hierarchy(last, node.token);
                if node.token.1 is ScopeOpen {
                    let s2 = if !comma_allowed && last.1 is Comma {
                        s1.fail(super::misplaced(), (last.0, last.2))
                    } else {
                        s1
                    };
                    s2.rule_body(node, Some(selectors))
                } else {
                    s1.rule_selector(
                        node.token,
                        selectors.push(node),
                        !(comma_allowed && node.token.1 is Comma),
                    )
                }
            },
            (s, Some(Err(next))) => (s, Some(next), Some(ruled(Some(selectors), None))),
            (s, None) => (s, None, Some(ruled(Some(selectors), None))),
        }
    }

    /// Reads a rule that starts with a selector or a brace.
    pub open spec fn selector_begin(self, node: NodeView<'a>) -> (
        State<'a>,
        Option<NodeView<'a>>,
        Option<ConstructView<'a>>,
    )
        decreases self.remaining(), 1nat, 0nat,
    {
        let t = node.token.1;
        if t is NameSelector || t is TagSelectorOrEnumPart || t is StateSelectorOrEnumPart
            || t is PseudoSelector || t is QuerySelector || t is ChildrenSelector
            || t is DescendantsSelector {
            self.rule_selector(node.token, seq![node], true)
        } else if t is ScopeOpen {
            self.rule_body(node, None)
        } else {
            (self, Some(node), None)
        }
    }

    /// Reads an assignment to a property, or a rule that starts with a class.
    pub open spec fn property_or_rule(self, node: NodeView<'a>) -> (
        State<'a>,
        Option<NodeView<'a>>,
        Option<ConstructView<'a>>,
    )
        decreases self.remaining(), 1nat, 0nat,
    {
        if !(node.token.1 is Identifier) {
            (self, Some(node), None)
        } else {
            proof {
                super::lemma_advance_until(
                    self,
                    TokenSet::PropertyOrSelector,
                    Delimiters::Construct,
                );
            }
            match self.advance_until(TokenSet::PropertyOrSelector, Delimiters::Construct) {
                (s, Some(Ok(middle))) => match middle.token.1 {
                    Token::Equals => s.assigned_value(node, middle),
                    Token::ScopeOpen => s.rule_body(middle, Some(seq![node])),
                    Token::Comma => s.rule_selector(middle.token, seq![node, middle], false),
                    _ => s.rule_selector(middle.token, seq![node, middle], true),
                },
                (s, Some(Err(next))) => (s, Some(next), None),
                (s, None) => (s, None, None),
            }
        }
    }

    /// Reads a macro.
    pub open spec fn macro_declaration(self, node: NodeView<'a>) -> (
        State<'a>,
        Option<NodeView<'a>>,
        Option<ConstructView<'a>>,
    )
        decreases self.remaining(), 1nat, 0nat,
    {
        if !(node.token.1 is MacroDeclaration) {
            (self, Some(node), None)
        } else {
            proof {
                super::lemma_advance_until(self, TokenSet::MacroName, Delimiters::Construct);
            }
            match self.advance_until(TokenSet::MacroName, Delimiters::Construct) {
                (s, Some(Ok(name))) => {
                    proof {
                        super::lemma_advance_until(
                            s,
                            TokenSet::MacroArgsOrBody,
                            Delimiters::Construct,
                        );
                    }
                    match s.advance_until(TokenSet::MacroArgsOrBody, Delimiters::Construct) {
                        (s, Some(Ok(open))) => if open.token.1 is ParensOpen {
                            s.macro_args(open, node, Some(name))
                        } else {
                            s.macro_rest(open, node, Some(name), None)
                        },
                        (s, Some(Err(next))) => (
                            s,
                            Some(next),
                            Some(macro_of(node, Some(name), None, None, None)),
                        ),
                        (s, None) => (s, None, Some(macro_of(node, Some(name), None, None, None))),
                    }
                },
                (s, Some(Err(next))) => (s, Some(next), Some(macro_of(node, None, None, None, None))),
                (s, None) => {
                    let (s, next) = s.advance();
                    (s, next, Some(macro_of(node, None, None, None, None)))
                },
            }
        }
    }

    /// Reads the arguments of a macro, and its body.
    pub open spec fn macro_args(
        self,
        open: NodeView<'a>,
        declaration: NodeView<'a>,
        name: Option<NodeView<'a>>,
    ) -> (State<'a>, Option<NodeView<'a>>, Option<ConstructView<'a>>)
        decreases self.remaining(), 0nat, 0nat,
    {
        proof {
            super::lemma_advance_until(self, TokenSet::MacroArg, Delimiters::InsideParens);
        }
        let unfinished = macro_of(
            declaration,
            name,
            Some(DelimitedView { left: open, content: None, right: None }),
            None,
            None,
        );
        match self.advance_until(TokenSet::MacroArg, Delimiters::InsideParens) {
            (s, Some(Ok(node))) => if node.token.1 is ParensClose {
                s.macro_body_open(declaration, name, open, None, node)
            } else {
                s.macro_args_rest(
                    open,
                    declaration,
                    name,
                    seq![ConstructView::Node { node }],
                    node.token,
                )
            },
            (s, Some(Err(next))) => (s, Some(next), Some(unfinished)),
            (s, None) => (s, None, Some(unfinished)),
        }
    }

    /// Reads the arguments of a macro behind `last`. Two names need a comma between them.
    pub open spec fn macro_args_rest(
        self,
        open: NodeView<'a>,
        declaration: NodeView<'a>,
        name: Option<NodeView<'a>>,
        args: Seq<ConstructView<'a>>,
        last: SpannedToken<'a>,
    ) -> (State<'a>, Option<NodeView<'a>>, Option<ConstructView<'a>>)
        decreases self.remaining(), 0nat, 0nat,
    {
        let allow = if last.1 is Comma {
            TokenSet::MacroArgAfterComma
        } else {
            TokenSet::MacroArg
        };
        proof {
            super::lemma_advance_until(self, allow, Delimiters::InsideParens);
        }
        let unfinished = macro_of(
            declaration,
            name,
            Some(DelimitedView { left: open, content: Some(args), right: None }),
            None,
            None,
        );
        match self.advance_until(allow, Delimiters::InsideParens) {
            (s, Some(Ok(node))) => if node.token.1 is ParensClose {
                s.macro_body_open(declaration, name, open, Some(args), node)
            } else {
                let s1 = if last.1 is MacroArgIdentifier && node.token.1 is MacroArgIdentifier {
                    s.fail(super::missing("\",\""), super::clamped(last.2))
                } else {
                    s
                };
                s1.macro_args_rest(
                    open,
                    declaration,
                    name,
                    args.push(ConstructView::Node { node }),
                    node.token,
                )
            },
            (s, Some(Err(next))) => (s, Some(next), Some(unfinished)),
            (s, None) => (s, None, Some(unfinished)),
        }
    }

    /// Reads what follows the arguments of a macro.
    pub open spec fn macro_body_open(
        self,
        declaration: NodeView<'a>,
        name: Option<NodeView<'a>>,
        open: NodeView<'a>,
        args: Option<Seq<ConstructView<'a>>>,
        close: NodeView<'a>,
    ) -> (State<'a>, Option<NodeView<'a>>, Option<ConstructView<'a>>)
        decreases self.remaining(), 0nat, 0nat,
    {
        proof {
            super::lemma_advance_until(self, TokenSet::MacroContextOrBody, Delimiters::Construct);
        }
        let args = DelimitedView { left: open, content: args, right: Some(close) };
        match self.advance_until(TokenSet::MacroContextOrBody, Delimiters::Construct) {
            (s, Some(Ok(start))) => s.macro_rest(start, declaration, name, Some(args)),
            (s, Some(Err(next))) => (
                s,
                Some(next),
                Some(macro_of(declaration, name, Some(args), None, None)),
            ),
            (s, None) => (s, None, Some(macro_of(declaration, name, Some(args), None, None))),
        }
    }

    /// Reads the constructs of a whole document from `node` on.
    pub open spec fn document_loop(
        self,
        node: NodeView<'a>,
        ast: Seq<ConstructView<'a>>,
        error_span: Option<(usize, usize)>,
    ) -> (State<'a>, Seq<ConstructView<'a>>)
        decreases self.remaining(),
    {
        let (s1, ast, next) = self.step(node, ast, Part::Macro, Scope::Global);
        match next {
            None => (s1.fail_if(error_span), ast),
            Some(node) => if s1.did_advance {
                let s2 = (State { did_advance: false, ..s1 }).fail_if(error_span);
                if s2.remaining() < self.remaining() {
                    s2.document_loop(node, ast, error_span)
                } else {
                    (s2, ast)
                }
            } else {
                let span = widened(error_span, node.token);
                let (s2, next) = s1.accept();
                match next {
                    Some(next) => if s2.remaining() < self.remaining() {
                        s2.document_loop(next, ast, span)
                    } else {
                        (s2, ast)
                    },
                    None => (s2.fail_if(span), ast),
                }
            },
        }
    }

    /// Reads a whole document.
    pub open spec fn document(self) -> (State<'a>, Seq<ConstructView<'a>>) {
        match self.accept() {
            (s, Some(node)) => s.document_loop(node, seq![], None),
            (s, None) => (s, seq![]),
        }
    }
}

/// The state in front of the first token.
pub open spec fn start_of<'a>(tokens: Seq<SpannedToken<'a>>, text: Seq<char>) -> State<'a> {
    State { tokens, position: 0, text, last_token_end: 0, errors: seq![], did_advance: false }
}

} // verus!
