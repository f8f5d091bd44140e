//! Reading declarations and macros.

use super::construct;
use super::construct::{Construct, Delimited, Node, NodeView};
use super::datatype::boxed;
use super::error::{ParseError, ParseErrorMessage};
use super::grammar::{DeclarationKind, MacroContext, Scope};
use super::token::{Delimiters, Token, TokenSet};
use super::{clamp_span_to_end, grammar, NodeStatus, Parsed, Parser};
use crate::strings::{is_one_of, str_eq};
use vstd::prelude::*;

verus! {

/// The view of the outcome of a search for a semicolon.
pub open spec fn terminator_view<'a>(r: Result<Node<'a>, Option<Node<'a>>>) -> Result<
    NodeView<'a>,
    Option<NodeView<'a>>,
> {
    match r {
        Ok(node) => Ok(node.deep_view()),
        Err(next) => Err(next.deep_view()),
    }
}

fn declared<'a>(
    kind: DeclarationKind,
    declaration: Node<'a>,
    body: Option<Construct<'a>>,
    terminator: Option<Node<'a>>,
) -> (r: Construct<'a>)
    ensures
        construct::construct_view(r) == grammar::declared(
            kind,
            declaration.deep_view(),
            body.deep_view(),
            terminator.deep_view(),
        ),
{
    let body = boxed(body);
    match kind {
        DeclarationKind::Derive => Construct::Derive { declaration, body, terminator },
        DeclarationKind::Priority => Construct::Priority { declaration, body, terminator },
        DeclarationKind::Name => Construct::Name { declaration, body, terminator },
    }
}

fn tweened<'a>(
    declaration: Node<'a>,
    name: Option<Node<'a>>,
    body: Option<Construct<'a>>,
    terminator: Option<Node<'a>>,
) -> (r: Construct<'a>)
    ensures
        construct::construct_view(r) == grammar::scope::tweened(
            declaration.deep_view(),
            name.deep_view(),
            body.deep_view(),
            terminator.deep_view(),
        ),
{
    Construct::Tween { declaration, name, body: boxed(body), terminator }
}

fn macro_of<'a>(
    declaration: Node<'a>,
    name: Option<Node<'a>>,
    args: Option<Delimited<'a>>,
    return_type: Option<(Node<'a>, Option<Node<'a>>)>,
    body: Option<Delimited<'a>>,
) -> (r: Construct<'a>)
    ensures
        construct::construct_view(r) == grammar::scope::macro_of(
            declaration.deep_view(),
            name.deep_view(),
            args.deep_view(),
            return_type.deep_view(),
            body.deep_view(),
        ),
{
    proof {
        assert(construct::optional_delimited_view(args) == args.deep_view());
        assert(construct::optional_delimited_view(body) == body.deep_view());
    }
    Construct::Macro { declaration, name, args, return_type, body }
}

/// The names of the contexts that a macro may be called in.
pub fn context_names() -> (r: Vec<&'static str>)
    ensures
        r@ == grammar::scope::context_names(),
{
    let r = vec!["Construct", "Selector", "Assignment"];
    assert(r@ =~= grammar::scope::context_names());
    r
}

/// The context that a macro is declared with.
pub fn context_of(return_type: &Option<(Node, Option<Node>)>) -> (r: MacroContext)
    ensures
        r == grammar::scope::context_of(return_type.deep_view()),
{
    let ident = match return_type {
        Some((_, Some(ident))) => ident,
        _ => return MacroContext::Construct,
    };
    match ident.token.value() {
        Token::Identifier(context) => if str_eq(context, "Selector") {
            MacroContext::Selector
        } else if str_eq(context, "Assignment") {
            MacroContext::Assignment
        } else {
            MacroContext::Construct
        },
        _ => MacroContext::Construct,
    }
}

impl<'a> Parser<'a> {
    /// Looks for the semicolon behind a construct that ends at `end` so far.
    pub(crate) fn find_terminator(&mut self, status: NodeStatus<'a>, end: usize) -> (r: Result<
        Node<'a>,
        Option<Node<'a>>,
    >)
        ensures
            (final(self)@, terminator_view(r)) == old(self)@.terminate(status.deep_view(), end),
            final(self)@.remaining() <= old(self)@.remaining(),
            r matches Err(Some(_)) ==> status is Stopped || final(self)@.remaining()
                < old(self)@.remaining(),
    {
        proof {
            reveal(grammar::State::terminate);
        }
        proof {
            grammar::lemma_advance_until(self@, TokenSet::SemiColon, Delimiters::Construct);
        }
        match status {
            NodeStatus::Exists => match self.advance_until(
                TokenSet::SemiColon,
                Delimiters::Construct,
            ) {
                Some(Ok(node)) => Ok(node),
                Some(Err(node)) => Err(Some(node)),
                None => Err(None),
            },
            NodeStatus::Stopped(node) => {
                if matches!(node.token.value(), Token::SemiColon) {
                    return Ok(node);
                }
                self.fail(
                    ParseError::MissingToken { msg: Some(ParseErrorMessage::Expected("\";\"")) },
                    clamp_span_to_end(end),
                );
                Err(Some(node))
            },
            NodeStatus::Absent => {
                self.fail(
                    ParseError::MissingToken { msg: Some(ParseErrorMessage::Expected("\";\"")) },
                    clamp_span_to_end(end),
                );
                Err(None)
            },
        }
    }

    /// Reads the datatype behind a token that was just accepted.
    pub(crate) fn parse_datatype_behind(&mut self) -> (r: (NodeStatus<'a>, Option<Construct<'a>>))
        ensures
            (final(self)@, r.0.deep_view(), r.1.deep_view()) == old(self)@.datatype_behind(),
            final(self)@.remaining() <= old(self)@.remaining(),
            r.0 is Stopped ==> final(self)@.remaining() < old(self)@.remaining(),
    {
        proof {
            reveal(grammar::State::datatype_behind);
        }
        proof {
            grammar::lemma_advance_without_flags(self@);
        }
        let node = self.advance_without_flags();
        self.did_advance = true;
        self.parse_datatype(node, Delimiters::Construct)
    }

    pub(crate) fn parse_declaration_with_datatype(
        &mut self,
        node: Node<'a>,
        kind: DeclarationKind,
    ) -> (r: Parsed<'a>)
        ensures
            (final(self)@, r.0.deep_view(), r.1.deep_view()) == old(self)@.declaration(
                node.deep_view(),
                kind,
            ),
            final(self)@.remaining() <= old(self)@.remaining(),
            r.0 is Some ==> final(self)@ == old(self)@ || final(self)@.remaining() < old(
                self,
            )@.remaining(),
    {
        proof {
            reveal(grammar::State::declaration);
        }
        let starts = match kind {
            DeclarationKind::Derive => matches!(node.token.value(), Token::DeriveDeclaration),
            DeclarationKind::Priority => matches!(node.token.value(), Token::PriorityDeclaration),
            DeclarationKind::Name => matches!(node.token.value(), Token::NameDeclaration),
        };
        if !starts {
            return Parsed(Some(node), None);
        }
        let (node_status, body) = self.parse_datatype_behind();
        let end: usize = match &body {
            Some(body) => body.end(),
            None => node.token.end(),
        };
        assert(end == grammar::declared(kind, node.deep_view(), body.deep_view(), None).end());
        match self.find_terminator(node_status, end) {
            Ok(terminator) => {
                proof {
                    grammar::lemma_advance_without_flags(self@);
                }
                Parsed(self.advance(), Some(declared(kind, node, body, Some(terminator))))
            },
            Err(next) => Parsed(next, Some(declared(kind, node, body, None))),
        }
    }

    pub(crate) fn parse_derive(&mut self, node: Node<'a>) -> (r: Parsed<'a>)
        ensures
            (final(self)@, r.0.deep_view(), r.1.deep_view()) == old(self)@.declaration(
                node.deep_view(),
                DeclarationKind::Derive,
            ),
            final(self)@.remaining() <= old(self)@.remaining(),
            r.0 is Some ==> final(self)@ == old(self)@ || final(self)@.remaining() < old(
                self,
            )@.remaining(),
    {
        self.parse_declaration_with_datatype(node, DeclarationKind::Derive)
    }

    pub(crate) fn parse_priority(&mut self, node: Node<'a>) -> (r: Parsed<'a>)
        ensures
            (final(self)@, r.0.deep_view(), r.1.deep_view()) == old(self)@.declaration(
                node.deep_view(),
                DeclarationKind::Priority,
            ),
            final(self)@.remaining() <= old(self)@.remaining(),
            r.0 is Some ==> final(self)@ == old(self)@ || final(self)@.remaining() < old(
                self,
            )@.remaining(),
    {
        self.parse_declaration_with_datatype(node, DeclarationKind::Priority)
    }

    pub(crate) fn parse_name(&mut self, node: Node<'a>) -> (r: Parsed<'a>)
        ensures
            (final(self)@, r.0.deep_view(), r.1.deep_view()) == old(self)@.declaration(
                node.deep_view(),
                DeclarationKind::Name,
            ),
            final(self)@.remaining() <= old(self)@.remaining(),
            r.0 is Some ==> final(self)@ == old(self)@ || final(self)@.remaining() < old(
                self,
            )@.remaining(),
    {
        self.parse_declaration_with_datatype(node, DeclarationKind::Name)
    }

    pub(crate) fn parse_tween(&mut self, node: Node<'a>) -> (r: Parsed<'a>)
        ensures
            (final(self)@, r.0.deep_view(), r.1.deep_view()) == old(self)@.tween(node.deep_view()),
            final(self)@.remaining() <= old(self)@.remaining(),
            r.0 is Some ==> final(self)@ == old(self)@ || final(self)@.remaining() < old(
                self,
            )@.remaining(),
    {
        proof {
            reveal(grammar::State::tween);
        }
        if !matches!(node.token.value(), Token::TweenDeclaration) {
            return Parsed(Some(node), None);
        }
        proof {
            grammar::lemma_advance_until(self@, TokenSet::TweenName, Delimiters::Construct);
        }
        let name_node = match self.advance_until(TokenSet::TweenName, Delimiters::Construct) {
            Some(Ok(name_node)) => name_node,
            Some(Err(next)) => return Parsed(Some(next), Some(tweened(node, None, None, None))),
            None => return Parsed(None, Some(tweened(node, None, None, None))),
        };
        let (node_status, body) = self.parse_datatype_behind();
        let end: usize = match &body {
            Some(body) => body.end(),
            None => name_node.token.end(),
        };
        assert(end == grammar::scope::tweened(
            node.deep_view(),
            Some(name_node.deep_view()),
            body.deep_view(),
            None,
        ).end());
        match self.find_terminator(node_status, end) {
            Ok(terminator) => {
                proof {
                    grammar::lemma_advance_without_flags(self@);
                }
                Parsed(
                    self.advance(),
                    Some(tweened(node, Some(name_node), body, Some(terminator))),
                )
            },
            Err(next) => Parsed(next, Some(tweened(node, Some(name_node), body, None))),
        }
    }

    pub(crate) fn parse_macro_call(&mut self, node: Node<'a>) -> (r: Parsed<'a>)
        ensures
            node.token.1 is MacroCallIdentifier ==> (
                final(self)@,
                r.0.deep_view(),
                r.1.deep_view(),
            ) == old(self)@.macro_call_body(node.deep_view()),
            !(node.token.1 is MacroCallIdentifier) ==> final(self)@ == old(self)@
                && r.0.deep_view() == Some(node.deep_view()) && r.1 is None,
            final(self)@.remaining() <= old(self)@.remaining(),
            r.0 is Some ==> final(self)@ == old(self)@ || final(self)@.remaining() < old(
                self,
            )@.remaining(),
    {
        if !matches!(node.token.value(), Token::MacroCallIdentifier(_)) {
            return Parsed(Some(node), None);
        }
        self.parse_macro_call_body(node)
    }

    pub(crate) fn parse_macro(&mut self, node: Node<'a>) -> (r: Parsed<'a>)
        ensures
            (final(self)@, r.0.deep_view(), r.1.deep_view()) == old(self)@.macro_declaration(
                node.deep_view(),
            ),
            final(self)@.remaining() <= old(self)@.remaining(),
            r.0 is Some ==> final(self)@ == old(self)@ || final(self)@.remaining() < old(
                self,
            )@.remaining(),
        decreases old(self)@.remaining(), 1nat, 0nat,
    {
        if !matches!(node.token.value(), Token::MacroDeclaration) {
            return Parsed(Some(node), None);
        }
        proof {
            grammar::lemma_advance_until(self@, TokenSet::MacroName, Delimiters::Construct);
        }
        let name_node = match self.advance_until(TokenSet::MacroName, Delimiters::Construct) {
            Some(Ok(name_node)) => name_node,
            Some(Err(next)) => return Parsed(Some(next), Some(macro_of(node, None, None, None, None))),
            None => {
                proof {
                    grammar::lemma_advance_without_flags(self@);
                }
                return Parsed(self.advance(), Some(macro_of(node, None, None, None, None)));
            },
        };
        proof {
            grammar::lemma_advance_until(self@, TokenSet::MacroArgsOrBody, Delimiters::Construct);
        }
        let args_or_body_node = match self.advance_until(
            TokenSet::MacroArgsOrBody,
            Delimiters::Construct,
        ) {
            Some(Ok(found)) => found,
            Some(Err(next)) => return Parsed(
                Some(next),
                Some(macro_of(node, Some(name_node), None, None, None)),
            ),
            None => return Parsed(None, Some(macro_of(node, Some(name_node), None, None, None))),
        };
        if matches!(args_or_body_node.token.value(), Token::ParensOpen) {
            self.parse_macro_args(args_or_body_node, node, Some(name_node))
        } else {
            self.parse_macro_rest(args_or_body_node, node, Some(name_node), None)
        }
    }

    fn parse_macro_args(
        &mut self,
        args_open_node: Node<'a>,
        declaration_node: Node<'a>,
        name_node: Option<Node<'a>>,
    ) -> (r: Parsed<'a>)
        ensures
            (final(self)@, r.0.deep_view(), r.1.deep_view()) == old(self)@.macro_args(
                args_open_node.deep_view(),
                declaration_node.deep_view(),
                name_node.deep_view(),
            ),
            final(self)@.remaining() <= old(self)@.remaining(),
            r.0 is Some ==> final(self)@.remaining() < old(self)@.remaining(),
        decreases old(self)@.remaining(), 0nat, 0nat,
    {
        proof {
            grammar::lemma_advance_until(self@, TokenSet::MacroArg, Delimiters::InsideParens);
        }
        let node = match self.advance_until(TokenSet::MacroArg, Delimiters::InsideParens) {
            Some(Ok(node)) => node,
            Some(Err(next)) => return Parsed(
                Some(next),
                Some(
                    macro_of(
                        declaration_node,
                        name_node,
                        Some(Delimited::new(args_open_node, None, None)),
                        None,
                        None,
                    ),
                ),
            ),
            None => return Parsed(
                None,
                Some(
                    macro_of(
                        declaration_node,
                        name_node,
                        Some(Delimited::new(args_open_node, None, None)),
                        None,
                        None,
                    ),
                ),
            ),
        };
        if matches!(node.token.value(), Token::ParensClose) {
            return self.parse_macro_body_open(
                declaration_node,
                name_node,
                args_open_node,
                None,
                node,
            );
        }
        let ghost goal = old(self)@.macro_args(
            args_open_node.deep_view(),
            declaration_node.deep_view(),
            name_node.deep_view(),
        );
        let mut last_token = node.token;
        let mut args: Vec<Construct<'a>> = Vec::new();
        args.push(Construct::Node { node });
        assert(construct::constructs_view(args@) =~= seq![
            construct::ConstructView::Node { node: node.deep_view() },
        ]);
        loop
            invariant
                goal == old(self)@.macro_args(
                    args_open_node.deep_view(),
                    declaration_node.deep_view(),
                    name_node.deep_view(),
                ),
                goal == self@.macro_args_rest(
                    args_open_node.deep_view(),
                    declaration_node.deep_view(),
                    name_node.deep_view(),
                    construct::constructs_view(args@),
                    last_token,
                ),
                self@.remaining() < old(self)@.remaining(),
            decreases self@.remaining(),
        {
            broadcast use construct::lemma_constructs_push;

            let allow_list = match last_token.value() {
                Token::Comma => TokenSet::MacroArgAfterComma,
                _ => TokenSet::MacroArg,
            };
            proof {
                grammar::lemma_advance_until(self@, allow_list, Delimiters::InsideParens);
            }
            let node = match self.advance_until(allow_list, Delimiters::InsideParens) {
                Some(Ok(node)) => node,
                Some(Err(next)) => return Parsed(
                    Some(next),
                    Some(
                        macro_of(
                            declaration_node,
                            name_node,
                            Some(Delimited::new(args_open_node, Some(args), None)),
                            None,
                            None,
                        ),
                    ),
                ),
                None => return Parsed(
                    None,
                    Some(
                        macro_of(
                            declaration_node,
                            name_node,
                            Some(Delimited::new(args_open_node, Some(args), None)),
                            None,
                            None,
                        ),
                    ),
                ),
            };
            if matches!(node.token.value(), Token::ParensClose) {
                return self.parse_macro_body_open(
                    declaration_node,
                    name_node,
                    args_open_node,
                    Some(args),
                    node,
                );
            }
            let token = node.token;
            args.push(Construct::Node { node });
            if matches!(last_token.value(), Token::MacroArgIdentifier(_)) && matches!(
                token.value(),
                Token::MacroArgIdentifier(_)
            ) {
                self.fail(
                    ParseError::MissingToken { msg: Some(ParseErrorMessage::Expected("\",\"")) },
                    clamp_span_to_end(last_token.end()),
                );
            }
            last_token = token;
        }
    }

    fn parse_macro_body_open(
        &mut self,
        declaration_node: Node<'a>,
        name_node: Option<Node<'a>>,
        args_open_node: Node<'a>,
        args_content: Option<Vec<Construct<'a>>>,
        args_close_node: Node<'a>,
    ) -> (r: Parsed<'a>)
        ensures
            (final(self)@, r.0.deep_view(), r.1.deep_view()) == old(self)@.macro_body_open(
                declaration_node.deep_view(),
                name_node.deep_view(),
                args_open_node.deep_view(),
                match args_content {
                    Some(content) => Some(construct::constructs_view(content@)),
                    None => None,
                },
                args_close_node.deep_view(),
            ),
            final(self)@.remaining() <= old(self)@.remaining(),
            r.0 is Some ==> final(self)@.remaining() < old(self)@.remaining(),
        decreases old(self)@.remaining(), 0nat, 0nat,
    {
        proof {
            grammar::lemma_advance_until(
                self@,
                TokenSet::MacroContextOrBody,
                Delimiters::Construct,
            );
        }
        let found = self.advance_until(TokenSet::MacroContextOrBody, Delimiters::Construct);
        let args = Some(Delimited::new(args_open_node, args_content, Some(args_close_node)));
        match found {
            Some(Ok(start)) => self.parse_macro_rest(start, declaration_node, name_node, args),
            Some(Err(next)) => Parsed(
                Some(next),
                Some(macro_of(declaration_node, name_node, args, None, None)),
            ),
            None => Parsed(None, Some(macro_of(declaration_node, name_node, args, None, None))),
        }
    }

    /// Reads the body of a macro, or its context and then the body.
    fn parse_macro_rest(
        &mut self,
        start: Node<'a>,
        declaration_node: Node<'a>,
        name_node: Option<Node<'a>>,
        args_node: Option<Delimited<'a>>,
    ) -> (r: Parsed<'a>)
        ensures
            (final(self)@, r.0.deep_view(), r.1.deep_view()) == old(self)@.macro_rest(
                start.deep_view(),
                declaration_node.deep_view(),
                name_node.deep_view(),
                args_node.deep_view(),
            ),
            final(self)@.remaining() <= old(self)@.remaining(),
            r.0 is Some ==> final(self)@.remaining() < old(self)@.remaining(),
        decreases old(self)@.remaining(), 0nat, 3nat,
    {
        if matches!(start.token.value(), Token::ReturnArrow) {
            self.parse_macro_context(start, declaration_node, name_node, args_node)
        } else {
            self.parse_macro_body(
                start,
                declaration_node,
                name_node,
                args_node,
                None,
                MacroContext::Construct,
            )
        }
    }

    /// Reports a context of an unknown name.
    fn check_context(&mut self, ident: &Node<'a>)
        ensures
            final(self)@ == old(self)@.check_context(ident.deep_view().token),
    {
        if let Token::Identifier(name) = ident.token.value() {
            let names = context_names();
            if !is_one_of(name, names.as_slice()) {
                let range = self.range_from_span(ident.token.span());
                let msg = ParseErrorMessage::correction(
                    Some(name.to_owned()),
                    range,
                    names.as_slice(),
                );
                self.fail(ParseError::UnexpectedTokens { msg: Some(msg) }, ident.token.span());
            }
        }
    }

    /// Reads the context of a macro behind its arrow, and the body.
    fn parse_macro_context(
        &mut self,
        arrow: Node<'a>,
        declaration_node: Node<'a>,
        name_node: Option<Node<'a>>,
        args_node: Option<Delimited<'a>>,
    ) -> (r: Parsed<'a>)
        ensures
            (final(self)@, r.0.deep_view(), r.1.deep_view()) == old(self)@.macro_context(
                arrow.deep_view(),
                declaration_node.deep_view(),
                name_node.deep_view(),
                args_node.deep_view(),
            ),
            final(self)@.remaining() <= old(self)@.remaining(),
            r.0 is Some ==> final(self)@.remaining() < old(self)@.remaining(),
        decreases old(self)@.remaining(), 0nat, 2nat,
    {
        proof {
            grammar::lemma_advance_until(self@, TokenSet::MacroContext, Delimiters::Construct);
        }
        let ident = match self.advance_until(TokenSet::MacroContext, Delimiters::Construct) {
            Some(Ok(ident)) => ident,
            Some(Err(next)) => return Parsed(
                Some(next),
                Some(macro_of(declaration_node, name_node, args_node, Some((arrow, None)), None)),
            ),
            None => return Parsed(
                None,
                Some(macro_of(declaration_node, name_node, args_node, Some((arrow, None)), None)),
            ),
        };
        self.check_context(&ident);
        let return_type = Some((arrow, Some(ident)));
        let context = context_of(&return_type);
        proof {
            grammar::lemma_advance_until(self@, TokenSet::ScopeOpen, Delimiters::Construct);
        }
        match self.advance_until(TokenSet::ScopeOpen, Delimiters::Construct) {
            Some(Ok(open)) => self.parse_macro_body(
                open,
                declaration_node,
                name_node,
                args_node,
                return_type,
                context,
            ),
            Some(Err(next)) => Parsed(
                Some(next),
                Some(macro_of(declaration_node, name_node, args_node, return_type, None)),
            ),
            None => Parsed(
                None,
                Some(macro_of(declaration_node, name_node, args_node, return_type, None)),
            ),
        }
    }

    fn parse_macro_body(
        &mut self,
        body_open_node: Node<'a>,
        declaration_node: Node<'a>,
        name_node: Option<Node<'a>>,
        args_node: Option<Delimited<'a>>,
        return_type: Option<(Node<'a>, Option<Node<'a>>)>,
        context: MacroContext,
    ) -> (r: Parsed<'a>)
        ensures
            (final(self)@, r.0.deep_view(), r.1.deep_view()) == old(self)@.macro_body(
                body_open_node.deep_view(),
                declaration_node.deep_view(),
                name_node.deep_view(),
                args_node.deep_view(),
                return_type.deep_view(),
                context,
            ),
            final(self)@.remaining() <= old(self)@.remaining(),
            r.0 is Some ==> final(self)@.remaining() < old(self)@.remaining(),
        decreases old(self)@.remaining(), 0nat, 1nat,
    {
        let (next, body) = match context {
            MacroContext::Construct => self.parse_braced(body_open_node, Scope::Macro),
            MacroContext::Selector => self.parse_braced_selector(body_open_node),
            MacroContext::Assignment => self.parse_braced_datatype(body_open_node),
        };
        Parsed(
            next,
            Some(macro_of(declaration_node, name_node, args_node, return_type, Some(body))),
        )
    }

    /// Reads a selector between braces.
    fn parse_braced_selector(&mut self, open: Node<'a>) -> (r: (Option<Node<'a>>, Delimited<'a>))
        ensures
            (final(self)@, r.0.deep_view(), r.1.deep_view()) == old(self)@.braced_selector(
                open.deep_view(),
            ),
            final(self)@.remaining() <= old(self)@.remaining(),
            r.0 is Some ==> final(self)@.remaining() < old(self)@.remaining(),
    {
        proof {
            reveal(grammar::State::braced_selector);
        }
        let mut parts: Vec<Construct<'a>> = Vec::new();
        assert(construct::constructs_view(parts@) =~= seq![]);
        loop
            invariant
                old(self)@.selector_parts(seq![]) == self@.selector_parts(
                    construct::constructs_view(parts@),
                ),
                old(self)@.braced_selector(open.deep_view()) == match old(self)@.selector_parts(
                    seq![],
                ) {
                    (s, parts, Ok(close)) => (
                        s.advance().0,
                        s.advance().1,
                        construct::DelimitedView {
                            left: open.deep_view(),
                            content: Some(parts),
                            right: Some(close),
                        },
                    ),
                    (s, parts, Err(next)) => (
                        s,
                        next,
                        construct::DelimitedView {
                            left: open.deep_view(),
                            content: Some(parts),
                            right: None,
                        },
                    ),
                },
                self@.remaining() <= old(self)@.remaining(),
            decreases self@.remaining(),
        {
            broadcast use construct::lemma_constructs_push;

            proof {
                grammar::lemma_advance_until(
                    self@,
                    TokenSet::MacroSelectorPart,
                    Delimiters::Construct,
                );
            }
            match self.advance_until(TokenSet::MacroSelectorPart, Delimiters::Construct) {
                Some(Ok(node)) => {
                    if matches!(node.token.value(), Token::ScopeClose) {
                        proof {
                            grammar::lemma_advance_without_flags(self@);
                        }
                        let next = self.advance();
                        return (next, Delimited::new(open, Some(parts), Some(node)));
                    }
                    parts.push(Construct::Node { node });
                },
                Some(Err(next)) => return (Some(next), Delimited::new(open, Some(parts), None)),
                None => return (None, Delimited::new(open, Some(parts), None)),
            }
        }
    }

    /// Looks for the closing brace behind a construct that ends at `end`.
    fn find_close(&mut self, status: NodeStatus<'a>, end: usize) -> (r: Result<
        Node<'a>,
        Option<Node<'a>>,
    >)
        ensures
            (final(self)@, terminator_view(r)) == old(self)@.close(status.deep_view(), end),
            final(self)@.remaining() <= old(self)@.remaining(),
    {
        proof {
            reveal(grammar::State::close);
            grammar::lemma_advance_until(self@, TokenSet::ScopeClose, Delimiters::Construct);
        }
        match status {
            NodeStatus::Exists => match self.advance_until(
                TokenSet::ScopeClose,
                Delimiters::Construct,
            ) {
                Some(Ok(node)) => Ok(node),
                Some(Err(node)) => Err(Some(node)),
                None => Err(None),
            },
            NodeStatus::Stopped(node) => {
                if matches!(node.token.value(), Token::ScopeClose) {
                    return Ok(node);
                }
                self.fail(
                    ParseError::MissingToken { msg: Some(ParseErrorMessage::Expected("\"}\"")) },
                    clamp_span_to_end(end),
                );
                Err(Some(node))
            },
            NodeStatus::Absent => {
                self.fail(
                    ParseError::MissingToken { msg: Some(ParseErrorMessage::Expected("\"}\"")) },
                    clamp_span_to_end(end),
                );
                Err(None)
            },
        }
    }

    /// Reads a datatype between braces.
    fn parse_braced_datatype(&mut self, open: Node<'a>) -> (r: (Option<Node<'a>>, Delimited<'a>))
        ensures
            (final(self)@, r.0.deep_view(), r.1.deep_view()) == old(self)@.braced_datatype(
                open.deep_view(),
            ),
            final(self)@.remaining() <= old(self)@.remaining(),
            r.0 is Some ==> final(self)@.remaining() < old(self)@.remaining(),
    {
        proof {
            reveal(grammar::State::braced_datatype);
            grammar::lemma_advance_without_flags(self@);
        }
        let node = match self.advance() {
            Some(node) => node,
            None => {
                self.fail(
                    ParseError::MissingToken { msg: Some(ParseErrorMessage::Expected("\"}\"")) },
                    clamp_span_to_end(open.token.end()),
                );
                return (None, Delimited::new(open, None, None));
            },
        };
        if matches!(node.token.value(), Token::ScopeClose) {
            proof {
                grammar::lemma_advance_without_flags(self@);
            }
            return (self.advance(), Delimited::new(open, None, Some(node)));
        }
        let (status, value) = self.parse_datatype(Some(node), Delimiters::Construct);
        let ghost value_view = value.deep_view();
        let content: Option<Vec<Construct<'a>>> = match value {
            Some(value) => Some(vec![value]),
            None => None,
        };
        let mut body = Delimited::new(open, content, None);
        assert(value_view is Some ==> construct::constructs_view(content->0@) =~= seq![
            value_view->0,
        ]);
        let end: usize = body.end();
        match self.find_close(status, end) {
            Ok(close) => {
                proof {
                    grammar::lemma_advance_without_flags(self@);
                }
                body.right = Some(close);
                (self.advance(), body)
            },
            Err(next) => (next, body),
        }
    }
}

} // verus!
