//! Reading the constructs of a scope.

use super::construct;
use super::construct::{Construct, Delimited, Node};
use super::error::{ParseError, ParseErrorMessage};
use super::grammar::{Part, Scope};
use super::token::{SpannedToken, Token};
use super::{clamp_span_to_end, grammar, Parsed, Parser};
use crate::strings::join2;
use vstd::prelude::*;

verus! {

impl Part {
    /// The kind that is tried next.
    pub fn next(self) -> (r: Option<Part>)
        ensures
            r == self.following(),
    {
        match self {
            Part::Macro => Some(Part::MacroCall),
            Part::MacroCall => Some(Part::Derive),
            Part::Derive => Some(Part::Priority),
            Part::Priority => Some(Part::Name),
            Part::Name => Some(Part::Tween),
            Part::Tween => Some(Part::StaticTokenAssignment),
            Part::StaticTokenAssignment => Some(Part::TokenAssignment),
            Part::TokenAssignment => Some(Part::PropertyOrRule),
            Part::PropertyOrRule => Some(Part::SelectorBegin),
            Part::SelectorBegin => Some(Part::InvalidDeclaration),
            Part::InvalidDeclaration => Some(Part::Absent),
            Part::Absent => None,
        }
    }
}

/// Where a construct of this kind is not allowed.
fn context_of(part: Part, scope: Scope, construct: &Construct) -> (r: Option<&'static str>)
    ensures
        r == grammar::objection(part, scope, construct.deep_view()),
{
    match scope {
        Scope::Global => match part {
            Part::Priority | Part::Name => Some("the global scope"),
            Part::PropertyOrRule => if matches!(construct, Construct::Assignment { .. }) {
                Some("the global scope")
            } else {
                None
            },
            _ => None,
        },
        Scope::Macro => match part {
            Part::Macro => Some("other macros"),
            Part::Derive => Some("non-global scopes"),
            _ => None,
        },
        Scope::Rule => match part {
            Part::Macro => Some("rules"),
            Part::Derive => Some("non-global scopes"),
            _ => None,
        },
    }
}

/// The span of the skipped tokens, with one more.
fn widen(error_span: Option<(usize, usize)>, token: &SpannedToken) -> (r: Option<(usize, usize)>)
    ensures
        r == grammar::scope::widened(error_span, *token),
{
    match error_span {
        Some((start, _)) => Some((start, token.end())),
        None => Some((token.start(), token.end())),
    }
}

/// The names of the declarations.
pub fn declaration_names() -> (r: Vec<&'static str>)
    ensures
        r@ == grammar::scope::declaration_names(),
{
    let r = vec!["@derive", "@macro", "@priority", "@name", "@tween"];
    assert(r@ =~= grammar::scope::declaration_names());
    r
}

impl<'a> Parser<'a> {
    /// Puts a construct into a scope, with an error where it is not allowed there.
    fn handle_construct(
        &mut self,
        construct: Option<Construct<'a>>,
        content: &mut Vec<Construct<'a>>,
        part: Part,
        scope: Scope,
    )
        ensures
            (final(self)@, construct::constructs_view(final(content)@)) == old(self)@.put(
                construct.deep_view(),
                construct::constructs_view(old(content)@),
                part,
                scope,
            ),
    {
        broadcast use construct::lemma_constructs_push;

        if let Some(construct) = construct {
            if let Some(context) = context_of(part, scope, &construct) {
                self.fail(
                    ParseError::UnexpectedTokens {
                        msg: Some(
                            ParseErrorMessage::NotAllowed {
                                name: construct.name_plural(),
                                context: Some(context),
                            },
                        ),
                    },
                    construct.span(),
                );
            }
            content.push(construct);
        }
    }

    fn parse_invalid_declaration(&mut self, node: Node<'a>) -> (r: Option<Node<'a>>)
        ensures
            (final(self)@, r.deep_view()) == old(self)@.invalid_declaration(node.deep_view()),
            final(self)@.remaining() <= old(self)@.remaining(),
            r is Some ==> final(self)@ == old(self)@ || final(self)@.remaining() < old(
                self,
            )@.remaining(),
    {
        proof {
            reveal(grammar::State::invalid_declaration);
        }
        let name = match node.token.value() {
            Token::InvalidDeclaration(name) => name,
            _ => return Some(node),
        };
        let name = match name {
            Some(name) => Some(join2("@", name)),
            None => None,
        };
        let range = self.range_from_span(node.token.span());
        let names = declaration_names();
        let msg = ParseErrorMessage::correction(name, range, names.as_slice());
        self.fail(ParseError::UnexpectedTokens { msg: Some(msg) }, node.token.span());
        proof {
            grammar::lemma_advance_without_flags(self@);
        }
        self.advance()
    }

    fn parse_absent(&mut self, node: Node<'a>) -> (r: Parsed<'a>)
        ensures
            node.token.1 is Absent ==> final(self)@ == old(self)@.advance().0 && r.0.deep_view()
                == old(self)@.advance().1 && r.1.deep_view() == Some(
                construct::ConstructView::Absent { node: node.deep_view() },
            ),
            !(node.token.1 is Absent) ==> final(self)@ == old(self)@ && r.0.deep_view() == Some(
                node.deep_view(),
            ) && r.1 is None,
            final(self)@.remaining() <= old(self)@.remaining(),
            r.0 is Some ==> final(self)@ == old(self)@ || final(self)@.remaining() < old(
                self,
            )@.remaining(),
    {
        if !matches!(node.token.value(), Token::Absent) {
            return Parsed(Some(node), None);
        }
        proof {
            grammar::lemma_advance_without_flags(self@);
        }
        Parsed(self.advance(), Some(Construct::Absent { node }))
    }

    /// Reads a construct of one kind, where the node starts one.
    fn parse_part(&mut self, node: Node<'a>, part: Part, scope: Scope) -> (r: Parsed<'a>)
        ensures
            (final(self)@, r.0.deep_view(), r.1.deep_view()) == old(self)@.part(
                node.deep_view(),
                part,
                scope,
            ),
            final(self)@.remaining() <= old(self)@.remaining(),
            r.0 is Some ==> final(self)@ == old(self)@ || final(self)@.remaining() < old(
                self,
            )@.remaining(),
        decreases old(self)@.remaining(), 2nat, 0nat,
    {
        match part {
            Part::Macro => self.parse_macro(node),
            Part::MacroCall => self.parse_macro_call(node),
            Part::Derive => self.parse_derive(node),
            Part::Priority => self.parse_priority(node),
            Part::Name => self.parse_name(node),
            Part::Tween => self.parse_tween(node),
            Part::StaticTokenAssignment => self.parse_static_token_assignment(node),
            Part::TokenAssignment => self.parse_token_assignment(node),
            Part::PropertyOrRule => self.parse_property_assignment_or_rule_scope(node),
            Part::SelectorBegin => self.parse_rule_scope_selector_begin(node),
            Part::InvalidDeclaration => Parsed(self.parse_invalid_declaration(node), None),
            Part::Absent => self.parse_absent(node),
        }
    }

    /// Tries the kinds of constructs one after the other, each on the node that the one
    /// before left.
    fn parse_step(
        &mut self,
        first: Node<'a>,
        content: &mut Vec<Construct<'a>>,
        scope: Scope,
    ) -> (r: Option<Node<'a>>)
        ensures
            (final(self)@, construct::constructs_view(final(content)@), r.deep_view())
                == old(self)@.step(
                first.deep_view(),
                construct::constructs_view(old(content)@),
                Part::Macro,
                scope,
            ),
            final(self)@.remaining() <= old(self)@.remaining(),
            r is Some && final(self)@.did_advance != old(self)@.did_advance
                ==> final(self)@.remaining() < old(self)@.remaining(),
        decreases old(self)@.remaining(), 3nat, 0nat,
    {
        let ghost goal = old(self)@.step(
            first.deep_view(),
            construct::constructs_view(old(content)@),
            Part::Macro,
            scope,
        );
        let mut part = Part::Macro;
        let mut node = first;
        loop
            invariant
                goal == old(self)@.step(
                    first.deep_view(),
                    construct::constructs_view(old(content)@),
                    Part::Macro,
                    scope,
                ),
                goal == self@.step(
                    node.deep_view(),
                    construct::constructs_view(content@),
                    part,
                    scope,
                ),
                self@.remaining() <= old(self)@.remaining(),
                self@.did_advance != old(self)@.did_advance ==> self@.remaining() < old(
                    self,
                )@.remaining(),
            decreases part.rank(),
        {
            let Parsed(next, construct) = self.parse_part(node, part, scope);
            self.handle_construct(construct, content, part, scope);
            node = match next {
                Some(next) => next,
                None => return None,
            };
            part = match part.next() {
                Some(part) => part,
                None => return Some(node),
            };
        }
    }

    /// Reads the constructs of a scope up to its closing brace.
    fn parse_loop_inner(&mut self, first: Node<'a>, scope: Scope) -> (r: (
        Vec<Construct<'a>>,
        Option<Node<'a>>,
    ))
        ensures
            (final(self)@, construct::constructs_view(r.0@), r.1.deep_view())
                == old(self)@.scope_content(first.deep_view(), scope),
            final(self)@.remaining() <= old(self)@.remaining(),
        decreases old(self)@.remaining(), 5nat, 0nat,
    {
        let last_did_advance = self.did_advance;
        self.did_advance = false;
        let mut content: Vec<Construct<'a>> = Vec::new();
        assert(construct::constructs_view(content@) =~= seq![]);
        let mut error_span: Option<(usize, usize)> = None;
        let ghost goal = self@.scope_loop(
            first.deep_view(),
            construct::constructs_view(content@),
            scope,
            None,
        );
        assert(goal == (grammar::State { did_advance: false, ..old(self)@ }).scope_loop(
            first.deep_view(),
            seq![],
            scope,
            None,
        ));
        let mut node = first;
        loop
            invariant
                goal == (grammar::State { did_advance: false, ..old(self)@ }).scope_loop(
                    first.deep_view(),
                    seq![],
                    scope,
                    None,
                ),
                goal == self@.scope_loop(
                    node.deep_view(),
                    construct::constructs_view(content@),
                    scope,
                    error_span,
                ),
                self@.remaining() <= old(self)@.remaining(),
                !self@.did_advance,
                last_did_advance == old(self)@.did_advance,
            decreases self@.remaining(),
        {
            node = match self.parse_step(node, &mut content, scope) {
                Some(node) => node,
                None => {
                    self.did_advance = last_did_advance;
                    return (content, None);
                },
            };
            let ends = matches!(node.token.value(), Token::ScopeClose);
            if self.did_advance {
                self.did_advance = false;
                self.fail_if(error_span);
                if ends {
                    return (content, Some(node));
                }
            } else {
                if ends {
                    self.fail_if(error_span);
                    return (content, Some(node));
                }
                error_span = widen(error_span, &node.token);
                proof {
                    grammar::lemma_advance_without_flags(self@);
                }
                node = match self.accept() {
                    Some(node) => node,
                    None => {
                        self.fail_if(error_span);
                        self.did_advance = last_did_advance;
                        return (content, None);
                    },
                };
            }
        }
    }

    /// Reads a scope between braces.
    pub(crate) fn parse_braced(&mut self, body_open_node: Node<'a>, scope: Scope) -> (r: (
        Option<Node<'a>>,
        Delimited<'a>,
    ))
        ensures
            (final(self)@, r.0.deep_view(), r.1.deep_view()) == old(self)@.braced(
                body_open_node.deep_view(),
                scope,
            ),
            final(self)@.remaining() <= old(self)@.remaining(),
            r.0 is Some ==> final(self)@.remaining() < old(self)@.remaining(),
        decreases old(self)@.remaining(), 0nat, 0nat,
    {
        proof {
            grammar::lemma_advance_without_flags(self@);
        }
        let node = match self.advance() {
            Some(node) => node,
            None => {
                self.fail(
                    ParseError::MissingToken { msg: Some(ParseErrorMessage::Expected("\"}\"")) },
                    clamp_span_to_end(body_open_node.token.end()),
                );
                return (None, Delimited::new(body_open_node, None, None));
            },
        };
        if matches!(node.token.value(), Token::ScopeClose) {
            proof {
                grammar::lemma_advance_without_flags(self@);
            }
            return (self.advance(), Delimited::new(body_open_node, None, Some(node)));
        }
        let (content, close) = self.parse_loop_inner(node, scope);
        let closed = close.is_some();
        let body = Delimited::new(body_open_node, Some(content), close);
        if !closed {
            self.fail(
                ParseError::MissingToken { msg: Some(ParseErrorMessage::Expected("\"}\"")) },
                clamp_span_to_end(body.end()),
            );
        }
        proof {
            grammar::lemma_advance_without_flags(self@);
        }
        (self.advance(), body)
    }

    /// Reads the constructs of a whole document.
    pub(crate) fn parse_loop(&mut self) -> (r: Vec<Construct<'a>>)
        requires
            !old(self)@.did_advance,
        ensures
            (final(self)@, construct::constructs_view(r@)) == old(self)@.document(),
    {
        let mut ast: Vec<Construct<'a>> = Vec::new();
        assert(construct::constructs_view(ast@) =~= seq![]);
        proof {
            grammar::lemma_advance_without_flags(self@);
        }
        let mut node = match self.accept() {
            Some(node) => node,
            None => return ast,
        };
        let mut error_span: Option<(usize, usize)> = None;
        loop
            invariant
                old(self)@.document() == self@.document_loop(
                    node.deep_view(),
                    construct::constructs_view(ast@),
                    error_span,
                ),
                !self@.did_advance,
            decreases self@.remaining(),
        {
            node = match self.parse_step(node, &mut ast, Scope::Global) {
                Some(node) => node,
                None => {
                    self.fail_if(error_span);
                    return ast;
                },
            };
            if self.did_advance {
                self.did_advance = false;
                self.fail_if(error_span);
            } else {
                error_span = widen(error_span, &node.token);
                proof {
                    grammar::lemma_advance_without_flags(self@);
                }
                node = match self.accept() {
                    Some(node) => node,
                    None => {
                        self.fail_if(error_span);
                        return ast;
                    },
                };
            }
        }
    }
}

} // verus!
