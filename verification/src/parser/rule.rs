//! Reading assignments and rules.

use super::construct;
use super::construct::{Construct, Delimited, Node};
use super::datatype::boxed;
use super::error::{ParseError, ParseErrorMessage};
use super::grammar::Scope;
use super::token::{Delimiters, SpannedToken, Token, TokenSet};
use super::{clamp_span_to_end, grammar, Parsed, Parser};
use vstd::prelude::*;

verus! {

fn assigned<'a>(
    left: Node<'a>,
    middle: Node<'a>,
    right: Option<Construct<'a>>,
    terminator: Option<Node<'a>>,
) -> (r: Construct<'a>)
    ensures
        construct::construct_view(r) == grammar::scope::assigned(
            left.deep_view(),
            middle.deep_view(),
            right.deep_view(),
            terminator.deep_view(),
        ),
{
    Construct::Assignment { left, middle: Some(middle), right: boxed(right), terminator }
}

fn ruled<'a>(selectors: Option<Vec<Node<'a>>>, body: Option<Delimited<'a>>) -> (r: Construct<'a>)
    ensures
        construct::construct_view(r) == grammar::scope::ruled(
            selectors.deep_view(),
            body.deep_view(),
        ),
{
    proof {
        assert(construct::optional_delimited_view(body) == body.deep_view());
    }
    Construct::Rule { selectors, body }
}

impl<'a> Parser<'a> {
    /// Reads the value of an assignment behind its equals sign.
    fn parse_assigned_value(&mut self, left_node: Node<'a>, middle_node: Node<'a>) -> (r: Parsed<
        'a,
    >)
        ensures
            (final(self)@, r.0.deep_view(), r.1.deep_view()) == old(self)@.assigned_value(
                left_node.deep_view(),
                middle_node.deep_view(),
            ),
            final(self)@.remaining() <= old(self)@.remaining(),
            r.0 is Some ==> final(self)@.remaining() < old(self)@.remaining(),
    {
        proof {
            reveal(grammar::State::assigned_value);
        }
        let (node_status, body) = self.parse_datatype_behind();
        let end: usize = match &body {
            Some(body) => body.end(),
            None => middle_node.token.end(),
        };
        assert(end == grammar::scope::assigned(
            left_node.deep_view(),
            middle_node.deep_view(),
            body.deep_view(),
            None,
        ).end());
        match self.find_terminator(node_status, end) {
            Ok(terminator) => {
                proof {
                    grammar::lemma_advance_without_flags(self@);
                }
                Parsed(
                    self.advance(),
                    Some(assigned(left_node, middle_node, body, Some(terminator))),
                )
            },
            Err(next) => Parsed(next, Some(assigned(left_node, middle_node, body, None))),
        }
    }

    fn parse_assignment(&mut self, node: Node<'a>) -> (r: Parsed<'a>)
        ensures
            (final(self)@, r.0.deep_view(), r.1.deep_view()) == old(self)@.assignment(
                node.deep_view(),
            ),
            final(self)@.remaining() <= old(self)@.remaining(),
            r.0 is Some ==> final(self)@.remaining() < old(self)@.remaining(),
    {
        proof {
            reveal(grammar::State::assignment);
        }
        proof {
            grammar::lemma_advance_until(self@, TokenSet::Equals, Delimiters::Construct);
        }
        match self.advance_until(TokenSet::Equals, Delimiters::Construct) {
            Some(Ok(middle_node)) => self.parse_assigned_value(node, middle_node),
            Some(Err(next)) => Parsed(Some(next), None),
            None => Parsed(None, None),
        }
    }

    pub(crate) fn parse_static_token_assignment(&mut self, node: Node<'a>) -> (r: Parsed<'a>)
        ensures
            node.token.1 is StaticTokenIdentifier ==> (
                final(self)@,
                r.0.deep_view(),
                r.1.deep_view(),
            ) == old(self)@.assignment(node.deep_view()),
            !(node.token.1 is StaticTokenIdentifier) ==> final(self)@ == old(self)@
                && r.0.deep_view() == Some(node.deep_view()) && r.1 is None,
            final(self)@.remaining() <= old(self)@.remaining(),
            r.0 is Some ==> final(self)@ == old(self)@ || final(self)@.remaining() < old(
                self,
            )@.remaining(),
    {
        if !matches!(node.token.value(), Token::StaticTokenIdentifier(_)) {
            return Parsed(Some(node), None);
        }
        self.parse_assignment(node)
    }

    pub(crate) fn parse_token_assignment(&mut self, node: Node<'a>) -> (r: Parsed<'a>)
        ensures
            node.token.1 is TokenIdentifier ==> (final(self)@, r.0.deep_view(), r.1.deep_view())
                == old(self)@.assignment(node.deep_view()),
            !(node.token.1 is TokenIdentifier) ==> final(self)@ == old(self)@ && r.0.deep_view()
                == Some(node.deep_view()) && r.1 is None,
            final(self)@.remaining() <= old(self)@.remaining(),
            r.0 is Some ==> final(self)@ == old(self)@ || final(self)@.remaining() < old(
                self,
            )@.remaining(),
    {
        if !matches!(node.token.value(), Token::TokenIdentifier(_)) {
            return Parsed(Some(node), None);
        }
        self.parse_assignment(node)
    }

    pub(crate) fn parse_property_assignment_or_rule_scope(&mut self, node: Node<'a>) -> (r: Parsed<
        'a,
    >)
        ensures
            (final(self)@, r.0.deep_view(), r.1.deep_view()) == old(self)@.property_or_rule(
                node.deep_view(),
            ),
            final(self)@.remaining() <= old(self)@.remaining(),
            r.0 is Some ==> final(self)@ == old(self)@ || final(self)@.remaining() < old(
                self,
            )@.remaining(),
        decreases old(self)@.remaining(), 1nat, 0nat,
    {
        if !matches!(node.token.value(), Token::Identifier(_)) {
            return Parsed(Some(node), None);
        }
        proof {
            grammar::lemma_advance_until(self@, TokenSet::PropertyOrSelector, Delimiters::Construct);
        }
        let middle_node = match self.advance_until(
            TokenSet::PropertyOrSelector,
            Delimiters::Construct,
        ) {
            Some(Ok(middle_node)) => middle_node,
            Some(Err(next)) => return Parsed(Some(next), None),
            None => return Parsed(None, None),
        };
        let token = middle_node.token;
        match token.value() {
            Token::Equals => self.parse_assigned_value(node, middle_node),
            Token::ScopeOpen => {
                let mut selectors: Vec<Node<'a>> = Vec::new();
                selectors.push(node);
                assert(selectors.deep_view() =~= seq![node.deep_view()]);
                self.parse_rule_scope_body(middle_node, Some(selectors))
            },
            _ => {
                let mut selectors: Vec<Node<'a>> = Vec::new();
                selectors.push(node);
                selectors.push(middle_node);
                assert(selectors.deep_view() =~= seq![node.deep_view(), middle_node.deep_view()]);
                let comma_allowed = !matches!(token.value(), Token::Comma);
                self.parse_rule_scope_selector(token, selectors, comma_allowed)
            },
        }
    }

    pub(crate) fn parse_rule_scope_selector_begin(&mut self, node: Node<'a>) -> (r: Parsed<'a>)
        ensures
            (final(self)@, r.0.deep_view(), r.1.deep_view()) == old(self)@.selector_begin(
                node.deep_view(),
            ),
            final(self)@.remaining() <= old(self)@.remaining(),
            r.0 is Some ==> final(self)@ == old(self)@ || final(self)@.remaining() < old(
                self,
            )@.remaining(),
        decreases old(self)@.remaining(), 1nat, 0nat,
    {
        match node.token.value() {
            Token::NameSelector(_) | Token::TagSelectorOrEnumPart(_)
            | Token::StateSelectorOrEnumPart(_) | Token::PseudoSelector(_)
            | Token::QuerySelector(_) | Token::ChildrenSelector | Token::DescendantsSelector => {
                let token = node.token;
                let mut selectors: Vec<Node<'a>> = Vec::new();
                selectors.push(node);
                assert(selectors.deep_view() =~= seq![node.deep_view()]);
                self.parse_rule_scope_selector(token, selectors, true)
            },
            Token::ScopeOpen => self.parse_rule_scope_body(node, None),
            _ => Parsed(Some(node), None),
        }
    }

    /// Reads the rest of a selector. With `comma_allowed` a comma may come next; without it
    /// only selector parts and the opening brace.
    fn parse_rule_scope_selector(
        &mut self,
        last_token: SpannedToken<'a>,
        selectors: Vec<Node<'a>>,
        comma_allowed: bool,
    ) -> (r: Parsed<'a>)
        ensures
            (final(self)@, r.0.deep_view(), r.1.deep_view()) == old(self)@.rule_selector(
                last_token,
                selectors.deep_view(),
                comma_allowed,
            ),
            final(self)@.remaining() <= old(self)@.remaining(),
            r.0 is Some ==> final(self)@.remaining() < old(self)@.remaining(),
        decreases old(self)@.remaining(), 0nat, 2nat,
    {
        let allow_list = if comma_allowed {
            TokenSet::SelectorPartOrComma
        } else {
            TokenSet::SelectorPart
        };
        proof {
            grammar::lemma_advance_until(self@, allow_list, Delimiters::Construct);
        }
        let node = match self.advance_until(allow_list, Delimiters::Construct) {
            Some(Ok(node)) => node,
            Some(Err(next)) => return Parsed(Some(next), Some(ruled(Some(selectors), None))),
            None => return Parsed(None, Some(ruled(Some(selectors), None))),
        };
        let token = node.token;
        self.handle_hierarchy_selector_without_part(&last_token, &token);
        if matches!(token.value(), Token::ScopeOpen) {
            if !comma_allowed && matches!(last_token.value(), Token::Comma) {
                self.fail(ParseError::UnexpectedTokens { msg: None }, last_token.span());
            }
            return self.parse_rule_scope_body(node, Some(selectors));
        }
        let next_comma_allowed = !(comma_allowed && matches!(token.value(), Token::Comma));
        let ghost before = selectors;
        let mut selectors = selectors;
        selectors.push(node);
        assert(selectors.deep_view() =~= before.deep_view().push(node.deep_view()));
        self.parse_rule_scope_selector(token, selectors, next_comma_allowed)
    }

    fn handle_hierarchy_selector_without_part(
        &mut self,
        last_token: &SpannedToken<'a>,
        token: &SpannedToken<'a>,
    )
        ensures
            final(self)@ == old(self)@.check_hierarchy(*last_token, *token),
    {
        if matches!(last_token.value(), Token::DescendantsSelector | Token::ChildrenSelector)
            && matches!(
                token.value(),
                Token::DescendantsSelector | Token::ChildrenSelector | Token::Comma
                | Token::ScopeOpen
            ) {
            self.fail(
                ParseError::MissingToken {
                    msg: Some(ParseErrorMessage::Expected("selector part")),
                },
                clamp_span_to_end(last_token.end()),
            );
        }
    }

    pub(crate) fn parse_rule_scope_body(
        &mut self,
        body_open_node: Node<'a>,
        selectors: Option<Vec<Node<'a>>>,
    ) -> (r: Parsed<'a>)
        ensures
            (final(self)@, r.0.deep_view(), r.1.deep_view()) == old(self)@.rule_body(
                body_open_node.deep_view(),
                selectors.deep_view(),
            ),
            final(self)@.remaining() <= old(self)@.remaining(),
            r.0 is Some ==> final(self)@.remaining() < old(self)@.remaining(),
        decreases old(self)@.remaining(), 0nat, 1nat,
    {
        let (next, body) = self.parse_braced(body_open_node, Scope::Rule);
        Parsed(next, Some(Construct::rule(selectors, body)))
    }
}

} // verus!
