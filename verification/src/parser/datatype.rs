//! Reading datatypes.

use super::construct;
use super::construct::{Construct, Delimited, Node};
use super::error::{ParseError, ParseErrorMessage};
use super::token::{operator_precedence, Delimiters, Token, TokenSet, ADD_SUB_PRECEDENCE};
use super::{clamp_span_to_end, grammar, NodeStatus, Parsed, Parser, ToStatus};
use vstd::prelude::*;

verus! {

/// Boxes a construct that may be missing.
pub(crate) fn boxed<'a>(c: Option<Construct<'a>>) -> (r: Option<Box<Construct<'a>>>)
    ensures
        construct::boxed_view(r) == grammar::in_box(c.deep_view()),
        r is Some <==> c is Some,
        c is Some ==> *r->0 == c->0,
{
    match c {
        Some(c) => Some(Box::new(c)),
        None => None,
    }
}

fn math<'a>(
    left: Construct<'a>,
    operators: Vec<Node<'a>>,
    right: Option<Construct<'a>>,
) -> (r: Construct<'a>)
    ensures
        construct::construct_view(r) == grammar::datatype::math(
            left.deep_view(),
            operators.deep_view(),
            right.deep_view(),
        ),
{
    Construct::MathOperation { left: Box::new(left), operators, right: boxed(right) }
}

impl<'a> Parser<'a> {
    /// Reads a datatype.
    pub(crate) fn parse_datatype(
        &mut self,
        node: Option<Node<'a>>,
        construct_delimiters: Delimiters,
    ) -> (r: (NodeStatus<'a>, Option<Construct<'a>>))
        ensures
            (final(self)@, r.0.deep_view(), r.1.deep_view()) == old(self)@.datatype(
                node.deep_view(),
                construct_delimiters,
            ),
            final(self)@.remaining() <= old(self)@.remaining(),
            r.1 is Some && r.0 is Stopped ==> final(self)@.remaining() < old(self)@.remaining(),
            node is None ==> r.0 is Absent,
        decreases old(self)@.remaining(), 5nat,
    {
        let ghost start = self@;
        let (node_status, part) = self.parse_datatype_part(node, construct_delimiters);
        let left = match part {
            Some(part) => part,
            None => return (node_status, None),
        };
        match node_status {
            NodeStatus::Exists => (),
            _ => return (node_status, Some(left)),
        }
        proof {
            grammar::lemma_advance_without_flags(self@);
        }
        let middle = match self.advance() {
            Some(middle) => middle,
            None => return (NodeStatus::Absent, Some(left)),
        };
        let precedence: usize = match operator_precedence(&middle.token.value()) {
            Some(precedence) => precedence,
            None => return (middle.to_status(), Some(left)),
        };
        let (right, operators) = self.parse_datatype_operators(middle, precedence);
        if let Some(Node { token: super::token::SpannedToken(_, Token::SemiColon, _), .. }) = &right {
            let end: usize = operators[operators.len() - 1].token.end();
            self.fail(
                ParseError::MissingToken { msg: Some(ParseErrorMessage::Expected("a datatype")) },
                clamp_span_to_end(end),
            );
            return (right.to_status(), Some(math(left, operators, None)));
        }
        self.parse_datatype_operation(right, left, precedence, operators, construct_delimiters)
    }

    fn parse_datatype_part(
        &mut self,
        node: Option<Node<'a>>,
        construct_delimiters: Delimiters,
    ) -> (r: (NodeStatus<'a>, Option<Construct<'a>>))
        ensures
            (final(self)@, r.0.deep_view(), r.1.deep_view()) == old(self)@.datatype_part(
                node.deep_view(),
                construct_delimiters,
            ),
            final(self)@.remaining() <= old(self)@.remaining(),
            r.1 is Some && r.0 is Stopped ==> final(self)@.remaining() < old(self)@.remaining(),
            node is None ==> r.0 is Absent,
        decreases old(self)@.remaining(), 4nat,
    {
        proof {
            grammar::lemma_optional_kind_else_advance_until(
                self@,
                node.deep_view(),
                TokenSet::Datatype,
                construct_delimiters,
            );
        }
        let node = match self.optional_node_is_kind_else_advance_until(
            node,
            TokenSet::Datatype,
            construct_delimiters,
        ) {
            Some(Ok(node)) => node,
            Some(Err(node)) => return (NodeStatus::Stopped(node), None),
            None => return (NodeStatus::Absent, None),
        };
        match node.token.value() {
            Token::Identifier(_) => self.parse_annotated_table_datatype(node),
            Token::ParensOpen => self.parse_table_datatype(node),
            Token::EnumKeyword => self.parse_enum_datatype(node),
            Token::MacroCallIdentifier(_) => {
                let Parsed(next, construct) = self.parse_macro_call_body(node);
                (next.to_status(), construct)
            },
            Token::StringMulti(string) => {
                if let Err(expected_nestedness) = string.nestedness {
                    let token = node.token;
                    self.handle_multiline_string_error(&token, expected_nestedness);
                }
                (NodeStatus::Exists, Some(Construct::Node { node }))
            },
            Token::OpSub => {
                proof {
                    grammar::lemma_advance_without_flags(self@);
                }
                let (operand_status, operand) = match self.advance() {
                    Some(next) => self.parse_datatype_part(Some(next), construct_delimiters),
                    None => {
                        self.fail(
                            ParseError::MissingToken {
                                msg: Some(ParseErrorMessage::Expected(TokenSet::Datatype.name())),
                            },
                            clamp_span_to_end(self.last_token_end),
                        );
                        (NodeStatus::Absent, None)
                    },
                };
                match operand {
                    Some(operand) => (
                        operand_status,
                        Some(Construct::UnaryMinus { operator: node, operand: Box::new(operand) }),
                    ),
                    None => (operand_status, Some(Construct::Node { node })),
                }
            },
            _ => (NodeStatus::Exists, Some(Construct::Node { node })),
        }
    }

    fn parse_datatype_operators(&mut self, first: Node<'a>, precedence: usize) -> (r: (
        Option<Node<'a>>,
        Vec<Node<'a>>,
    ))
        ensures
            (final(self)@, r.0.deep_view(), r.1.deep_view()) == old(self)@.datatype_operators(
                first.deep_view(),
                precedence,
            ),
            r.1@.len() > 0,
            final(self)@.remaining() <= old(self)@.remaining(),
            r.0 is Some ==> final(self)@.remaining() < old(self)@.remaining(),
    {
        proof {
            reveal(grammar::State::datatype_operators);
        }
        let mut operators: Vec<Node<'a>> = Vec::new();
        operators.push(first);
        assert(operators.deep_view() =~= seq![first.deep_view()]);
        if precedence != ADD_SUB_PRECEDENCE {
            proof {
                grammar::lemma_advance_without_flags(self@);
            }
            return (self.advance(), operators);
        }
        let ghost goal = self@.operator_chain(operators.deep_view());
        loop
            invariant
                goal == self@.operator_chain(operators.deep_view()),
                goal == old(self)@.datatype_operators(first.deep_view(), precedence),
                operators@.len() > 0,
                self@.remaining() <= old(self)@.remaining(),
            decreases self@.remaining(),
        {
            broadcast use construct::lemma_nodes_push;

            proof {
                grammar::lemma_advance_without_flags(self@);
            }
            let ghost before = operators;
            match self.advance() {
                Some(node) => match operator_precedence(&node.token.value()) {
                    Some(precedence) => if precedence == ADD_SUB_PRECEDENCE {
                        operators.push(node);
                        assert(operators.deep_view() =~= before.deep_view().push(node.deep_view()));
                    } else {
                        self.fail(
                            ParseError::UnexpectedTokens { msg: None },
                            clamp_span_to_end(node.token.end()),
                        );
                    },
                    None => return (Some(node), operators),
                },
                None => return (None, operators),
            }
        }
    }

    #[verifier::rlimit(30)]
    fn parse_datatype_operation(
        &mut self,
        node: Option<Node<'a>>,
        last_datatype: Construct<'a>,
        last_precedence: usize,
        last_operators: Vec<Node<'a>>,
        construct_delimiters: Delimiters,
    ) -> (r: (NodeStatus<'a>, Option<Construct<'a>>))
        ensures
            (final(self)@, r.0.deep_view(), r.1.deep_view()) == old(self)@.datatype_operation(
                node.deep_view(),
                last_datatype.deep_view(),
                last_precedence,
                last_operators.deep_view(),
                construct_delimiters,
            ),
            final(self)@.remaining() <= old(self)@.remaining(),
        decreases old(self)@.remaining(), 5nat,
    {
        let (node_status, part) = self.parse_datatype_part(node, construct_delimiters);
        let left = match part {
            Some(part) => part,
            None => return (node_status, Some(math(last_datatype, last_operators, None))),
        };
        match node_status {
            NodeStatus::Exists => (),
            _ => return (node_status, Some(math(last_datatype, last_operators, Some(left)))),
        }
        proof {
            grammar::lemma_advance_without_flags(self@);
        }
        let middle = match self.advance() {
            Some(middle) => middle,
            None => return (
                NodeStatus::Absent,
                Some(math(last_datatype, last_operators, Some(left))),
            ),
        };
        let precedence: usize = match operator_precedence(&middle.token.value()) {
            Some(precedence) => precedence,
            None => return (
                middle.to_status(),
                Some(math(last_datatype, last_operators, Some(left))),
            ),
        };
        let (right, operators) = self.parse_datatype_operators(middle, precedence);
        if let Some(Node { token: super::token::SpannedToken(_, Token::SemiColon, _), .. }) = &right {
            let end: usize = operators[operators.len() - 1].token.end();
            self.fail(
                ParseError::MissingToken { msg: Some(ParseErrorMessage::Expected("a datatype")) },
                clamp_span_to_end(end),
            );
            let construct = if precedence > last_precedence {
                math(last_datatype, last_operators, Some(math(left, operators, None)))
            } else {
                math(math(last_datatype, last_operators, Some(left)), operators, None)
            };
            return (right.to_status(), Some(construct));
        }
        if precedence > last_precedence {
            let (node_status, construct) = self.parse_datatype_operation(
                right,
                left,
                precedence,
                operators,
                construct_delimiters,
            );
            (node_status, Some(math(last_datatype, last_operators, construct)))
        } else {
            self.parse_datatype_operation(
                right,
                math(last_datatype, last_operators, Some(left)),
                precedence,
                operators,
                construct_delimiters,
            )
        }
    }

    /// Puts an element into a table, and reads on to the next one. An `Err` or `None` means
    /// that the table ends.
    fn parse_table_datatype_arg_main(
        &mut self,
        this_node: Option<Node<'a>>,
        datatype_group: Construct<'a>,
        datatype_groups: &mut Vec<Construct<'a>>,
    ) -> (r: Option<Result<Node<'a>, Node<'a>>>)
        ensures
            (
                final(self)@,
                construct::constructs_view(final(datatype_groups)@),
                super::found_view(r),
            ) == old(self)@.table_arg(
                this_node.deep_view(),
                datatype_group.deep_view(),
                construct::constructs_view(old(datatype_groups)@),
            ),
            final(self)@.remaining() <= old(self)@.remaining(),
            r matches Some(Ok(_)) ==> this_node is Some,
    {
        broadcast use construct::lemma_constructs_push;

        let this_node = match this_node {
            Some(this_node) => this_node,
            None => {
                datatype_groups.push(datatype_group);
                return None;
            },
        };
        match this_node.token.value() {
            Token::Comma => {
                proof {
                    grammar::lemma_advance_without_flags(self@);
                }
                match self.advance() {
                    Some(next_node) => {
                        if matches!(next_node.token.value(), Token::ParensClose) {
                            datatype_groups.push(datatype_group);
                            self.fail(
                                ParseError::UnexpectedTokens { msg: None },
                                this_node.token.span(),
                            );
                            Some(Err(next_node))
                        } else {
                            datatype_groups.push(datatype_group);
                            datatype_groups.push(Construct::Node { node: this_node });
                            Some(Ok(next_node))
                        }
                    },
                    None => {
                        datatype_groups.push(datatype_group);
                        datatype_groups.push(Construct::Node { node: this_node });
                        None
                    },
                }
            },
            Token::ParensClose => {
                datatype_groups.push(datatype_group);
                Some(Err(this_node))
            },
            _ => {
                self.fail(
                    ParseError::MissingToken { msg: Some(ParseErrorMessage::Expected("\",\"")) },
                    clamp_span_to_end(datatype_group.end()),
                );
                datatype_groups.push(datatype_group);
                Some(Ok(this_node))
            },
        }
    }

    fn parse_table_datatype_args(&mut self, first: Node<'a>) -> (r: (
        Option<Node<'a>>,
        Option<Vec<Construct<'a>>>,
    ))
        ensures
            final(self)@ == old(self)@.table_args(first.deep_view()).0,
            r.0.deep_view() == old(self)@.table_args(first.deep_view()).1,
            match r.1 {
                Some(groups) => old(self)@.table_args(first.deep_view()).2 == Some(
                    construct::constructs_view(groups@),
                ),
                None => old(self)@.table_args(first.deep_view()).2 is None,
            },
            final(self)@.remaining() <= old(self)@.remaining(),
            r.0 is Some ==> final(self)@.remaining() < old(self)@.remaining(),
        decreases old(self)@.remaining(), 6nat,
    {
        let ghost goal = self@.table_args(first.deep_view());
        let (status, group) = self.parse_datatype(Some(first), Delimiters::InsideParens);
        let group = match group {
            Some(group) => group,
            None => return (None, None),
        };
        let mut groups: Vec<Construct<'a>> = Vec::new();
        assert(construct::constructs_view(groups@) =~= seq![]);
        proof {
            grammar::lemma_advance_without_flags(self@);
        }
        let this_node = status.consume_err_or_advance(self);
        assert(this_node is Some ==> self@.remaining() < old(self)@.remaining());
        let mut node = match self.parse_table_datatype_arg_main(this_node, group, &mut groups) {
            Some(Ok(node)) => node,
            Some(Err(node)) => return (Some(node), Some(groups)),
            None => return (None, Some(groups)),
        };
        loop
            invariant
                goal == self@.table_args_rest(node.deep_view(), construct::constructs_view(groups@)),
                goal == old(self)@.table_args(first.deep_view()),
                self@.remaining() < old(self)@.remaining(),
            decreases self@.remaining(),
        {
            let ghost before = self@;
            let (status, group) = self.parse_datatype(Some(node), Delimiters::InsideParens);
            proof {
                grammar::lemma_advance_without_flags(self@);
            }
            let this_node = status.consume_err_or_advance(self);
            let group = match group {
                Some(group) => group,
                None => return (None, None),
            };
            assert(this_node is Some ==> self@.remaining() < before.remaining());
            node = match self.parse_table_datatype_arg_main(this_node, group, &mut groups) {
                Some(Ok(node)) => node,
                Some(Err(node)) => return (Some(node), Some(groups)),
                None => return (None, Some(groups)),
            };
        }
    }

    /// Reads a table behind its opening bracket.
    fn parse_table_body(&mut self, table_open_node: Node<'a>) -> (r: (NodeStatus<'a>, Delimited<'a>))
        ensures
            (final(self)@, r.0.deep_view(), r.1.deep_view()) == old(self)@.table_body(
                table_open_node.deep_view(),
            ),
            final(self)@.remaining() <= old(self)@.remaining(),
            r.0 is Stopped ==> final(self)@.remaining() < old(self)@.remaining(),
        decreases old(self)@.remaining(), 2nat,
    {
        proof {
            grammar::lemma_advance_without_flags(self@);
        }
        let node = match self.advance() {
            Some(node) => node,
            None => {
                self.fail(
                    ParseError::MissingToken { msg: Some(ParseErrorMessage::Expected("\")\"")) },
                    clamp_span_to_end(table_open_node.token.end()),
                );
                return (NodeStatus::Absent, Delimited::new(table_open_node, None, None));
            },
        };
        if matches!(node.token.value(), Token::ParensClose) {
            return (NodeStatus::Exists, Delimited::new(table_open_node, None, Some(node)));
        }
        let (close, groups) = self.parse_table_datatype_args(node);
        if let Some(Node { token: super::token::SpannedToken(_, Token::ParensClose, _), .. }) = &close {
            return (NodeStatus::Exists, Delimited::new(table_open_node, groups, close));
        }
        let body = Delimited::new(table_open_node, groups, None);
        self.fail(
            ParseError::MissingToken { msg: Some(ParseErrorMessage::Expected("\")\"")) },
            clamp_span_to_end(body.end()),
        );
        (close.to_status(), body)
    }

    fn parse_table_datatype(&mut self, table_open_node: Node<'a>) -> (r: (
        NodeStatus<'a>,
        Option<Construct<'a>>,
    ))
        ensures
            ({
                let (s, status, body) = old(self)@.table_body(table_open_node.deep_view());
                &&& final(self)@ == s
                &&& r.0.deep_view() == status
                &&& r.1.deep_view() == Some(construct::ConstructView::Table { body })
            }),
            final(self)@.remaining() <= old(self)@.remaining(),
            r.0 is Stopped ==> final(self)@.remaining() < old(self)@.remaining(),
        decreases old(self)@.remaining(), 3nat,
    {
        let (status, body) = self.parse_table_body(table_open_node);
        (status, Some(Construct::Table { body }))
    }

    #[verifier::rlimit(40)]
    fn parse_annotated_table_datatype(&mut self, annotation_node: Node<'a>) -> (r: (
        NodeStatus<'a>,
        Option<Construct<'a>>,
    ))
        ensures
            (final(self)@, r.0.deep_view(), r.1.deep_view()) == old(self)@.annotated_table(
                annotation_node.deep_view(),
            ),
            final(self)@.remaining() <= old(self)@.remaining(),
            r.0 is Stopped ==> final(self)@.remaining() < old(self)@.remaining(),
        decreases old(self)@.remaining(), 3nat,
    {
        proof {
            grammar::lemma_advance_without_flags(self@);
        }
        let node = match self.advance() {
            Some(node) => node,
            None => {
                self.fail(
                    ParseError::UnexpectedTokens {
                        msg: Some(ParseErrorMessage::Expected("a datatype")),
                    },
                    annotation_node.token.span(),
                );
                return (NodeStatus::Absent, None);
            },
        };
        if matches!(node.token.value(), Token::ParensOpen) {
            let (status, body) = self.parse_table_body(node);
            proof {
                assert(construct::optional_delimited_view(Some(body)) == Some(body.deep_view()));
            }
            return (
                status,
                Some(Construct::AnnotatedTable { annotation: annotation_node, body: Some(body) }),
            );
        }
        // The semicolon is no part of the mistake.
        let error_span: (usize, usize) = if matches!(node.token.value(), Token::SemiColon) {
            annotation_node.token.span()
        } else {
            (annotation_node.token.start(), node.token.end())
        };
        self.fail(
            ParseError::UnexpectedTokens { msg: Some(ParseErrorMessage::Expected("a datatype")) },
            error_span,
        );
        (NodeStatus::Stopped(node), None)
    }

    fn parse_enum_datatype(&mut self, keyword_node: Node<'a>) -> (r: (
        NodeStatus<'a>,
        Option<Construct<'a>>,
    ))
        ensures
            (final(self)@, r.0.deep_view(), r.1.deep_view()) == old(self)@.enum_datatype(
                keyword_node.deep_view(),
            ),
            final(self)@.remaining() <= old(self)@.remaining(),
            r.0 is Stopped ==> final(self)@.remaining() < old(self)@.remaining(),
    {
        proof {
            reveal(grammar::State::enum_datatype);
        }
        proof {
            grammar::lemma_advance_until(self@, TokenSet::EnumPart, Delimiters::Construct);
        }
        let name_node = match self.advance_until(TokenSet::EnumPart, Delimiters::Construct) {
            Some(Ok(node)) => node,
            Some(Err(node)) => return (
                NodeStatus::Stopped(node),
                Some(Construct::Enum { keyword: keyword_node, name: None, variant: None }),
            ),
            None => return (
                NodeStatus::Absent,
                Some(Construct::Enum { keyword: keyword_node, name: None, variant: None }),
            ),
        };
        proof {
            grammar::lemma_advance_until(self@, TokenSet::EnumPart, Delimiters::Construct);
        }
        let variant_node = match self.advance_until(TokenSet::EnumPart, Delimiters::Construct) {
            Some(Ok(node)) => node,
            Some(Err(node)) => return (
                NodeStatus::Stopped(node),
                Some(
                    Construct::Enum { keyword: keyword_node, name: Some(name_node), variant: None },
                ),
            ),
            None => return (
                NodeStatus::Absent,
                Some(
                    Construct::Enum { keyword: keyword_node, name: Some(name_node), variant: None },
                ),
            ),
        };
        proof {
            grammar::lemma_advance_without_flags(self@);
        }
        (
            self.advance().to_status(),
            Some(
                Construct::Enum {
                    keyword: keyword_node,
                    name: Some(name_node),
                    variant: Some(variant_node),
                },
            ),
        )
    }

    /// Reads the arguments of a macro call up to the closing bracket.
    fn parse_macro_call_content(&mut self) -> (r: (Vec<Construct<'a>>, Option<Node<'a>>))
        ensures
            (final(self)@, construct::constructs_view(r.0@), r.1.deep_view())
                == old(self)@.macro_call_content(0, seq![]),
            final(self)@.remaining() <= old(self)@.remaining(),
    {
        proof {
            reveal(grammar::State::macro_call_content);
        }
        let mut body_content: Vec<Construct<'a>> = Vec::new();
        let mut parens_nestedness: usize = 0;
        let token_count: usize = self.tokens.len();
        assert(construct::constructs_view(body_content@) =~= seq![]);
        loop
            invariant
                old(self)@.macro_call_content(0, seq![]) == self@.macro_call_content(
                    parens_nestedness as nat,
                    construct::constructs_view(body_content@),
                ),
                self@.remaining() <= old(self)@.remaining(),
                parens_nestedness + self@.remaining() <= old(self)@.remaining(),
                old(self)@.remaining() <= token_count,
            decreases self@.remaining(),
        {
            broadcast use construct::lemma_constructs_push;

            proof {
                reveal(grammar::State::macro_call_content);
                grammar::lemma_advance_without_flags(self@);
            }
            let node = match self.advance() {
                Some(node) => node,
                None => return (body_content, None),
            };
            match node.token.value() {
                Token::ParensOpen => {
                    parens_nestedness += 1;
                },
                Token::ParensClose => {
                    if parens_nestedness == 0 {
                        return (body_content, Some(node));
                    }
                    parens_nestedness -= 1;
                },
                _ => {
                    body_content.push(Construct::Node { node });
                },
            }
        }
    }

    #[verifier::rlimit(30)]
    pub(crate) fn parse_macro_call_body(&mut self, name_node: Node<'a>) -> (r: Parsed<'a>)
        ensures
            (final(self)@, r.0.deep_view(), r.1.deep_view()) == old(self)@.macro_call_body(
                name_node.deep_view(),
            ),
            final(self)@.remaining() <= old(self)@.remaining(),
            r.0 is Some ==> final(self)@.remaining() < old(self)@.remaining(),
    {
        proof {
            reveal(grammar::State::macro_call_body);
        }
        proof {
            reveal_with_fuel(construct::construct_view, 3);
            grammar::lemma_advance_until(self@, TokenSet::ParensOpen, Delimiters::Construct);
        }
        let open_node = match self.advance_until(TokenSet::ParensOpen, Delimiters::Construct) {
            Some(Ok(node)) => node,
            Some(Err(node)) => return Parsed(
                Some(node),
                Some(Construct::MacroCall { name: name_node, body: None, terminator: None }),
            ),
            None => return Parsed(
                None,
                Some(Construct::MacroCall { name: name_node, body: None, terminator: None }),
            ),
        };
        let (body_content, close_node) = self.parse_macro_call_content();
        let close_node = match close_node {
            Some(node) => node,
            None => {
                let construct = Construct::MacroCall {
                    name: name_node,
                    body: Some(Delimited::new(open_node, Some(body_content), None)),
                    terminator: None,
                };
                self.fail(
                    ParseError::MissingToken { msg: Some(ParseErrorMessage::Expected("\")\"")) },
                    construct.span(),
                );
                return Parsed(None, Some(construct));
            },
        };
        proof {
            grammar::lemma_advance_until(self@, TokenSet::SemiColon, Delimiters::Construct);
        }
        let found = self.advance_until(TokenSet::SemiColon, Delimiters::Construct);
        let body = Some(Delimited::new(open_node, Some(body_content), Some(close_node)));
        match found {
            Some(Ok(node)) => {
                proof {
                    grammar::lemma_advance_without_flags(self@);
                }
                Parsed(
                    self.advance(),
                    Some(Construct::MacroCall { name: name_node, body, terminator: Some(node) }),
                )
            },
            Some(Err(node)) => Parsed(
                Some(node),
                Some(Construct::MacroCall { name: name_node, body, terminator: None }),
            ),
            None => Parsed(
                None,
                Some(Construct::MacroCall { name: name_node, body, terminator: None }),
            ),
        }
    }
}

} // verus!
