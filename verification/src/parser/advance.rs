//! Reading tokens.

use super::construct::Node;
use super::error::{ParseError, ParseErrorMessage};
use super::token::{Delimiters, SpannedToken, Token, TokenSet};
use super::{clamp_span_to_end, grammar, NodeStatus, Parser};
use crate::strings::join3;
use vstd::prelude::*;

verus! {

/// A string of equal signs.
fn equal_signs(n: usize) -> (r: String)
    ensures
        r@ == Seq::new(n as nat, |i: int| '='),
{
    let mut out = String::new();
    let mut i: usize = 0;
    proof {
        reveal_strlit("=");
    }
    while i < n
        invariant
            i <= n,
            out@ == Seq::new(i as nat, |i: int| '='),
            "="@ == seq!['='],
        decreases n - i,
    {
        out.append("=");
        i += 1;
        assert(out@ =~= Seq::new(i as nat, |i: int| '='));
    }
    out
}

impl<'a> Parser<'a> {
    /// Reports an error.
    pub(crate) fn fail(&mut self, error: ParseError, span: (usize, usize))
        ensures
            final(self)@ == old(self)@.fail(error, span),
    {
        let range = self.range_from_span(span);
        self.ast_errors.push(error, range);
    }

    /// Reports the skipped tokens, where there are any.
    pub(crate) fn fail_if(&mut self, error_span: Option<(usize, usize)>)
        ensures
            final(self)@ == old(self)@.fail_if(error_span),
    {
        if let Some(span) = error_span {
            self.fail(ParseError::UnexpectedTokens { msg: None }, span);
        }
    }

    fn next_token(&mut self) -> (r: Option<SpannedToken<'a>>)
        ensures
            (final(self)@, r) == old(self)@.next_token(),
    {
        if self.position < self.tokens.len() {
            let token = self.tokens[self.position];
            self.position += 1;
            Some(token)
        } else {
            None
        }
    }

    /// Reports a string or comment that is not closed.
    pub(crate) fn handle_multiline_string_error(
        &mut self,
        token: &SpannedToken<'a>,
        expected_nestedness: usize,
    )
        ensures
            final(self)@ == old(self)@.fail_unclosed(token.2, expected_nestedness),
    {
        let signs = equal_signs(expected_nestedness);
        let bracket = join3("\"]", signs.as_str(), "]\"");
        let ghost before = self@;
        self.fail(
            ParseError::MissingToken { msg: Some(ParseErrorMessage::Expected(bracket.as_str())) },
            clamp_span_to_end(token.end()),
        );
        proof {
            assert(bracket@ == grammar::closing_bracket(expected_nestedness));
            assert(self@ == before.fail_unclosed(token.2, expected_nestedness));
        }
    }

    fn check_comment(&mut self, token: &SpannedToken<'a>)
        ensures
            final(self)@ == old(self)@.check_comment(*token),
    {
        if let Token::CommentMulti(comment) = token.value() {
            if let Err(expected_nestedness) = comment.nestedness {
                self.handle_multiline_string_error(token, expected_nestedness);
            }
        }
    }

    fn next_node(&mut self) -> (r: Option<Node<'a>>)
        ensures
            (final(self)@, r.deep_view()) == old(self)@.next_node(),
    {
        let mut token = match self.next_token() {
            Some(token) => token,
            None => return None,
        };
        if !matches!(token.value(), Token::CommentMulti(_) | Token::CommentSingle(_)) {
            return Some(Node { token, leading_trivia: None });
        }
        self.check_comment(&token);
        let mut leading_trivia: Vec<SpannedToken<'a>> = Vec::new();
        leading_trivia.push(token);
        assert(leading_trivia@ =~= seq![token]);
        loop
            invariant
                old(self)@.next_node() == (
                    self@.after_trivia(leading_trivia@).0,
                    Some(self@.after_trivia(leading_trivia@).1),
                ),
            decreases self@.remaining(),
        {
            token = match self.next_token() {
                Some(token) => token,
                None => {
                    return Some(
                        Node {
                            token: SpannedToken::new(
                                self.last_token_end,
                                Token::Absent,
                                self.last_token_end,
                            ),
                            leading_trivia: Some(leading_trivia),
                        },
                    );
                },
            };
            if !matches!(token.value(), Token::CommentMulti(_) | Token::CommentSingle(_)) {
                return Some(Node { token, leading_trivia: Some(leading_trivia) });
            }
            self.check_comment(&token);
            leading_trivia.push(token);
        }
    }

    /// Advances to the next valid node; leaves `did_advance` and `last_token_end` alone.
    pub(crate) fn advance_without_flags(&mut self) -> (r: Option<Node<'a>>)
        ensures
            (final(self)@, r.deep_view()) == old(self)@.advance_without_flags(),
    {
        proof {
            reveal(grammar::State::advance_without_flags);
        }
        let node = self.next_node();
        let (span_start, mut span_end) = match &node {
            Some(Node { token: SpannedToken(start, Token::Error, end), .. }) => (*start, *end),
            _ => return node,
        };
        loop
            invariant
                old(self)@.advance_without_flags() == self@.skip_errors(span_start, span_end),
            decreases self@.remaining(),
        {
            proof {
                grammar::lemma_next_node(self@);
            }
            let node = self.next_node();
            match &node {
                Some(Node { token: SpannedToken(_, Token::Error, next_span_end), .. }) => {
                    span_end = *next_span_end;
                },
                _ => {
                    self.fail(ParseError::UnexpectedTokens { msg: None }, (span_start, span_end));
                    return node;
                },
            }
        }
    }

    fn update_last_token_end(&mut self, node: &Option<Node<'a>>)
        ensures
            final(self)@ == old(self)@.update_last_token_end(node.deep_view()),
    {
        if let Some(node) = node {
            self.last_token_end = node.token.end();
        }
    }

    /// Advances to the next valid node.
    pub(crate) fn advance(&mut self) -> (r: Option<Node<'a>>)
        ensures
            (final(self)@, r.deep_view()) == old(self)@.advance(),
    {
        let node = self.advance_without_flags();
        self.update_last_token_end(&node);
        self.did_advance = true;
        node
    }

    /// Advances to the next valid node; leaves `did_advance` alone.
    pub(crate) fn accept(&mut self) -> (r: Option<Node<'a>>)
        ensures
            (final(self)@, r.deep_view()) == old(self)@.accept(),
    {
        let node = self.advance_without_flags();
        self.update_last_token_end(&node);
        node
    }

    fn advance_until_core_loop(
        &mut self,
        allow_list: TokenSet,
        construct_delimiters: Delimiters,
        span_start: usize,
        first_span_end: usize,
    ) -> (r: Option<Result<Node<'a>, Node<'a>>>)
        ensures
            (final(self)@, super::found_view(r)) == old(self)@.until_core(
                allow_list,
                construct_delimiters,
                span_start,
                first_span_end,
            ),
    {
        let mut span_end: usize = first_span_end;
        loop
            invariant
                old(self)@.until_core(allow_list, construct_delimiters, span_start, first_span_end)
                    == self@.until_core(allow_list, construct_delimiters, span_start, span_end),
            decreases self@.remaining(),
        {
            proof {
                grammar::lemma_next_node(self@);
            }
            match self.next_node() {
                Some(node) => {
                    let token = node.token.value();
                    if matches!(token, Token::Error) {
                        span_end = node.token.end();
                    } else if allow_list.contains(&token) {
                        self.fail(
                            ParseError::UnexpectedTokens { msg: None },
                            (span_start, span_end),
                        );
                        self.last_token_end = node.token.end();
                        return Some(Ok(node));
                    } else if construct_delimiters.contains(&token) {
                        self.fail(
                            ParseError::UnexpectedTokens {
                                msg: Some(ParseErrorMessage::Expected(allow_list.name())),
                            },
                            (span_start, span_end),
                        );
                        return Some(Err(node));
                    } else {
                        span_end = node.token.end();
                    }
                },
                None => {
                    self.fail(
                        ParseError::UnexpectedTokens {
                            msg: Some(ParseErrorMessage::Expected(allow_list.name())),
                        },
                        (span_start, span_end),
                    );
                    return None;
                },
            }
        }
    }

    /// Advances to the next node that is allowed; leaves `did_advance` alone.
    fn advance_until_without_flag(
        &mut self,
        allow_list: TokenSet,
        construct_delimiters: Delimiters,
    ) -> (r: Option<Result<Node<'a>, Node<'a>>>)
        ensures
            (final(self)@, super::found_view(r)) == old(self)@.advance_until_without_flag(
                allow_list,
                construct_delimiters,
            ),
    {
        match self.next_node() {
            Some(node) => {
                let token = node.token.value();
                if matches!(token, Token::Error) {
                    self.advance_until_core_loop(
                        allow_list,
                        construct_delimiters,
                        node.token.start(),
                        node.token.end(),
                    )
                } else if allow_list.contains(&token) {
                    self.last_token_end = node.token.end();
                    Some(Ok(node))
                } else if construct_delimiters.contains(&token) {
                    self.fail(
                        ParseError::MissingToken {
                            msg: Some(ParseErrorMessage::Expected(allow_list.name())),
                        },
                        clamp_span_to_end(self.last_token_end),
                    );
                    Some(Err(node))
                } else {
                    self.advance_until_core_loop(
                        allow_list,
                        construct_delimiters,
                        node.token.start(),
                        node.token.end(),
                    )
                }
            },
            None => {
                self.fail(
                    ParseError::MissingToken {
                        msg: Some(ParseErrorMessage::Expected(allow_list.name())),
                    },
                    clamp_span_to_end(self.last_token_end),
                );
                None
            },
        }
    }

    /// Advances to the next node that is allowed.
    pub(crate) fn advance_until(
        &mut self,
        allow_list: TokenSet,
        construct_delimiters: Delimiters,
    ) -> (r: Option<Result<Node<'a>, Node<'a>>>)
        ensures
            (final(self)@, super::found_view(r)) == old(self)@.advance_until(
                allow_list,
                construct_delimiters,
            ),
    {
        proof {
            reveal(grammar::State::advance_until);
        }
        let next = self.advance_until_without_flag(allow_list, construct_delimiters);
        self.did_advance = true;
        next
    }

    fn node_is_kind_else_advance_until(
        &mut self,
        node: Node<'a>,
        allow_list: TokenSet,
        construct_delimiters: Delimiters,
    ) -> (r: Option<Result<Node<'a>, Node<'a>>>)
        ensures
            (final(self)@, super::found_view(r)) == old(self)@.kind_else_advance_until(
                node.deep_view(),
                allow_list,
                construct_delimiters,
            ),
    {
        let value = node.token.value();
        if allow_list.contains(&value) {
            return Some(Ok(node));
        }
        if construct_delimiters.contains(&value) {
            self.fail(
                ParseError::MissingToken {
                    msg: Some(ParseErrorMessage::Expected(allow_list.name())),
                },
                clamp_span_to_end(self.last_token_end),
            );
            return Some(Err(node));
        }
        let last_token = node.token;
        match self.next_node() {
            Some(node) => {
                let token = node.token.value();
                if matches!(token, Token::Error) {
                    self.advance_until_core_loop(
                        allow_list,
                        construct_delimiters,
                        last_token.start(),
                        node.token.end(),
                    )
                } else if allow_list.contains(&token) {
                    self.fail(ParseError::UnexpectedTokens { msg: None }, last_token.span());
                    self.last_token_end = node.token.end();
                    Some(Ok(node))
                } else if construct_delimiters.contains(&token) {
                    self.fail(
                        ParseError::UnexpectedTokens {
                            msg: Some(ParseErrorMessage::Expected(allow_list.name())),
                        },
                        last_token.span(),
                    );
                    Some(Err(node))
                } else {
                    self.advance_until_core_loop(
                        allow_list,
                        construct_delimiters,
                        last_token.start(),
                        node.token.end(),
                    )
                }
            },
            None => {
                self.fail(
                    ParseError::UnexpectedTokens {
                        msg: Some(ParseErrorMessage::Expected(allow_list.name())),
                    },
                    last_token.span(),
                );
                None
            },
        }
    }

    pub(crate) fn optional_node_is_kind_else_advance_until(
        &mut self,
        node: Option<Node<'a>>,
        allow_list: TokenSet,
        construct_delimiters: Delimiters,
    ) -> (r: Option<Result<Node<'a>, Node<'a>>>)
        ensures
            (final(self)@, super::found_view(r)) == old(self)@.optional_kind_else_advance_until(
                node.deep_view(),
                allow_list,
                construct_delimiters,
            ),
    {
        proof {
            reveal(grammar::State::optional_kind_else_advance_until);
        }
        match node {
            Some(node) => self.node_is_kind_else_advance_until(
                node,
                allow_list,
                construct_delimiters,
            ),
            None => {
                self.fail(
                    ParseError::MissingToken {
                        msg: Some(ParseErrorMessage::Expected(allow_list.name())),
                    },
                    clamp_span_to_end(self.last_token_end),
                );
                None
            },
        }
    }
}

impl<'a> NodeStatus<'a> {
    /// The node that the status holds, or the next one.
    pub(crate) fn consume_err_or_advance(self, parser: &mut Parser<'a>) -> (r: Option<Node<'a>>)
        ensures
            (final(parser)@, r.deep_view()) == old(parser)@.consume(self.deep_view()),
    {
        match self {
            NodeStatus::Stopped(node) => Some(node),
            NodeStatus::Exists => parser.advance(),
            NodeStatus::Absent => None,
        }
    }
}

} // verus!
