//! The datatypes: values, operations on them, tables, enums and macro calls.

use super::{State, StatusView};
use crate::parser::construct::{ConstructView, DelimitedView, NodeView};
use crate::parser::token;
use crate::parser::token::{Delimiters, Token, TokenSet, ADD_SUB_PRECEDENCE};
use vstd::prelude::*;

verus! {

pub open spec fn math<'a>(
    left: ConstructView<'a>,
    operators: Seq<NodeView<'a>>,
    right: Option<ConstructView<'a>>,
) -> ConstructView<'a> {
    ConstructView::MathOperation { left: Box::new(left), operators, right: super::in_box(right) }
}

impl<'a> State<'a> {
    /// Reads additions and subtractions that follow one another; other operators between
    /// them have no place.
    pub open spec fn operator_chain(self, operators: Seq<NodeView<'a>>) -> (
        State<'a>,
        Option<NodeView<'a>>,
        Seq<NodeView<'a>>,
    )
        decreases self.remaining(),
    {
        proof {
            super::lemma_advance_without_flags(self);
        }
        match self.advance() {
            (s, Some(node)) => match token::precedence_of(node.token.1) {
                Some(precedence) => if precedence == ADD_SUB_PRECEDENCE {
                    s.operator_chain(operators.push(node))
                } else {
                    s.fail(super::misplaced(), super::clamped(node.token.2)).operator_chain(operators)
                },
                None => (s, Some(node), operators),
            },
            (s, None) => (s, None, operators),
        }
    }

    /// Reads the operators between two operands, and the token behind them.
    #[verifier::opaque]
    pub open spec fn datatype_operators(self, first: NodeView<'a>, precedence: usize) -> (
        State<'a>,
        Option<NodeView<'a>>,
        Seq<NodeView<'a>>,
    ) {
        if precedence == ADD_SUB_PRECEDENCE {
            self.operator_chain(seq![first])
        } else {
            let (s, node) = self.advance();
            (s, node, seq![first])
        }
    }

    /// Reads a datatype: an operand and the operations on it.
    pub open spec fn datatype(self, node: Option<NodeView<'a>>, delimiters: Delimiters) -> (
        State<'a>,
        StatusView<'a>,
        Option<ConstructView<'a>>,
    )
        decreases self.remaining(), 5nat,
    {
        let (s1, status, construct) = self.datatype_part(node, delimiters);
        if construct is None || !(status is Exists) {
            (s1, status, construct)
        } else {
            let left = construct->0;
            let (s2, middle) = s1.advance();
            if middle is None || token::precedence_of(middle->0.token.1) is None {
                (s2, super::status_of(middle), construct)
            } else {
                let precedence = token::precedence_of(middle->0.token.1)->0;
                let (s3, right, operators) = s2.datatype_operators(middle->0, precedence);
                if super::is_kind(right, |t: Token| t is SemiColon) {
                    (
                        s3.fail(super::missing("a datatype"), super::clamped(operators.last().token.2)),
                        super::status_of(right),
                        Some(math(left, operators, None)),
                    )
                } else if s3.remaining() < self.remaining() {
                    s3.datatype_operation(right, left, precedence, operators, delimiters)
                } else {
                    (s3, super::status_of(right), construct)
                }
            }
        }
    }

    /// Reads the operand behind `last_operators`. An operator of a higher precedence takes
    /// it as its left side; one of the same precedence takes the operation so far.
    pub open spec fn datatype_operation(
        self,
        node: Option<NodeView<'a>>,
        last_datatype: ConstructView<'a>,
        last_precedence: usize,
        last_operators: Seq<NodeView<'a>>,
        delimiters: Delimiters,
    ) -> (State<'a>, StatusView<'a>, Option<ConstructView<'a>>)
        decreases self.remaining(), 5nat,
    {
        let (s1, status, construct) = self.datatype_part(node, delimiters);
        let so_far = math(last_datatype, last_operators, construct);
        if construct is None || !(status is Exists) {
            (s1, status, Some(so_far))
        } else {
            let left = construct->0;
            let (s2, middle) = s1.advance();
            if middle is None || token::precedence_of(middle->0.token.1) is None {
                (s2, super::status_of(middle), Some(so_far))
            } else {
                let precedence = token::precedence_of(middle->0.token.1)->0;
                let (s3, right, operators) = s2.datatype_operators(middle->0, precedence);
                if super::is_kind(right, |t: Token| t is SemiColon) {
                    (
                        s3.fail(super::missing("a datatype"), super::clamped(operators.last().token.2)),
                        super::status_of(right),
                        Some(
                            if precedence > last_precedence {
                                math(
                                    last_datatype,
                                    last_operators,
                                    Some(math(left, operators, None)),
                                )
                            } else {
                                math(so_far, operators, None)
                            },
                        ),
                    )
                } else if s3.remaining() >= self.remaining() {
                    (s3, super::status_of(right), Some(so_far))
                } else if precedence > last_precedence {
                    let (s4, status, inner) = s3.datatype_operation(
                        right,
                        left,
                        precedence,
                        operators,
                        delimiters,
                    );
                    (s4, status, Some(math(last_datatype, last_operators, inner)))
                } else {
                    s3.datatype_operation(right, so_far, precedence, operators, delimiters)
                }
            }
        }
    }

    /// Reads one operand.
    pub open spec fn datatype_part(self, node: Option<NodeView<'a>>, delimiters: Delimiters) -> (
        State<'a>,
        StatusView<'a>,
        Option<ConstructView<'a>>,
    )
        decreases self.remaining(), 4nat,
    {
        proof {
            super::lemma_optional_kind_else_advance_until(
                self,
                node,
                TokenSet::Datatype,
                delimiters,
            );
        }
        match self.optional_kind_else_advance_until(node, TokenSet::Datatype, delimiters) {
            (s, Some(Ok(node))) => match node.token.1 {
                Token::Identifier(_) => s.annotated_table(node),
                Token::ParensOpen => {
                    let (s, status, body) = s.table_body(node);
                    (s, status, Some(ConstructView::Table { body }))
                },
                Token::EnumKeyword => s.enum_datatype(node),
                Token::MacroCallIdentifier(_) => {
                    let (s, next, construct) = s.macro_call_body(node);
                    (s, super::status_of(next), construct)
                },
                Token::StringMulti(string) => match string.nestedness {
                    Err(nestedness) => (
                        s.fail_unclosed(node.token.2, nestedness),
                        StatusView::Exists,
                        Some(ConstructView::Node { node }),
                    ),
                    Ok(_) => (s, StatusView::Exists, Some(ConstructView::Node { node })),
                },
                Token::OpSub => {
                    proof {
                        super::lemma_advance_without_flags(s);
                    }
                    let (s, next) = s.advance();
                    let (s, status, operand) = if next is Some {
                        s.datatype_part(next, delimiters)
                    } else {
                        (
                            s.fail(
                                super::missing(TokenSet::Datatype.text()),
                                super::clamped(s.last_token_end),
                            ),
                            StatusView::Absent,
                            None,
                        )
                    };
                    match operand {
                        Some(operand) => (
                            s,
                            status,
                            Some(
                                ConstructView::UnaryMinus {
                                    operator: node,
                                    operand: Box::new(operand),
                                },
                            ),
                        ),
                        None => (s, status, Some(ConstructView::Node { node })),
                    }
                },
                _ => (s, StatusView::Exists, Some(ConstructView::Node { node })),
            },
            (s, Some(Err(node))) => (s, StatusView::Stopped(node), None),
            (s, None) => (s, StatusView::Absent, None),
        }
    }

    /// Puts an element into the table, and reads on to the next one. An `Err` or nothing
    /// means that the table ends.
    pub open spec fn table_arg(
        self,
        this: Option<NodeView<'a>>,
        group: ConstructView<'a>,
        groups: Seq<ConstructView<'a>>,
    ) -> (State<'a>, Seq<ConstructView<'a>>, Option<Result<NodeView<'a>, NodeView<'a>>>) {
        match this {
            None => (self, groups.push(group), None),
            Some(this) => match this.token.1 {
                Token::Comma => match self.advance() {
                    (s, Some(next)) => if next.token.1 is ParensClose {
                        (
                            s.fail(super::misplaced(), (this.token.0, this.token.2)),
                            groups.push(group),
                            Some(Err(next)),
                        )
                    } else {
                        (
                            s,
                            groups.push(group).push(ConstructView::Node { node: this }),
                            Some(Ok(next)),
                        )
                    },
                    (s, None) => (
                        s,
                        groups.push(group).push(ConstructView::Node { node: this }),
                        None,
                    ),
                },
                Token::ParensClose => (self, groups.push(group), Some(Err(this))),
                _ => (
                    self.fail(super::missing("\",\""), super::clamped(group.end())),
                    groups.push(group),
                    Some(Ok(this)),
                ),
            },
        }
    }

    /// Reads the elements of a table from the first on.
    pub open spec fn table_args(self, node: NodeView<'a>) -> (
        State<'a>,
        Option<NodeView<'a>>,
        Option<Seq<ConstructView<'a>>>,
    )
        decreases self.remaining(), 6nat,
    {
        let (s1, status, group) = self.datatype(Some(node), Delimiters::InsideParens);
        match group {
            Some(group) => {
                let (s2, this) = s1.consume(status);
                let (s3, groups, next) = s2.table_arg(this, group, seq![]);
                match next {
                    Some(Ok(node)) => if s3.remaining() < self.remaining() {
                        s3.table_args_rest(node, groups)
                    } else {
                        (s3, None, None)
                    },
                    Some(Err(node)) => (s3, Some(node), Some(groups)),
                    None => (s3, None, Some(groups)),
                }
            },
            None => (s1, None, None),
        }
    }

    /// Reads the elements of a table behind the first.
    pub open spec fn table_args_rest(self, node: NodeView<'a>, before: Seq<ConstructView<'a>>) -> (
        State<'a>,
        Option<NodeView<'a>>,
        Option<Seq<ConstructView<'a>>>,
    )
        decreases self.remaining(), 6nat,
    {
        let (s1, status, group) = self.datatype(Some(node), Delimiters::InsideParens);
        let (s2, this) = s1.consume(status);
        match group {
            Some(group) => {
                let (s3, groups, next) = s2.table_arg(this, group, before);
                match next {
                    Some(Ok(node)) => if s3.remaining() < self.remaining() {
                        s3.table_args_rest(node, groups)
                    } else {
                        (s3, None, None)
                    },
                    Some(Err(node)) => (s3, Some(node), Some(groups)),
                    None => (s3, None, Some(groups)),
                }
            },
            None => (s2, None, None),
        }
    }

    /// Reads a table behind its opening bracket.
    pub open spec fn table_body(self, open: NodeView<'a>) -> (
        State<'a>,
        StatusView<'a>,
        DelimitedView<'a>,
    )
        decreases self.remaining(), 2nat,
    {
        proof {
            super::lemma_advance_without_flags(self);
        }
        match self.advance() {
            (s, Some(node)) => if node.token.1 is ParensClose {
                (
                    s,
                    StatusView::Exists,
                    DelimitedView { left: open, content: None, right: Some(node) },
                )
            } else {
                let (s, close, groups) = s.table_args(node);
                if super::is_kind(close, |t: Token| t is ParensClose) {
                    (
                        s,
                        StatusView::Exists,
                        DelimitedView { left: open, content: groups, right: close },
                    )
                } else {
                    let body = DelimitedView { left: open, content: groups, right: None };
                    (s.fail(super::missing("\")\""), super::clamped(body.end())), super::status_of(close), body)
                }
            },
            (s, None) => (
                s.fail(super::missing("\")\""), super::clamped(open.token.2)),
                StatusView::Absent,
                DelimitedView { left: open, content: None, right: None },
            ),
        }
    }

    /// Reads a table behind its name.
    pub open spec fn annotated_table(self, annotation: NodeView<'a>) -> (
        State<'a>,
        StatusView<'a>,
        Option<ConstructView<'a>>,
    )
        decreases self.remaining(), 3nat,
    {
        proof {
            super::lemma_advance_without_flags(self);
        }
        match self.advance() {
            (s, Some(node)) => if node.token.1 is ParensOpen {
                let (s, status, body) = s.table_body(node);
                (
                    s,
                    status,
                    Some(ConstructView::AnnotatedTable { annotation, body: Some(body) }),
                )
            } else {
                // The semicolon is no part of the mistake.
                let span = if node.token.1 is SemiColon {
                    (annotation.token.0, annotation.token.2)
                } else {
                    (annotation.token.0, node.token.2)
                };
                (s.fail(super::unexpected("a datatype"), span), StatusView::Stopped(node), None)
            },
            (s, None) => (
                s.fail(super::unexpected("a datatype"), (annotation.token.0, annotation.token.2)),
                StatusView::Absent,
                None,
            ),
        }
    }

    /// Reads an enum item behind its keyword.
    #[verifier::opaque]
    pub open spec fn enum_datatype(self, keyword: NodeView<'a>) -> (
        State<'a>,
        StatusView<'a>,
        Option<ConstructView<'a>>,
    ) {
        match self.advance_until(TokenSet::EnumPart, Delimiters::Construct) {
            (s, Some(Ok(name))) => match s.advance_until(
                TokenSet::EnumPart,
                Delimiters::Construct,
            ) {
                (s, Some(Ok(variant))) => {
                    let (s, next) = s.advance();
                    (
                        s,
                        super::status_of(next),
                        Some(
                            ConstructView::Enum {
                                keyword,
                                name: Some(name),
                                variant: Some(variant),
                            },
                        ),
                    )
                },
                (s, Some(Err(node))) => (
                    s,
                    StatusView::Stopped(node),
                    Some(ConstructView::Enum { keyword, name: Some(name), variant: None }),
                ),
                (s, None) => (
                    s,
                    StatusView::Absent,
                    Some(ConstructView::Enum { keyword, name: Some(name), variant: None }),
                ),
            },
            (s, Some(Err(node))) => (
                s,
                StatusView::Stopped(node),
                Some(ConstructView::Enum { keyword, name: None, variant: None }),
            ),
            (s, None) => (
                s,
                StatusView::Absent,
                Some(ConstructView::Enum { keyword, name: None, variant: None }),
            ),
        }
    }

    /// Reads the arguments of a macro call up to the closing bracket. Brackets inside are
    /// matched and left out.
    #[verifier::opaque]
    pub open spec fn macro_call_content(self, nestedness: nat, content: Seq<ConstructView<'a>>) -> (
        State<'a>,
        Seq<ConstructView<'a>>,
        Option<NodeView<'a>>,
    )
        decreases self.remaining(),
    {
        proof {
            super::lemma_advance_without_flags(self);
        }
        match self.advance() {
            (s, Some(node)) => match node.token.1 {
                Token::ParensOpen => s.macro_call_content(nestedness + 1, content),
                Token::ParensClose => if nestedness == 0 {
                    (s, content, Some(node))
                } else {
                    s.macro_call_content((nestedness - 1) as nat, content)
                },
                _ => s.macro_call_content(nestedness, content.push(ConstructView::Node { node })),
            },
            (s, None) => (s, content, None),
        }
    }

    /// Reads a macro call behind its name.
    #[verifier::opaque]
    pub open spec fn macro_call_body(self, name: NodeView<'a>) -> (
        State<'a>,
        Option<NodeView<'a>>,
        Option<ConstructView<'a>>,
    ) {
        match self.advance_until(TokenSet::ParensOpen, Delimiters::Construct) {
            (s, Some(Ok(open))) => {
                let (s, content, close) = s.macro_call_content(0, seq![]);
                let unfinished = ConstructView::MacroCall {
                    name,
                    body: Some(DelimitedView { left: open, content: Some(content), right: close }),
                    terminator: None,
                };
                if close is None {
                    (s.fail(super::missing("\")\""), unfinished.span()), None, Some(unfinished))
                } else {
                    match s.advance_until(TokenSet::SemiColon, Delimiters::Construct) {
                        (s, Some(Ok(terminator))) => {
                            let (s, next) = s.advance();
                            (
                                s,
                                next,
                                Some(
                                    ConstructView::MacroCall {
                                        name,
                                        body: Some(
                                            DelimitedView {
                                                left: open,
                                                content: Some(content),
                                                right: close,
                                            },
                                        ),
                                        terminator: Some(terminator),
                                    },
                                ),
                            )
                        },
                        (s, Some(Err(node))) => (s, Some(node), Some(unfinished)),
                        (s, None) => (s, None, Some(unfinished)),
                    }
                }
            },
            (s, Some(Err(node))) => (
                s,
                Some(node),
                Some(ConstructView::MacroCall { name, body: None, terminator: None }),
            ),
            (s, None) => (
                s,
                None,
                Some(ConstructView::MacroCall { name, body: None, terminator: None }),
            ),
        }
    }
}

} // verus!
