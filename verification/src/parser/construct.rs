//! The syntax tree.

use super::token::{SpannedToken, Token};
use vstd::prelude::*;

verus! {

/// A token with the comments in front of it.
#[derive(Debug)]
pub struct Node<'a> {
    pub token: SpannedToken<'a>,
    pub leading_trivia: Option<Vec<SpannedToken<'a>>>,
}

/// A stretch of constructs between two brackets; the closing one may be missing.
#[derive(Debug)]
pub struct Delimited<'a> {
    pub left: Node<'a>,
    pub content: Option<Vec<Construct<'a>>>,
    pub right: Option<Node<'a>>,
}

#[allow(inconsistent_fields)]
#[derive(Debug)]
pub enum Construct<'a> {
    Macro {
        declaration: Node<'a>,
        name: Option<Node<'a>>,
        args: Option<Delimited<'a>>,
        return_type: Option<(Node<'a>, Option<Node<'a>>)>,
        body: Option<Delimited<'a>>,
    },
    MacroCall { name: Node<'a>, body: Option<Delimited<'a>>, terminator: Option<Node<'a>> },
    Derive {
        declaration: Node<'a>,
        body: Option<Box<Construct<'a>>>,
        terminator: Option<Node<'a>>,
    },
    Priority {
        declaration: Node<'a>,
        body: Option<Box<Construct<'a>>>,
        terminator: Option<Node<'a>>,
    },
    Name {
        declaration: Node<'a>,
        body: Option<Box<Construct<'a>>>,
        terminator: Option<Node<'a>>,
    },
    Tween {
        declaration: Node<'a>,
        name: Option<Node<'a>>,
        body: Option<Box<Construct<'a>>>,
        terminator: Option<Node<'a>>,
    },
    Rule { selectors: Option<Vec<Node<'a>>>, body: Option<Delimited<'a>> },
    Assignment {
        left: Node<'a>,
        middle: Option<Node<'a>>,
        right: Option<Box<Construct<'a>>>,
        terminator: Option<Node<'a>>,
    },
    MathOperation {
        left: Box<Construct<'a>>,
        operators: Vec<Node<'a>>,
        right: Option<Box<Construct<'a>>>,
    },
    UnaryMinus { operator: Node<'a>, operand: Box<Construct<'a>> },
    AnnotatedTable { annotation: Node<'a>, body: Option<Delimited<'a>> },
    Table { body: Delimited<'a> },
    Enum { keyword: Node<'a>, name: Option<Node<'a>>, variant: Option<Node<'a>> },
    Node { node: Node<'a> },
    Absent { node: Node<'a> },
}

/// What a [`Node`] holds.
pub struct NodeView<'a> {
    pub token: SpannedToken<'a>,
    pub leading_trivia: Option<Seq<SpannedToken<'a>>>,
}

/// What a [`Delimited`] holds.
pub struct DelimitedView<'a> {
    pub left: NodeView<'a>,
    pub content: Option<Seq<ConstructView<'a>>>,
    pub right: Option<NodeView<'a>>,
}

/// What a [`Construct`] holds.
#[allow(inconsistent_fields)]
pub enum ConstructView<'a> {
    Macro {
        declaration: NodeView<'a>,
        name: Option<NodeView<'a>>,
        args: Option<DelimitedView<'a>>,
        return_type: Option<(NodeView<'a>, Option<NodeView<'a>>)>,
        body: Option<DelimitedView<'a>>,
    },
    MacroCall {
        name: NodeView<'a>,
        body: Option<DelimitedView<'a>>,
        terminator: Option<NodeView<'a>>,
    },
    Derive {
        declaration: NodeView<'a>,
        body: Option<Box<ConstructView<'a>>>,
        terminator: Option<NodeView<'a>>,
    },
    Priority {
        declaration: NodeView<'a>,
        body: Option<Box<ConstructView<'a>>>,
        terminator: Option<NodeView<'a>>,
    },
    Name {
        declaration: NodeView<'a>,
        body: Option<Box<ConstructView<'a>>>,
        terminator: Option<NodeView<'a>>,
    },
    Tween {
        declaration: NodeView<'a>,
        name: Option<NodeView<'a>>,
        body: Option<Box<ConstructView<'a>>>,
        terminator: Option<NodeView<'a>>,
    },
    Rule { selectors: Option<Seq<NodeView<'a>>>, body: Option<DelimitedView<'a>> },
    Assignment {
        left: NodeView<'a>,
        middle: Option<NodeView<'a>>,
        right: Option<Box<ConstructView<'a>>>,
        terminator: Option<NodeView<'a>>,
    },
    MathOperation {
        left: Box<ConstructView<'a>>,
        operators: Seq<NodeView<'a>>,
        right: Option<Box<ConstructView<'a>>>,
    },
    UnaryMinus { operator: NodeView<'a>, operand: Box<ConstructView<'a>> },
    AnnotatedTable { annotation: NodeView<'a>, body: Option<DelimitedView<'a>> },
    Table { body: DelimitedView<'a> },
    Enum { keyword: NodeView<'a>, name: Option<NodeView<'a>>, variant: Option<NodeView<'a>> },
    Node { node: NodeView<'a> },
    Absent { node: NodeView<'a> },
}

impl<'a> DeepView for Node<'a> {
    type V = NodeView<'a>;

    open spec fn deep_view(&self) -> NodeView<'a> {
        NodeView {
            token: self.token,
            leading_trivia: match self.leading_trivia {
                Some(trivia) => Some(trivia@),
                None => None,
            },
        }
    }
}

/// The view of a construct that may be missing.
pub open spec fn boxed_view<'a>(c: Option<Box<Construct<'a>>>) -> Option<Box<ConstructView<'a>>>
    decreases c,
{
    match c {
        Some(c) => Some(Box::new(construct_view(*c))),
        None => None,
    }
}

/// The view of a bracketed stretch that may be missing.
pub open spec fn optional_delimited_view<'a>(d: Option<Delimited<'a>>) -> Option<DelimitedView<'a>>
    decreases d,
{
    match d {
        Some(d) => Some(delimited_view(d)),
        None => None,
    }
}

pub open spec fn delimited_view<'a>(d: Delimited<'a>) -> DelimitedView<'a>
    decreases d,
{
    DelimitedView {
        left: d.left.deep_view(),
        content: match d.content {
            Some(content) => Some(constructs_view(content@)),
            None => None,
        },
        right: d.right.deep_view(),
    }
}

/// The views of several constructs.
pub open spec fn constructs_view<'a>(s: Seq<Construct<'a>>) -> Seq<ConstructView<'a>>
    decreases s,
{
    Seq::new(
        s.len(),
        |i: int|
            if 0 <= i < s.len() {
                construct_view(s[i])
            } else {
                arbitrary()
            },
    )
}

pub open spec fn construct_view<'a>(c: Construct<'a>) -> ConstructView<'a>
    decreases c,
{
    match c {
        Construct::Macro { declaration, name, args, return_type, body } => ConstructView::Macro {
            declaration: declaration.deep_view(),
            name: name.deep_view(),
            args: optional_delimited_view(args),
            return_type: match return_type {
                Some((arrow, ident)) => Some((arrow.deep_view(), ident.deep_view())),
                None => None,
            },
            body: optional_delimited_view(body),
        },
        Construct::MacroCall { name, body, terminator } => ConstructView::MacroCall {
            name: name.deep_view(),
            body: optional_delimited_view(body),
            terminator: terminator.deep_view(),
        },
        Construct::Derive { declaration, body, terminator } => ConstructView::Derive {
            declaration: declaration.deep_view(),
            body: boxed_view(body),
            terminator: terminator.deep_view(),
        },
        Construct::Priority { declaration, body, terminator } => ConstructView::Priority {
            declaration: declaration.deep_view(),
            body: boxed_view(body),
            terminator: terminator.deep_view(),
        },
        Construct::Name { declaration, body, terminator } => ConstructView::Name {
            declaration: declaration.deep_view(),
            body: boxed_view(body),
            terminator: terminator.deep_view(),
        },
        Construct::Tween { declaration, name, body, terminator } => ConstructView::Tween {
            declaration: declaration.deep_view(),
            name: name.deep_view(),
            body: boxed_view(body),
            terminator: terminator.deep_view(),
        },
        Construct::Rule { selectors, body } => ConstructView::Rule {
            selectors: selectors.deep_view(),
            body: optional_delimited_view(body),
        },
        Construct::Assignment { left, middle, right, terminator } => ConstructView::Assignment {
            left: left.deep_view(),
            middle: middle.deep_view(),
            right: boxed_view(right),
            terminator: terminator.deep_view(),
        },
        Construct::MathOperation { left, operators, right } => ConstructView::MathOperation {
            left: Box::new(construct_view(*left)),
            operators: operators.deep_view(),
            right: boxed_view(right),
        },
        Construct::UnaryMinus { operator, operand } => ConstructView::UnaryMinus {
            operator: operator.deep_view(),
            operand: Box::new(construct_view(*operand)),
        },
        Construct::AnnotatedTable { annotation, body } => ConstructView::AnnotatedTable {
            annotation: annotation.deep_view(),
            body: optional_delimited_view(body),
        },
        Construct::Table { body } => ConstructView::Table { body: delimited_view(body) },
        Construct::Enum { keyword, name, variant } => ConstructView::Enum {
            keyword: keyword.deep_view(),
            name: name.deep_view(),
            variant: variant.deep_view(),
        },
        Construct::Node { node } => ConstructView::Node { node: node.deep_view() },
        Construct::Absent { node } => ConstructView::Absent { node: node.deep_view() },
    }
}

impl<'a> DeepView for Construct<'a> {
    type V = ConstructView<'a>;

    open spec fn deep_view(&self) -> ConstructView<'a> {
        construct_view(*self)
    }
}

impl<'a> DeepView for Delimited<'a> {
    type V = DelimitedView<'a>;

    open spec fn deep_view(&self) -> DelimitedView<'a> {
        delimited_view(*self)
    }
}

/// Adding a construct adds its view.
pub broadcast proof fn lemma_constructs_push<'a>(s: Seq<Construct<'a>>, c: Construct<'a>)
    ensures
        #[trigger] constructs_view(s.push(c)) == constructs_view(s).push(construct_view(c)),
{
    assert(constructs_view(s.push(c)) =~= constructs_view(s).push(construct_view(c)));
}

/// Adding a node adds its view.
pub broadcast proof fn lemma_nodes_push<'a>(v: Vec<Node<'a>>, w: Vec<Node<'a>>, n: Node<'a>)
    requires
        w@ == v@.push(n),
    ensures
        #![trigger v@.push(n), w.deep_view()]
        w.deep_view() == v.deep_view().push(n.deep_view()),
{
    assert(w.deep_view() =~= v.deep_view().push(n.deep_view()));
}

/// What stands between brackets is smaller than the whole.
pub proof fn lemma_content_is_smaller<'a>(d: Option<Delimited<'a>>, i: int)
    requires
        d is Some,
        d->0.content is Some,
        0 <= i < d->0.content->0@.len(),
    ensures
        decreases_to!(d => d->0.content->0@[i]),
        decreases_to!(d->0 => d->0.content->0@[i]),
{
    assert(decreases_to!(d => d->0));
    assert(decreases_to!(d->0 => d->0.content));
    assert(decreases_to!(d->0.content => d->0.content->0));
    assert(decreases_to!(d->0.content->0 => d->0.content->0@));
    assert(decreases_to!(d->0.content->0@ => d->0.content->0@[i]));
}

/// The end of a node, or a fallback where there is none.
pub open spec fn end_or(node: Option<NodeView>, fallback: usize) -> usize {
    match node {
        Some(node) => node.token.2,
        None => fallback,
    }
}

impl<'a> DelimitedView<'a> {
    pub open spec fn start(self) -> usize {
        self.left.token.0
    }

    /// The end of the closing bracket; without one that of the last construct, and of the
    /// opening bracket where there is none.
    pub open spec fn end(self) -> usize
        decreases self,
    {
        match self.right {
            Some(right) => right.token.2,
            None => match self.content {
                Some(content) => if content.len() > 0 {
                    content[content.len() - 1].end()
                } else {
                    self.left.token.2
                },
                None => self.left.token.2,
            },
        }
    }
}

impl<'a> ConstructView<'a> {
    /// The first byte of a construct.
    pub open spec fn start(self) -> usize
        decreases self,
    {
        match self {
            ConstructView::Macro { declaration, .. } => declaration.token.0,
            ConstructView::MacroCall { name, .. } => name.token.0,
            ConstructView::Derive { declaration, .. } => declaration.token.0,
            ConstructView::Priority { declaration, .. } => declaration.token.0,
            ConstructView::Name { declaration, .. } => declaration.token.0,
            ConstructView::Tween { declaration, .. } => declaration.token.0,
            ConstructView::Rule { selectors, body } => if selectors is Some && selectors->0.len()
                > 0 {
                selectors->0[0].token.0
            } else {
                match body {
                    Some(body) => body.start(),
                    None => 0,
                }
            },
            ConstructView::Assignment { left, .. } => left.token.0,
            ConstructView::MathOperation { left, .. } => left.start(),
            ConstructView::UnaryMinus { operator, .. } => operator.token.0,
            ConstructView::AnnotatedTable { annotation, .. } => annotation.token.0,
            ConstructView::Table { body } => body.start(),
            ConstructView::Enum { keyword, .. } => keyword.token.0,
            ConstructView::Node { node } => node.token.0,
            ConstructView::Absent { node } => node.token.0,
        }
    }

    /// The end of the last part that a construct has. A rule without a body has none: its
    /// end is 0.
    pub open spec fn end(self) -> usize
        decreases self,
    {
        match self {
            ConstructView::Macro { declaration, name, args, return_type, body } => match body {
                Some(body) => body.end(),
                None => match return_type {
                    Some((arrow, ident)) => end_or(ident, arrow.token.2),
                    None => match args {
                        Some(args) => args.end(),
                        None => end_or(name, declaration.token.2),
                    },
                },
            },
            ConstructView::MacroCall { name, body, terminator } => match terminator {
                Some(terminator) => terminator.token.2,
                None => match body {
                    Some(body) => body.end(),
                    None => name.token.2,
                },
            },
            ConstructView::Derive { declaration, body, terminator } => match terminator {
                Some(terminator) => terminator.token.2,
                None => match body {
                    Some(body) => body.end(),
                    None => declaration.token.2,
                },
            },
            ConstructView::Priority { declaration, body, terminator } => match terminator {
                Some(terminator) => terminator.token.2,
                None => match body {
                    Some(body) => body.end(),
                    None => declaration.token.2,
                },
            },
            ConstructView::Name { declaration, body, terminator } => match terminator {
                Some(terminator) => terminator.token.2,
                None => match body {
                    Some(body) => body.end(),
                    None => declaration.token.2,
                },
            },
            ConstructView::Tween { declaration, name, body, terminator } => match terminator {
                Some(terminator) => terminator.token.2,
                None => match body {
                    Some(body) => body.end(),
                    None => end_or(name, declaration.token.2),
                },
            },
            ConstructView::Rule { selectors, body } => match body {
                Some(body) => body.end(),
                None => 0,
            },
            ConstructView::Assignment { left, middle, right, terminator } => match terminator {
                Some(terminator) => terminator.token.2,
                None => match right {
                    Some(right) => right.end(),
                    None => end_or(middle, left.token.2),
                },
            },
            ConstructView::MathOperation { left, operators, right } => match right {
                Some(right) => right.end(),
                None => if operators.len() > 0 {
                    operators[operators.len() - 1].token.2
                } else {
                    left.end()
                },
            },
            ConstructView::UnaryMinus { operator, operand } => operand.end(),
            ConstructView::AnnotatedTable { annotation, body } => match body {
                Some(body) => body.end(),
                None => annotation.token.2,
            },
            ConstructView::Table { body } => body.end(),
            ConstructView::Enum { keyword, name, variant } => match variant {
                Some(variant) => variant.token.2,
                None => end_or(name, keyword.token.2),
            },
            ConstructView::Node { node } => node.token.2,
            ConstructView::Absent { node } => node.token.2,
        }
    }

    /// The bytes of a construct.
    pub open spec fn span(self) -> (usize, usize) {
        (self.start(), self.end())
    }

    /// The words in which an error names constructs of this kind.
    pub open spec fn name_plural(self) -> &'static str {
        match self {
            ConstructView::Macro { .. } => "Macros",
            ConstructView::MacroCall { .. } => "Macro calls",
            ConstructView::Derive { .. } => "Derives",
            ConstructView::Priority { .. } => "Priorities",
            ConstructView::Name { .. } => "Names",
            ConstructView::Tween { .. } => "Tweens",
            ConstructView::Rule { .. } => "Rules",
            ConstructView::Assignment { left, .. } => match left.token.1 {
                Token::Identifier(_) => "Property assignments",
                Token::StaticTokenIdentifier(_) => "Static token assignments",
                Token::TokenIdentifier(_) => "Token assignments",
                _ => "Assignments",
            },
            ConstructView::MathOperation { .. } => "Math Operations",
            ConstructView::UnaryMinus { .. } => "Math Operations",
            ConstructView::Table { .. } => "Tables",
            ConstructView::AnnotatedTable { .. } => "Tables",
            ConstructView::Enum { .. } => "Enums",
            ConstructView::Node { .. } => "These",
            ConstructView::Absent { .. } => "These",
        }
    }
}

/// The end of a node, or a fallback where there is none.
fn node_end_or(node: &Option<Node>, fallback: usize) -> (r: usize)
    ensures
        r == end_or(node.deep_view(), fallback),
{
    match node {
        Some(node) => node.token.end(),
        None => fallback,
    }
}

impl<'a> Delimited<'a> {
    pub fn new(
        left: Node<'a>,
        content: Option<Vec<Construct<'a>>>,
        right: Option<Node<'a>>,
    ) -> (r: Self)
        ensures
            r == (Delimited { left, content, right }),
            delimited_view(r) == (DelimitedView {
                left: left.deep_view(),
                content: match content {
                    Some(content) => Some(constructs_view(content@)),
                    None => None,
                },
                right: right.deep_view(),
            }),
    {
        Delimited { left, content, right }
    }

    pub fn start(&self) -> (r: usize)
        ensures
            r == self.deep_view().start(),
    {
        self.left.token.start()
    }

    pub fn end(&self) -> (r: usize)
        ensures
            r == self.deep_view().end(),
        decreases self,
    {
        match &self.right {
            Some(right) => right.token.end(),
            None => match &self.content {
                Some(content) => {
                    let n: usize = content.len();
                    if n > 0 {
                        assert(constructs_view(content@)[n - 1] == construct_view(content@[n - 1]));
                        content[n - 1].end()
                    } else {
                        self.left.token.end()
                    }
                },
                None => self.left.token.end(),
            },
        }
    }

    pub fn span(&self) -> (r: (usize, usize))
        ensures
            r == (self.deep_view().start(), self.deep_view().end()),
    {
        (self.start(), self.end())
    }
}

impl<'a> Construct<'a> {
    pub fn rule(selectors: Option<Vec<Node<'a>>>, body: Delimited<'a>) -> (r: Self)
        ensures
            r == (Construct::Rule { selectors, body: Some(body) }),
            construct_view(r) == (ConstructView::Rule {
                selectors: selectors.deep_view(),
                body: Some(delimited_view(body)),
            }),
    {
        proof {
            assert(optional_delimited_view(Some(body)) == Some(delimited_view(body)));
        }
        Construct::Rule { selectors, body: Some(body) }
    }

    pub fn name_plural(&self) -> (r: &'static str)
        ensures
            r == self.deep_view().name_plural(),
    {
        match self {
            Construct::Macro { .. } => "Macros",
            Construct::MacroCall { .. } => "Macro calls",
            Construct::Derive { .. } => "Derives",
            Construct::Priority { .. } => "Priorities",
            Construct::Name { .. } => "Names",
            Construct::Tween { .. } => "Tweens",
            Construct::Rule { .. } => "Rules",
            Construct::Assignment { left, .. } => match left.token.value() {
                Token::Identifier(_) => "Property assignments",
                Token::StaticTokenIdentifier(_) => "Static token assignments",
                Token::TokenIdentifier(_) => "Token assignments",
                _ => "Assignments",
            },
            Construct::MathOperation { .. } | Construct::UnaryMinus { .. } => "Math Operations",
            Construct::Table { .. } | Construct::AnnotatedTable { .. } => "Tables",
            Construct::Enum { .. } => "Enums",
            Construct::Node { .. } | Construct::Absent { .. } => "These",
        }
    }

    pub fn start(&self) -> (r: usize)
        ensures
            r == self.deep_view().start(),
        decreases self,
    {
        match self {
            Construct::Macro { declaration, .. } => declaration.token.start(),
            Construct::MacroCall { name, .. } => name.token.start(),
            Construct::Derive { declaration, .. } => declaration.token.start(),
            Construct::Priority { declaration, .. } => declaration.token.start(),
            Construct::Name { declaration, .. } => declaration.token.start(),
            Construct::Tween { declaration, .. } => declaration.token.start(),
            Construct::Rule { selectors, body } => {
                proof {
                    reveal_with_fuel(construct_view, 3);
                }
                match selectors {
                    Some(selectors) => if selectors.len() > 0 {
                        return selectors[0].token.start();
                    },
                    None => (),
                }
                match body {
                    Some(body) => body.start(),
                    None => 0,
                }
            },
            Construct::Assignment { left, .. } => left.token.start(),
            Construct::MathOperation { left, .. } => left.start(),
            Construct::UnaryMinus { operator, .. } => operator.token.start(),
            Construct::AnnotatedTable { annotation, .. } => annotation.token.start(),
            Construct::Table { body } => body.start(),
            Construct::Enum { keyword, .. } => keyword.token.start(),
            Construct::Node { node } => node.token.start(),
            Construct::Absent { node } => node.token.start(),
        }
    }

    pub fn span(&self) -> (r: (usize, usize))
        ensures
            r == self.deep_view().span(),
    {
        (self.start(), self.end())
    }

    #[verifier::rlimit(50)]
    pub fn end(&self) -> (r: usize)
        ensures
            r == self.deep_view().end(),
        decreases self,
    {
        proof {
            reveal_with_fuel(construct_view, 3);
        }
        match self {
            Construct::Macro { declaration, name, args, return_type, body } => match body {
                Some(body) => body.end(),
                None => match return_type {
                    Some((arrow, ident)) => node_end_or(ident, arrow.token.end()),
                    None => match args {
                        Some(args) => args.end(),
                        None => node_end_or(name, declaration.token.end()),
                    },
                },
            },
            Construct::MacroCall { name, body, terminator } => match terminator {
                Some(terminator) => terminator.token.end(),
                None => match body {
                    Some(body) => body.end(),
                    None => name.token.end(),
                },
            },
            Construct::Derive { declaration, body, terminator }
            | Construct::Priority { declaration, body, terminator }
            | Construct::Name { declaration, body, terminator } => match terminator {
                Some(terminator) => terminator.token.end(),
                None => match body {
                    Some(body) => body.end(),
                    None => declaration.token.end(),
                },
            },
            Construct::Tween { declaration, name, body, terminator } => match terminator {
                Some(terminator) => terminator.token.end(),
                None => match body {
                    Some(body) => body.end(),
                    None => node_end_or(name, declaration.token.end()),
                },
            },
            Construct::Rule { body, .. } => match body {
                Some(body) => body.end(),
                None => 0,
            },
            Construct::Assignment { left, middle, right, terminator } => match terminator {
                Some(terminator) => terminator.token.end(),
                None => match right {
                    Some(right) => right.end(),
                    None => node_end_or(middle, left.token.end()),
                },
            },
            Construct::MathOperation { left, operators, right } => match right {
                Some(right) => right.end(),
                None => {
                    let n: usize = operators.len();
                    if n > 0 {
                        operators[n - 1].token.end()
                    } else {
                        left.end()
                    }
                },
            },
            Construct::UnaryMinus { operand, .. } => operand.end(),
            Construct::AnnotatedTable { annotation, body } => match body {
                Some(body) => body.end(),
                None => annotation.token.end(),
            },
            Construct::Table { body } => body.end(),
            Construct::Enum { keyword, name, variant } => match variant {
                Some(variant) => variant.token.end(),
                None => node_end_or(name, keyword.token.end()),
            },
            Construct::Node { node } | Construct::Absent { node } => node.token.end(),
        }
    }
}

} // verus!
