//! Which classes a selector selects.

use super::definitions;
use super::definitions::{clone_names, DefinitionKind, DefinitionView, Definitions};
use super::type_error;
use super::type_error::{PushTypeError, TypeError};
use crate::diagnostic::{AstErrors, DiagnosticView};
use crate::parser::construct;
use crate::parser::construct::{Node, NodeView};
use crate::parser::token::{SpannedToken, Token};
use crate::reflection::{Reflection, ReflectionView};
use crate::strings;
use crate::strings::{is_one_of, join3};
use crate::text;
use crate::text::Range;
use indexmap::IndexSet;
use ropey::Rope;
use vstd::prelude::*;

verus! {

/// The classes that a pseudo selector may name.
pub open spec fn pseudo_classes() -> Seq<&'static str> {
    seq![
        "UICorner",
        "UIGradient",
        "UIPadding",
        "UIStroke",
        "UIListLayout",
        "UIGridStyleLayout",
        "UIGridLayout",
        "UIPageLayout",
        "UIAspectRatioConstraint",
        "UISizeConstraint",
        "UITextSizeConstraint",
        "UIScale",
        "UIFlexItem",
        "StyleQuery",
    ]
}

/// The states that a state selector may name.
pub open spec fn state_names() -> Seq<&'static str> {
    seq!["idle", "hover", "press", "pressed", "noninteractable"]
}

fn is_pseudo_class(name: &str) -> (r: bool)
    ensures
        r == strings::holds(pseudo_classes(), name@),
{
    let all = vec![
        "UICorner",
        "UIGradient",
        "UIPadding",
        "UIStroke",
        "UIListLayout",
        "UIGridStyleLayout",
        "UIGridLayout",
        "UIPageLayout",
        "UIAspectRatioConstraint",
        "UISizeConstraint",
        "UITextSizeConstraint",
        "UIScale",
        "UIFlexItem",
        "StyleQuery",
    ];
    assert(all@ =~= pseudo_classes());
    is_one_of(name, all.as_slice())
}

fn is_state(name: &str) -> (r: bool)
    ensures
        r == strings::holds(state_names(), name@),
{
    let all = vec!["idle", "hover", "press", "pressed", "noninteractable"];
    assert(all@ =~= state_names());
    is_one_of(name, all.as_slice())
}

/// `indexmap::IndexSet`, a set that keeps the order of its items.
#[verifier::external_type_specification]
#[verifier::external_body]
#[verifier::reject_recursive_types(T)]
#[verifier::reject_recursive_types(S)]
pub struct ExIndexSet<T, S>(IndexSet<T, S>);

/// The strings that an index set holds, in order.
pub uninterp spec fn index_set_items(set: &IndexSet<String>) -> Seq<Seq<char>>;

/// Calls `IndexSet::new`, which makes an empty set.
#[verifier::external_body]
fn index_set_new() -> (r: IndexSet<String>)
    ensures
        index_set_items(&r).len() == 0,
{
    IndexSet::new()
}

/// Calls `IndexSet::insert`, which adds an item at the end where the set does not hold it,
/// and changes nothing otherwise.
#[verifier::external_body]
fn index_set_insert(set: &mut IndexSet<String>, item: String)
    ensures
        index_set_items(final(set)) == with_name(index_set_items(old(set)), item@),
{
    set.insert(item);
}

/// Calls `IndexSet::pop`, which takes out the last item.
#[verifier::external_body]
fn index_set_pop(set: &mut IndexSet<String>)
    ensures
        index_set_items(final(set)) == without_last(index_set_items(old(set))),
{
    set.pop();
}

/// Calls `IndexSet::iter` and copies the items out in order.
#[verifier::external_body]
fn index_set_to_vec(set: &IndexSet<String>) -> (r: Vec<String>)
    ensures
        definitions::names_view(r@) == index_set_items(set),
{
    set.iter().cloned().collect()
}

/// The names with one more, unless it is among them.
pub open spec fn with_name(names: Seq<Seq<char>>, name: Seq<char>) -> Seq<Seq<char>> {
    if names.contains(name) {
        names
    } else {
        names.push(name)
    }
}

pub open spec fn without_last(names: Seq<Seq<char>>) -> Seq<Seq<char>> {
    if names.len() == 0 {
        names
    } else {
        names.drop_last()
    }
}

/// The names with several more.
pub open spec fn with_names(names: Seq<Seq<char>>, more: Seq<Seq<char>>) -> Seq<Seq<char>>
    decreases more.len(),
{
    if more.len() == 0 {
        names
    } else {
        with_name(with_names(names, more.drop_last()), more.last())
    }
}

/// Where the check of a selector stands.
pub struct SelectorState<'a> {
    pub nodes: Seq<NodeView<'a>>,
    /// The number of parts that were read.
    pub position: nat,
    /// The classes that the enclosing rule selects.
    pub parent: Seq<Seq<char>>,
    /// The classes so far.
    pub classes: Seq<Seq<char>>,
    pub errors: Seq<DiagnosticView>,
    pub text: Seq<char>,
    pub db: ReflectionView,
}

/// The outcome of a search for a pseudo or state selector.
pub enum ConsumeView<'a> {
    Found(NodeView<'a>),
    Absent,
    Delimiter(NodeView<'a>),
}

/// The name of the kind of a selector part.
pub open spec fn selector_name(token: Token) -> &'static str {
    match token {
        Token::Identifier(_) => "Class",
        Token::TagSelectorOrEnumPart(_) => "Tag",
        Token::StateSelectorOrEnumPart(_) => "State",
        Token::NameSelector(_) => "Name",
        Token::ChildrenSelector => "Children",
        Token::DescendantsSelector => "Descendants",
        _ => "Unknown",
    }
}

/// The error about a part that cannot follow a class.
pub open spec fn misplaced_part(token: Token) -> Seq<char> {
    if token is Identifier {
        "Class"@ + " Selectors can't be defined after another "@ + "Class"@
            + " Selector without a children (>) or descendants selector."@
    } else {
        "Class"@ + " Selectors can't be defined after a "@ + selector_name(token)@
            + " Selector without a children (>) or descendants selector."@
    }
}

impl<'a> SelectorState<'a> {
    pub open spec fn remaining(self) -> nat {
        if self.position < self.nodes.len() {
            (self.nodes.len() - self.position) as nat
        } else {
            0
        }
    }

    pub open spec fn fail(self, message: Seq<char>, token: SpannedToken<'a>) -> Self {
        SelectorState {
            errors: self.errors.push(
                type_error::type_diagnostic(
                    "TYPE_ERROR(INVALID_SELECTOR)"@,
                    "Type Error (Invalid Selector): "@ + message,
                    text::range_of(self.text, (token.0 as int, token.2 as int)),
                ),
            ),
            ..self
        }
    }

    pub open spec fn selects(self, class: Seq<char>) -> Self {
        SelectorState { classes: with_name(self.classes, class), ..self }
    }

    pub open spec fn next(self) -> (Self, Option<NodeView<'a>>) {
        if self.position < self.nodes.len() {
            (
                SelectorState { position: self.position + 1, ..self },
                Some(self.nodes[self.position as int]),
            )
        } else {
            (self, None)
        }
    }

    /// The class, or `Instance` where there is none of that name.
    pub open spec fn validate_class(self, class: Seq<char>, token: SpannedToken<'a>) -> (
        Self,
        Seq<char>,
    ) {
        if self.db.has_class(class) {
            (self, class)
        } else {
            (self.fail("No class named \""@ + class + "\" exists."@, token), "Instance"@)
        }
    }

    /// The class of a pseudo selector.
    pub open spec fn validate_pseudo_class(self, class: Seq<char>, token: SpannedToken<'a>) -> (
        Self,
        Seq<char>,
    ) {
        let (s, validated) = self.validate_class(class, token);
        if validated != "Instance"@ && !strings::holds(pseudo_classes(), class) {
            (
                s.fail("Class \""@ + class + "\" can't be used as a Pseudo instance."@, token),
                validated,
            )
        } else {
            (s, validated)
        }
    }

    pub open spec fn validate_state(self, name: Seq<char>, token: SpannedToken<'a>) -> Self {
        if strings::holds(state_names(), name) {
            self
        } else {
            self.fail("No state named \""@ + name + "\" exists."@, token)
        }
    }

    /// Reads on behind a class up to a pseudo or state selector, a comma or a combinator.
    pub open spec fn consume(self) -> (Self, ConsumeView<'a>)
        decreases self.remaining(),
    {
        match self.next() {
            (s, Some(part)) => {
                let token = part.token.1;
                if token is PseudoSelector || token is StateSelectorOrEnumPart {
                    (s, ConsumeView::Found(part))
                } else if token is Comma || token is ChildrenSelector
                    || token is DescendantsSelector {
                    (s, ConsumeView::Delimiter(part))
                } else if token is TagSelectorOrEnumPart || token is NameSelector {
                    s.consume()
                } else {
                    s.fail(misplaced_part(token), part.token).consume()
                }
            },
            (s, None) => (s, ConsumeView::Absent),
        }
    }

    /// Checks a selector from `part` on.
    pub open spec fn begin_iteration(self, part: NodeView<'a>) -> Self
        decreases self.remaining(), 2nat,
    {
        if self.parent.len() == 0 {
            self.from_new(part)
        } else {
            self.from_parent(part, false)
        }
    }

    /// Goes on behind the next comma, where it follows at once.
    pub open spec fn consume_past_comma(self) -> Self
        decreases self.remaining(), 0nat,
    {
        match self.next() {
            (s, Some(part)) => if part.token.1 is Comma {
                match s.next() {
                    (s, Some(next)) => s.begin_iteration(next),
                    (s, None) => s,
                }
            } else {
                s
            },
            (s, None) => s,
        }
    }

    /// Checks a selector that is not nested in another.
    pub open spec fn from_new(self, part: NodeView<'a>) -> Self
        decreases self.remaining(), 1nat,
    {
        match part.token.1 {
            Token::TagSelectorOrEnumPart(_) => self.selects("Instance"@).consume_past_comma(),
            Token::NameSelector(_) => self.selects("Instance"@).consume_past_comma(),
            Token::Identifier(class) => {
                let (s, validated) = self.validate_class(class@, part.token);
                proof {
                    lemma_consume(s);
                }
                match s.consume() {
                    (s, ConsumeView::Found(part)) => match part.token.1 {
                        Token::PseudoSelector(class) => {
                            let (s, validated) = s.validate_pseudo_class(class@, part.token);
                            s.selects(validated)
                        },
                        Token::StateSelectorOrEnumPart(Some(state)) => s.selects(
                            validated,
                        ).validate_state(state@, part.token),
                        _ => s,
                    },
                    (s, ConsumeView::Delimiter(delimiter)) => {
                        let s = if delimiter.token.1 is Comma {
                            s.selects(validated)
                        } else {
                            s
                        };
                        match s.next() {
                            (s, Some(part)) => s.begin_iteration(part),
                            (s, None) => s,
                        }
                    },
                    (s, ConsumeView::Absent) => s.selects(validated),
                }
            },
            _ => self,
        }
    }

    /// Checks a selector that is nested in another.
    pub open spec fn from_parent(self, part: NodeView<'a>, after_combinator: bool) -> Self
        decreases self.remaining(), 1nat,
    {
        match part.token.1 {
            Token::Identifier(class) => {
                let s = if after_combinator {
                    self
                } else {
                    self.fail(
                        "Class Selectors can't be nested inside another selector without a children (>) or descendants selector."@,
                        part.token,
                    )
                };
                let (s, validated) = s.validate_class(class@, part.token);
                let s = s.selects(validated);
                proof {
                    lemma_consume(s);
                }
                match s.consume() {
                    (s, ConsumeView::Found(part)) => match part.token.1 {
                        Token::PseudoSelector(class) => {
                            let s = SelectorState { classes: without_last(s.classes), ..s };
                            let (s, validated) = s.validate_pseudo_class(class@, part.token);
                            s.selects(validated)
                        },
                        Token::StateSelectorOrEnumPart(Some(state)) => s.validate_state(
                            state@,
                            part.token,
                        ),
                        _ => s,
                    },
                    (s, ConsumeView::Delimiter(_)) => match s.next() {
                        (s, Some(part)) => s.begin_iteration(part),
                        (s, None) => s,
                    },
                    (s, ConsumeView::Absent) => s,
                }
            },
            Token::PseudoSelector(class) => {
                let (s, validated) = self.validate_pseudo_class(class@, part.token);
                s.selects(validated)
            },
            Token::StateSelectorOrEnumPart(Some(state)) => (SelectorState {
                classes: with_names(self.classes, self.parent),
                ..self
            }).validate_state(state@, part.token),
            Token::TagSelectorOrEnumPart(_) => self.selects("Instance"@).consume_past_comma(),
            Token::NameSelector(_) => self.selects("Instance"@).consume_past_comma(),
            Token::ChildrenSelector => match self.next() {
                (s, Some(next)) => s.from_parent(next, true),
                (s, None) => s,
            },
            Token::DescendantsSelector => match self.next() {
                (s, Some(next)) => s.from_parent(next, true),
                (s, None) => s,
            },
            _ => self,
        }
    }
}

/// A search that finds something leaves fewer parts.
pub proof fn lemma_consume(s: SelectorState)
    ensures
        s.consume().0.remaining() <= s.remaining(),
        !(s.consume().1 is Absent) ==> s.consume().0.remaining() < s.remaining(),
    decreases s.remaining(),
{
    match s.next() {
        (s1, Some(part)) => {
            let token = part.token.1;
            if token is PseudoSelector || token is StateSelectorOrEnumPart || token is Comma
                || token is ChildrenSelector || token is DescendantsSelector {
            } else if token is TagSelectorOrEnumPart || token is NameSelector {
                lemma_consume(s1);
            } else {
                lemma_consume(s1.fail(misplaced_part(token), part.token));
            }
        },
        (_, None) => {},
    }
}

/// What the checks of a document have found so far.
pub struct CheckState {
    pub errors: Seq<DiagnosticView>,
    pub definitions: Map<usize, DefinitionView>,
}

/// Checks a whole selector: the classes that it selects, and what was found.
pub open spec fn checked_selectors(
    nodes: Seq<NodeView>,
    parent: Seq<Seq<char>>,
    text: Seq<char>,
    db: ReflectionView,
    before: CheckState,
) -> (Seq<Seq<char>>, CheckState) {
    if nodes.len() == 0 {
        (Seq::empty(), before)
    } else {
        let s = (SelectorState {
            nodes,
            position: 1,
            parent,
            classes: Seq::empty(),
            errors: before.errors,
            text,
            db,
        }).begin_iteration(nodes[0]);
        (
            s.classes,
            CheckState {
                errors: s.errors,
                definitions: definitions::defined(
                    before.definitions,
                    nodes[0].token.0,
                    nodes[s.position - 1].token.2,
                    definitions::selector_view(s.classes),
                ),
            },
        )
    }
}

/// The check of one selector.
struct TypecheckSelectors<'a, 'b> {
    nodes: &'b Vec<Node<'a>>,
    position: usize,
    parent_classes: &'b Vec<String>,
    classes: IndexSet<String>,
    rope: &'b Rope,
    db: &'b Reflection,
    ast_errors: AstErrors,
}

enum ConsumeResult {
    Found(usize),
    Absent,
    Delimiter(usize),
}

impl<'a, 'b> TypecheckSelectors<'a, 'b> {
    spec fn state(&self) -> SelectorState<'a> {
        SelectorState {
            nodes: self.nodes.deep_view(),
            position: self.position as nat,
            parent: definitions::names_view(self.parent_classes@),
            classes: index_set_items(&self.classes),
            errors: self.ast_errors.0.deep_view(),
            text: text::rope_text(self.rope),
            db: self.db.deep_view(),
        }
    }

    fn error(&mut self, message: &str, token: &SpannedToken<'a>)
        ensures
            final(self).state() == old(self).state().fail(message@, *token),
            final(self).nodes == old(self).nodes,
    {
        let range = Range::from_span(self.rope, token.span());
        self.ast_errors.push_type_error(TypeError::InvalidSelector { msg: Some(message) }, range);
    }

    fn select(&mut self, class: &str)
        ensures
            final(self).state() == old(self).state().selects(class@),
            final(self).nodes == old(self).nodes,
    {
        index_set_insert(&mut self.classes, class.to_owned());
    }

    /// The index of the next part.
    fn next(&mut self) -> (r: Option<usize>)
        ensures
            final(self).state() == old(self).state().next().0,
            match r {
                Some(i) => i < final(self).nodes@.len() && old(self).state().next().1 == Some(
                    final(self).nodes@[i as int].deep_view(),
                ),
                None => old(self).state().next().1 is None,
            },
            final(self).nodes == old(self).nodes,
    {
        if self.position < self.nodes.len() {
            let i: usize = self.position;
            self.position += 1;
            Some(i)
        } else {
            None
        }
    }

    fn validate_class(&mut self, class: &'a str, token: &SpannedToken<'a>) -> (r: &'a str)
        ensures
            (final(self).state(), r@) == old(self).state().validate_class(class@, *token),
            final(self).nodes == old(self).nodes,
    {
        if self.db.has_class(class) {
            return class;
        }
        let message = join3("No class named \"", class, "\" exists.");
        self.error(message.as_str(), token);
        "Instance"
    }

    fn validate_pseudo_class(&mut self, class: &'a str, token: &SpannedToken<'a>) -> (r: &'a str)
        ensures
            (final(self).state(), r@) == old(self).state().validate_pseudo_class(class@, *token),
            final(self).nodes == old(self).nodes,
    {
        let validated = self.validate_class(class, token);
        if !strings::str_eq(validated, "Instance") && !is_pseudo_class(class) {
            let message = join3("Class \"", class, "\" can't be used as a Pseudo instance.");
            self.error(message.as_str(), token);
        }
        validated
    }

    fn validate_state(&mut self, name: &str, token: &SpannedToken<'a>) -> (r: bool)
        ensures
            final(self).state() == old(self).state().validate_state(name@, *token),
            r == strings::holds(state_names(), name@),
            final(self).nodes == old(self).nodes,
    {
        if is_state(name) {
            return true;
        }
        let message = join3("No state named \"", name, "\" exists.");
        self.error(message.as_str(), token);
        false
    }

    fn selector_name(token: &Token) -> (r: &'static str)
        ensures
            r == selector_name(*token),
    {
        match token {
            Token::Identifier(_) => "Class",
            Token::TagSelectorOrEnumPart(_) => "Tag",
            Token::StateSelectorOrEnumPart(_) => "State",
            Token::NameSelector(_) => "Name",
            Token::ChildrenSelector => "Children",
            Token::DescendantsSelector => "Descendants",
            _ => "Unknown",
        }
    }

    fn misplaced_part(token: &Token) -> (r: String)
        ensures
            r@ == misplaced_part(*token),
    {
        let mut out = if matches!(token, Token::Identifier(_)) {
            join3("Class", " Selectors can't be defined after another ", "Class")
        } else {
            join3("Class", " Selectors can't be defined after a ", Self::selector_name(token))
        };
        out.append(" Selector without a children (>) or descendants selector.");
        out
    }

    fn consume(&mut self) -> (r: ConsumeResult)
        ensures
            final(self).state() == old(self).state().consume().0,
            final(self).nodes == old(self).nodes,
            match r {
                ConsumeResult::Found(i) => i < final(self).nodes@.len()
                    && old(self).state().consume().1 == ConsumeView::Found(
                    final(self).nodes@[i as int].deep_view(),
                ),
                ConsumeResult::Delimiter(i) => i < final(self).nodes@.len()
                    && old(self).state().consume().1 == ConsumeView::Delimiter(
                    final(self).nodes@[i as int].deep_view(),
                ),
                ConsumeResult::Absent => old(self).state().consume().1 is Absent,
            },
    {
        loop
            invariant
                old(self).state().consume() == self.state().consume(),
                self.nodes == old(self).nodes,
            decreases self.state().remaining(),
        {
            let i: usize = match self.next() {
                Some(i) => i,
                None => return ConsumeResult::Absent,
            };
            let spanned = self.nodes[i].token;
            let token = spanned.value();
            if matches!(token, Token::PseudoSelector(_) | Token::StateSelectorOrEnumPart(_)) {
                return ConsumeResult::Found(i);
            } else if matches!(
                token,
                Token::Comma | Token::ChildrenSelector | Token::DescendantsSelector
            ) {
                return ConsumeResult::Delimiter(i);
            } else if !matches!(token, Token::TagSelectorOrEnumPart(_) | Token::NameSelector(_)) {
                let message = Self::misplaced_part(&token);
                self.error(message.as_str(), &spanned);
            }
        }
    }

    fn begin_iteration(&mut self, part: usize)
        requires
            part < old(self).nodes@.len(),
        ensures
            final(self).state() == old(self).state().begin_iteration(
                old(self).nodes@[part as int].deep_view(),
            ),
            final(self).nodes == old(self).nodes,
        decreases old(self).state().remaining(), 2nat,
    {
        if self.parent_classes.len() == 0 {
            self.from_new(part);
        } else {
            self.from_parent(part, false);
        }
    }

    fn consume_past_comma(&mut self)
        ensures
            final(self).state() == old(self).state().consume_past_comma(),
            final(self).nodes == old(self).nodes,
        decreases old(self).state().remaining(), 0nat,
    {
        if let Some(i) = self.next() {
            if matches!(self.nodes[i].token.value(), Token::Comma) {
                if let Some(next) = self.next() {
                    self.begin_iteration(next);
                }
            }
        }
    }

    fn from_new(&mut self, part: usize)
        requires
            part < old(self).nodes@.len(),
        ensures
            final(self).state() == old(self).state().from_new(
                old(self).nodes@[part as int].deep_view(),
            ),
            final(self).nodes == old(self).nodes,
        decreases old(self).state().remaining(), 1nat,
    {
        let token = self.nodes[part].token;
        match token.value() {
            Token::TagSelectorOrEnumPart(_) | Token::NameSelector(_) => {
                self.select("Instance");
                self.consume_past_comma();
            },
            Token::Identifier(class) => {
                let validated_class = self.validate_class(class, &token);
                proof {
                    lemma_consume(self.state());
                }
                match self.consume() {
                    ConsumeResult::Found(part) => {
                        let token = self.nodes[part].token;
                        match token.value() {
                            Token::PseudoSelector(class) => {
                                let validated_class = self.validate_pseudo_class(class, &token);
                                self.select(validated_class);
                            },
                            Token::StateSelectorOrEnumPart(Some(state)) => {
                                self.select(validated_class);
                                let _ = self.validate_state(state, &token);
                            },
                            _ => (),
                        }
                    },
                    ConsumeResult::Delimiter(delimiter) => {
                        if matches!(self.nodes[delimiter].token.value(), Token::Comma) {
                            self.select(validated_class);
                        }
                        if let Some(part) = self.next() {
                            self.begin_iteration(part);
                        }
                    },
                    ConsumeResult::Absent => {
                        self.select(validated_class);
                    },
                }
            },
            _ => (),
        }
    }

    fn from_parent(&mut self, part: usize, after_combinator: bool)
        requires
            part < old(self).nodes@.len(),
        ensures
            final(self).state() == old(self).state().from_parent(
                old(self).nodes@[part as int].deep_view(),
                after_combinator,
            ),
            final(self).nodes == old(self).nodes,
        decreases old(self).state().remaining(), 1nat,
    {
        let token = self.nodes[part].token;
        match token.value() {
            Token::Identifier(class) => {
                if !after_combinator {
                    self.error(
                        "Class Selectors can't be nested inside another selector without a children (>) or descendants selector.",
                        &token,
                    );
                }
                let validated_class = self.validate_class(class, &token);
                self.select(validated_class);
                proof {
                    lemma_consume(self.state());
                }
                match self.consume() {
                    ConsumeResult::Found(part) => {
                        let token = self.nodes[part].token;
                        match token.value() {
                            Token::PseudoSelector(class) => {
                                index_set_pop(&mut self.classes);
                                let validated_class = self.validate_pseudo_class(class, &token);
                                self.select(validated_class);
                            },
                            Token::StateSelectorOrEnumPart(Some(state)) => {
                                let _ = self.validate_state(state, &token);
                            },
                            _ => (),
                        }
                    },
                    ConsumeResult::Delimiter(_) => {
                        if let Some(part) = self.next() {
                            self.begin_iteration(part);
                        }
                    },
                    ConsumeResult::Absent => (),
                }
            },
            Token::PseudoSelector(class) => {
                let validated_class = self.validate_pseudo_class(class, &token);
                self.select(validated_class);
            },
            Token::StateSelectorOrEnumPart(Some(state)) => {
                self.select_parents();
                let _ = self.validate_state(state, &token);
            },
            Token::TagSelectorOrEnumPart(_) | Token::NameSelector(_) => {
                self.select("Instance");
                self.consume_past_comma();
            },
            Token::ChildrenSelector | Token::DescendantsSelector => {
                if let Some(next) = self.next() {
                    self.from_parent(next, true);
                }
            },
            _ => (),
        }
    }

    /// Selects what the enclosing rule selects.
    fn select_parents(&mut self)
        ensures
            final(self).state() == (SelectorState {
                classes: with_names(old(self).state().classes, old(self).state().parent),
                ..old(self).state()
            }),
            final(self).nodes == old(self).nodes,
    {
        let ghost parent = self.state().parent;
        let mut i: usize = 0;
        while i < self.parent_classes.len()
            invariant
                i <= self.parent_classes@.len(),
                parent == old(self).state().parent,
                parent == definitions::names_view(self.parent_classes@),
                self.state() == (SelectorState {
                    classes: with_names(old(self).state().classes, parent.take(i as int)),
                    ..old(self).state()
                }),
                self.nodes == old(self).nodes,
            decreases self.parent_classes@.len() - i,
        {
            let class = self.parent_classes[i].clone();
            index_set_insert(&mut self.classes, class);
            assert(parent.take(i + 1).drop_last() =~= parent.take(i as int));
            assert(parent.take(i + 1).last() == class@);
            i += 1;
        }
        assert(parent.take(i as int) =~= parent);
    }
}

impl<'a> SelectorState<'a> {
    /// No class is selected twice, and each is a known class, `Instance` or one that the
    /// enclosing rule selects.
    pub open spec fn sound(self) -> bool {
        &&& self.classes.no_duplicates()
        &&& forall|i: int| 0 <= i < self.classes.len() ==> self.allows(#[trigger] self.classes[i])
    }

    pub open spec fn allows(self, class: Seq<char>) -> bool {
        self.db.has_class(class) || class == "Instance"@ || self.parent.contains(class)
    }

    /// Whether `later` can come out of a check that goes on from here.
    pub open spec fn leads_to(self, later: SelectorState<'a>) -> bool {
        &&& later.nodes == self.nodes
        &&& later.parent == self.parent
        &&& later.db == self.db
        &&& later.sound()
        &&& self.position <= later.position <= self.nodes.len()
    }
}

proof fn lemma_selects_sound(s: SelectorState, class: Seq<char>)
    requires
        s.sound(),
        s.allows(class),
    ensures
        s.selects(class).sound(),
{
}

proof fn lemma_parents_sound<'a>(s: SelectorState<'a>, more: Seq<Seq<char>>)
    requires
        s.sound(),
        forall|i: int| 0 <= i < more.len() ==> s.allows(#[trigger] more[i]),
    ensures
        (SelectorState { classes: with_names(s.classes, more), ..s }).sound(),
    decreases more.len(),
{
    if more.len() > 0 {
        lemma_parents_sound(s, more.drop_last());
        let s1 = SelectorState { classes: with_names(s.classes, more.drop_last()), ..s };
        assert(s.allows(more[more.len() - 1]));
        lemma_selects_sound(s1, more.last());
    }
}

proof fn lemma_consume_leads<'a>(s: SelectorState<'a>)
    requires
        s.sound(),
        s.position <= s.nodes.len(),
    ensures
        s.leads_to(s.consume().0),
        s.consume().0.classes == s.classes,
        s.consume().0.remaining() <= s.remaining(),
        !(s.consume().1 is Absent) ==> s.consume().0.remaining() < s.remaining(),
    decreases s.remaining(),
{
    match s.next() {
        (s1, Some(part)) => {
            let token = part.token.1;
            if token is PseudoSelector || token is StateSelectorOrEnumPart || token is Comma
                || token is ChildrenSelector || token is DescendantsSelector {
            } else if token is TagSelectorOrEnumPart || token is NameSelector {
                lemma_consume_leads(s1);
            } else {
                lemma_consume_leads(s1.fail(misplaced_part(token), part.token));
            }
        },
        (_, None) => {},
    }
}

pub(super) proof fn lemma_begin_leads<'a>(s: SelectorState<'a>, part: NodeView<'a>)
    requires
        s.sound(),
        s.position <= s.nodes.len(),
    ensures
        s.leads_to(s.begin_iteration(part)),
    decreases s.remaining(), 3nat,
{
    if s.parent.len() == 0 {
        lemma_new_leads(s, part);
    } else {
        lemma_parent_leads(s, part, false);
    }
}

proof fn lemma_comma_leads<'a>(s: SelectorState<'a>)
    requires
        s.sound(),
        s.position <= s.nodes.len(),
    ensures
        s.leads_to(s.consume_past_comma()),
    decreases s.remaining(), 0nat,
{
    match s.next() {
        (s1, Some(_)) => match s1.next() {
            (s2, Some(next)) => {
                lemma_begin_leads(s2, next);
            },
            _ => {},
        },
        _ => {},
    }
}

proof fn lemma_new_leads<'a>(s: SelectorState<'a>, part: NodeView<'a>)
    requires
        s.sound(),
        s.position <= s.nodes.len(),
    ensures
        s.leads_to(s.from_new(part)),
    decreases s.remaining(), 2nat,
{
    match part.token.1 {
        Token::TagSelectorOrEnumPart(_) | Token::NameSelector(_) => {
            lemma_selects_sound(s, "Instance"@);
            lemma_comma_leads(s.selects("Instance"@));
        },
        Token::Identifier(class) => {
            let (s1, validated) = s.validate_class(class@, part.token);
            lemma_consume_leads(s1);
            match s1.consume() {
                (s2, ConsumeView::Found(found)) => {
                    lemma_selects_sound(s2, validated);
                    if let Token::PseudoSelector(class) = found.token.1 {
                        let (s3, validated) = s2.validate_pseudo_class(class@, found.token);
                        lemma_selects_sound(s3, validated);
                    }
                },
                (s2, ConsumeView::Delimiter(delimiter)) => {
                    lemma_selects_sound(s2, validated);
                    let s3 = if delimiter.token.1 is Comma {
                        s2.selects(validated)
                    } else {
                        s2
                    };
                    match s3.next() {
                        (s4, Some(next)) => {
                            lemma_begin_leads(s4, next);
                        },
                        _ => {},
                    }
                },
                (s2, ConsumeView::Absent) => {
                    lemma_selects_sound(s2, validated);
                },
            }
        },
        _ => {},
    }
}

proof fn lemma_parent_leads<'a>(s: SelectorState<'a>, part: NodeView<'a>, after_combinator: bool)
    requires
        s.sound(),
        s.position <= s.nodes.len(),
    ensures
        s.leads_to(s.from_parent(part, after_combinator)),
    decreases s.remaining(), 2nat,
{
    match part.token.1 {
        Token::Identifier(class) => {
            let s0 = if after_combinator {
                s
            } else {
                s.fail(
                    "Class Selectors can't be nested inside another selector without a children (>) or descendants selector."@,
                    part.token,
                )
            };
            let (s1, validated) = s0.validate_class(class@, part.token);
            lemma_selects_sound(s1, validated);
            let s1 = s1.selects(validated);
            lemma_consume_leads(s1);
            match s1.consume() {
                (s2, ConsumeView::Found(found)) => {
                    if let Token::PseudoSelector(class) = found.token.1 {
                        let s3 = SelectorState { classes: without_last(s2.classes), ..s2 };
                        assert(s3.sound());
                        let (s4, validated) = s3.validate_pseudo_class(class@, found.token);
                        lemma_selects_sound(s4, validated);
                    }
                },
                (s2, ConsumeView::Delimiter(_)) => match s2.next() {
                    (s4, Some(next)) => {
                        lemma_begin_leads(s4, next);
                    },
                    _ => {},
                },
                _ => {},
            }
        },
        Token::PseudoSelector(class) => {
            let (s1, validated) = s.validate_pseudo_class(class@, part.token);
            lemma_selects_sound(s1, validated);
        },
        Token::StateSelectorOrEnumPart(Some(_)) => {
            lemma_parents_sound(s, s.parent);
        },
        Token::TagSelectorOrEnumPart(_) | Token::NameSelector(_) => {
            lemma_selects_sound(s, "Instance"@);
            lemma_comma_leads(s.selects("Instance"@));
        },
        Token::ChildrenSelector | Token::DescendantsSelector => match s.next() {
            (s1, Some(next)) => {
                lemma_parent_leads(s1, next, true);
            },
            _ => {},
        },
        _ => {},
    }
}

/// A selector selects no class twice, and each class that it selects is a known one,
/// `Instance`, or one that the enclosing rule selects.
pub proof fn lemma_selected_classes_are_sound(
    nodes: Seq<NodeView>,
    parent: Seq<Seq<char>>,
    text: Seq<char>,
    db: ReflectionView,
    before: CheckState,
)
    ensures
        ({
            let classes = checked_selectors(nodes, parent, text, db, before).0;
            &&& classes.no_duplicates()
            &&& forall|i: int|
                0 <= i < classes.len() ==> db.has_class(#[trigger] classes[i]) || classes[i]
                    == "Instance"@ || parent.contains(classes[i])
        }),
{
    if nodes.len() > 0 {
        let s = SelectorState {
            nodes,
            position: 1,
            parent,
            classes: Seq::empty(),
            errors: before.errors,
            text,
            db,
        };
        lemma_begin_leads(s, nodes[0]);
        assert(s.begin_iteration(nodes[0]).sound());
    }
}

/// Checks a selector: finds the classes that it selects, reports its errors and defines its
/// bytes.
pub fn typecheck_selectors<'a>(
    selectors: &Vec<Node<'a>>,
    parent_classes: &Vec<String>,
    rope: &Rope,
    db: &Reflection,
    ast_errors: &mut AstErrors,
    document: &mut Definitions,
) -> (r: Vec<String>)
    ensures
        ({
            let (classes, after) = checked_selectors(
                selectors.deep_view(),
                definitions::names_view(parent_classes@),
                text::rope_text(rope),
                db.deep_view(),
                CheckState { errors: old(ast_errors).0.deep_view(), definitions: old(document)@ },
            );
            &&& definitions::names_view(r@) == classes
            &&& final(ast_errors).0.deep_view() == after.errors
            &&& final(document)@ == after.definitions
        }),
{
    if selectors.len() == 0 {
        let r: Vec<String> = Vec::new();
        assert(definitions::names_view(r@) =~= Seq::empty());
        return r;
    }
    let mut errors = AstErrors::new();
    std::mem::swap(&mut errors, ast_errors);
    let mut checker = TypecheckSelectors {
        nodes: selectors,
        position: 1,
        parent_classes,
        classes: index_set_new(),
        rope,
        db,
        ast_errors: errors,
    };
    let ghost start = checker.state();
    assert(start.classes =~= Seq::empty());
    proof {
        lemma_begin_leads(start, start.nodes[0]);
    }
    checker.begin_iteration(0);
    assert(checker.state() == start.begin_iteration(start.nodes[0]));
    let last: usize = checker.position;
    let classes = index_set_to_vec(&checker.classes);
    std::mem::swap(&mut checker.ast_errors, ast_errors);
    let copy = clone_names(&classes);
    document.insert(
        selectors[0].token.start(),
        selectors[last - 1].token.end(),
        DefinitionKind::selector(copy),
    );
    classes
}

} // verus!
