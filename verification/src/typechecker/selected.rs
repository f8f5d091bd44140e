//! What the shapes of selectors select.

use super::selectors;
use super::selectors::{CheckState, ConsumeView, SelectorState};
use super::type_error;
use crate::diagnostic::DiagnosticView;
use crate::parser::construct::NodeView;
use crate::parser::token::{SpannedToken, Token};
use crate::reflection::ReflectionView;
use crate::strings;
use crate::text;
use vstd::prelude::*;

verus! {

/// The classes that a selector selects.
pub open spec fn classes_of(
    nodes: Seq<NodeView>,
    parent: Seq<Seq<char>>,
    text: Seq<char>,
    db: ReflectionView,
    before: CheckState,
) -> Seq<Seq<char>> {
    selectors::checked_selectors(nodes, parent, text, db, before).0
}

/// The errors after a selector was checked.
pub open spec fn errors_of(
    nodes: Seq<NodeView>,
    parent: Seq<Seq<char>>,
    text: Seq<char>,
    db: ReflectionView,
    before: CheckState,
) -> Seq<DiagnosticView> {
    selectors::checked_selectors(nodes, parent, text, db, before).1.errors
}

/// Whether a part is a name or a tag.
pub open spec fn is_filter(node: NodeView) -> bool {
    node.token.1 is NameSelector || node.token.1 is TagSelectorOrEnumPart
}

/// Whether all parts are names and tags.
pub open spec fn are_filters(nodes: Seq<NodeView>) -> bool {
    forall|i: int| 0 <= i < nodes.len() ==> is_filter(#[trigger] nodes[i])
}

/// Whether a part leads from an instance to those in it.
pub open spec fn is_combinator(node: NodeView) -> bool {
    node.token.1 is ChildrenSelector || node.token.1 is DescendantsSelector
}

/// The class of that name; the one that all instances have where there is none.
pub open spec fn known_class(db: ReflectionView, class: Seq<char>) -> Seq<char> {
    if db.has_class(class) {
        class
    } else {
        "Instance"@
    }
}

/// The error about a class that does not exist, where there is none of that name.
pub open spec fn class_errors(
    db: ReflectionView,
    class: Seq<char>,
    token: SpannedToken,
    text: Seq<char>,
) -> Seq<DiagnosticView> {
    if db.has_class(class) {
        Seq::empty()
    } else {
        seq![selector_error("No class named \""@ + class + "\" exists."@, token, text)]
    }
}

/// Whether a class can be used as a pseudo instance.
pub open spec fn is_pseudo_instance(class: Seq<char>) -> bool {
    class == "UICorner"@ || class == "UIGradient"@ || class == "UIPadding"@ || class == "UIStroke"@
        || class == "UIListLayout"@ || class == "UIGridStyleLayout"@ || class == "UIGridLayout"@
        || class == "UIPageLayout"@ || class == "UIAspectRatioConstraint"@ || class
        == "UISizeConstraint"@ || class == "UITextSizeConstraint"@ || class == "UIScale"@ || class
        == "UIFlexItem"@ || class == "StyleQuery"@
}

/// Whether an instance can be in a state of that name.
pub open spec fn is_known_state(state: Seq<char>) -> bool {
    state == "idle"@ || state == "hover"@ || state == "press"@ || state == "pressed"@ || state
        == "noninteractable"@
}

/// The error about a pseudo selector: that the class does not exist, or that it can be no pseudo
/// instance.
pub open spec fn pseudo_errors(
    db: ReflectionView,
    class: Seq<char>,
    token: SpannedToken,
    text: Seq<char>,
) -> Seq<DiagnosticView> {
    if !db.has_class(class) {
        class_errors(db, class, token, text)
    } else if class == "Instance"@ || is_pseudo_instance(class) {
        Seq::empty()
    } else {
        seq![
            selector_error(
                "Class \""@ + class + "\" can't be used as a Pseudo instance."@,
                token,
                text,
            ),
        ]
    }
}

/// The error about a state that does not exist.
pub open spec fn state_errors(state: Seq<char>, token: SpannedToken, text: Seq<char>) -> Seq<
    DiagnosticView,
> {
    if is_known_state(state) {
        Seq::empty()
    } else {
        seq![selector_error("No state named \""@ + state + "\" exists."@, token, text)]
    }
}

proof fn lemma_pseudo_instances(class: Seq<char>)
    ensures
        strings::holds(selectors::pseudo_classes(), class) == is_pseudo_instance(class),
{
    let names = selectors::pseudo_classes();
    assert(names[0]@ == "UICorner"@ && names[1]@ == "UIGradient"@ && names[2]@ == "UIPadding"@
        && names[3]@ == "UIStroke"@ && names[4]@ == "UIListLayout"@ && names[5]@
        == "UIGridStyleLayout"@ && names[6]@ == "UIGridLayout"@);
    assert(names[7]@ == "UIPageLayout"@ && names[8]@ == "UIAspectRatioConstraint"@ && names[9]@
        == "UISizeConstraint"@ && names[10]@ == "UITextSizeConstraint"@ && names[11]@ == "UIScale"@
        && names[12]@ == "UIFlexItem"@ && names[13]@ == "StyleQuery"@);
    assert(names.len() == 14);
}

proof fn lemma_known_states(state: Seq<char>)
    ensures
        strings::holds(selectors::state_names(), state) == is_known_state(state),
{
    let names = selectors::state_names();
    assert(names[0]@ == "idle"@ && names[1]@ == "hover"@ && names[2]@ == "press"@ && names[3]@
        == "pressed"@ && names[4]@ == "noninteractable"@);
    assert(names.len() == 5);
}

/// An error about a part of a selector.
pub open spec fn selector_error(
    message: Seq<char>,
    token: SpannedToken,
    text: Seq<char>,
) -> DiagnosticView {
    type_error::type_diagnostic(
        "TYPE_ERROR(INVALID_SELECTOR)"@,
        "Type Error (Invalid Selector): "@ + message,
        text::range_of(text, (token.0 as int, token.2 as int)),
    )
}

/// Whether two checks see the same parts ahead of them, and one of them has selected some
/// classes and found some errors before the other started.
spec fn is_ahead<'a>(
    s: SelectorState<'a>,
    t: SelectorState<'a>,
    classes: Seq<Seq<char>>,
    errors: Seq<DiagnosticView>,
) -> bool {
    &&& s.position <= s.nodes.len() && t.position <= t.nodes.len()
    &&& s.nodes.skip(s.position as int) == t.nodes.skip(t.position as int)
    &&& s.parent.len() == 0 && t.parent.len() == 0
    &&& s.db == t.db && s.text == t.text
    &&& s.classes == selectors::with_names(classes, t.classes)
    &&& s.errors == errors + t.errors
}

proof fn lemma_with_names_contains(names: Seq<Seq<char>>, more: Seq<Seq<char>>, name: Seq<char>)
    ensures
        selectors::with_names(names, more).contains(name) <==> names.contains(name)
            || more.contains(name),
    decreases more.len(),
{
    if more.len() > 0 {
        let front = more.drop_last();
        let before = selectors::with_names(names, front);
        let after = selectors::with_names(names, more);
        lemma_with_names_contains(names, front, name);
        assert(more =~= front.push(more.last()));
        if more.contains(name) {
            let k = choose|k: int| 0 <= k < more.len() && more[k] == name;
            if k < front.len() {
                assert(front[k] == name);
            }
        }
        if front.contains(name) {
            let k = choose|k: int| 0 <= k < front.len() && front[k] == name;
            assert(more[k] == name);
        }
        if more.last() == name {
            assert(more[more.len() - 1] == name);
        }
        if !before.contains(more.last()) {
            assert(after == before.push(more.last()));
            if before.contains(name) {
                let k = choose|k: int| 0 <= k < before.len() && before[k] == name;
                assert(after[k] == name);
            }
            if name == more.last() {
                assert(after[before.len() as int] == name);
            }
            if after.contains(name) && name != more.last() {
                let k = choose|k: int| 0 <= k < after.len() && after[k] == name;
                assert(before[k] == name);
            }
        }
    }
}

proof fn lemma_with_names_of_with_name(
    names: Seq<Seq<char>>,
    more: Seq<Seq<char>>,
    name: Seq<char>,
)
    ensures
        selectors::with_names(names, selectors::with_name(more, name)) == selectors::with_name(
            selectors::with_names(names, more),
            name,
        ),
{
    lemma_with_names_contains(names, more, name);
    if !more.contains(name) {
        assert(more.push(name).drop_last() =~= more);
    }
}

proof fn lemma_next<'a>(
    s: SelectorState<'a>,
    t: SelectorState<'a>,
    classes: Seq<Seq<char>>,
    errors: Seq<DiagnosticView>,
)
    requires
        is_ahead(s, t, classes, errors),
    ensures
        is_ahead(s.next().0, t.next().0, classes, errors),
        s.next().1 == t.next().1,
        s.remaining() == t.remaining(),
{
    let rest = s.nodes.skip(s.position as int);
    assert(rest == t.nodes.skip(t.position as int));
    assert(rest.len() == s.nodes.len() - s.position);
    assert(rest.len() == t.nodes.len() - t.position);
    if rest.len() > 0 {
        assert(rest[0] == s.nodes[s.position as int]);
        assert(rest[0] == t.nodes[t.position as int]);
        assert(s.nodes.skip((s.position + 1) as int) =~= rest.skip(1));
        assert(t.nodes.skip((t.position + 1) as int) =~= rest.skip(1));
    }
}

proof fn lemma_fail<'a>(
    s: SelectorState<'a>,
    t: SelectorState<'a>,
    classes: Seq<Seq<char>>,
    errors: Seq<DiagnosticView>,
    message: Seq<char>,
    token: SpannedToken<'a>,
)
    requires
        is_ahead(s, t, classes, errors),
    ensures
        is_ahead(s.fail(message, token), t.fail(message, token), classes, errors),
{
    assert(s.fail(message, token).errors =~= errors + t.fail(message, token).errors);
}

proof fn lemma_selects<'a>(
    s: SelectorState<'a>,
    t: SelectorState<'a>,
    classes: Seq<Seq<char>>,
    errors: Seq<DiagnosticView>,
    class: Seq<char>,
)
    requires
        is_ahead(s, t, classes, errors),
    ensures
        is_ahead(s.selects(class), t.selects(class), classes, errors),
{
    lemma_with_names_of_with_name(classes, t.classes, class);
}

proof fn lemma_validate_class<'a>(
    s: SelectorState<'a>,
    t: SelectorState<'a>,
    classes: Seq<Seq<char>>,
    errors: Seq<DiagnosticView>,
    class: Seq<char>,
    token: SpannedToken<'a>,
)
    requires
        is_ahead(s, t, classes, errors),
    ensures
        is_ahead(
            s.validate_class(class, token).0,
            t.validate_class(class, token).0,
            classes,
            errors,
        ),
        s.validate_class(class, token).1 == t.validate_class(class, token).1,
        is_ahead(
            s.validate_pseudo_class(class, token).0,
            t.validate_pseudo_class(class, token).0,
            classes,
            errors,
        ),
        s.validate_pseudo_class(class, token).1 == t.validate_pseudo_class(class, token).1,
        is_ahead(s.validate_state(class, token), t.validate_state(class, token), classes, errors),
{
    lemma_fail(s, t, classes, errors, "No class named \""@ + class + "\" exists."@, token);
    lemma_fail(s, t, classes, errors, "No state named \""@ + class + "\" exists."@, token);
    let (s1, _) = s.validate_class(class, token);
    let (t1, _) = t.validate_class(class, token);
    lemma_fail(
        s1,
        t1,
        classes,
        errors,
        "Class \""@ + class + "\" can't be used as a Pseudo instance."@,
        token,
    );
}

proof fn lemma_consume<'a>(
    s: SelectorState<'a>,
    t: SelectorState<'a>,
    classes: Seq<Seq<char>>,
    errors: Seq<DiagnosticView>,
)
    requires
        is_ahead(s, t, classes, errors),
    ensures
        is_ahead(s.consume().0, t.consume().0, classes, errors),
        s.consume().1 == t.consume().1,
    decreases s.remaining(),
{
    lemma_next(s, t, classes, errors);
    if let (s1, Some(part)) = s.next() {
        let t1 = t.next().0;
        let token = part.token.1;
        if token is PseudoSelector || token is StateSelectorOrEnumPart || token is Comma
            || token is ChildrenSelector || token is DescendantsSelector {
        } else if is_filter(part) {
            lemma_consume(s1, t1, classes, errors);
        } else {
            let message = selectors::misplaced_part(token);
            lemma_fail(s1, t1, classes, errors, message, part.token);
            lemma_consume(
                s1.fail(message, part.token),
                t1.fail(message, part.token),
                classes,
                errors,
            );
        }
    }
}

proof fn lemma_begin<'a>(
    s: SelectorState<'a>,
    t: SelectorState<'a>,
    classes: Seq<Seq<char>>,
    errors: Seq<DiagnosticView>,
    part: NodeView<'a>,
)
    requires
        is_ahead(s, t, classes, errors),
    ensures
        is_ahead(s.begin_iteration(part), t.begin_iteration(part), classes, errors),
    decreases s.remaining(), 2nat,
{
    lemma_new(s, t, classes, errors, part);
}

proof fn lemma_past_comma<'a>(
    s: SelectorState<'a>,
    t: SelectorState<'a>,
    classes: Seq<Seq<char>>,
    errors: Seq<DiagnosticView>,
)
    requires
        is_ahead(s, t, classes, errors),
    ensures
        is_ahead(s.consume_past_comma(), t.consume_past_comma(), classes, errors),
    decreases s.remaining(), 0nat,
{
    lemma_next(s, t, classes, errors);
    if let (s1, Some(_)) = s.next() {
        let t1 = t.next().0;
        lemma_next(s1, t1, classes, errors);
        if let (s2, Some(next)) = s1.next() {
            lemma_begin(s2, t1.next().0, classes, errors, next);
        }
    }
}

proof fn lemma_new<'a>(
    s: SelectorState<'a>,
    t: SelectorState<'a>,
    classes: Seq<Seq<char>>,
    errors: Seq<DiagnosticView>,
    part: NodeView<'a>,
)
    requires
        is_ahead(s, t, classes, errors),
    ensures
        is_ahead(s.from_new(part), t.from_new(part), classes, errors),
    decreases s.remaining(), 1nat,
{
    match part.token.1 {
        Token::TagSelectorOrEnumPart(_) | Token::NameSelector(_) => {
            lemma_selects(s, t, classes, errors, "Instance"@);
            lemma_past_comma(
                s.selects("Instance"@),
                t.selects("Instance"@),
                classes,
                errors,
            );
        },
        Token::Identifier(class) => {
            lemma_validate_class(s, t, classes, errors, class@, part.token);
            let (s1, validated) = s.validate_class(class@, part.token);
            let (t1, _) = t.validate_class(class@, part.token);
            lemma_consume(s1, t1, classes, errors);
            selectors::lemma_consume(s1);
            let t2 = t1.consume().0;
            match s1.consume() {
                (s2, ConsumeView::Found(found)) => {
                    lemma_selects(s2, t2, classes, errors, validated);
                    match found.token.1 {
                        Token::PseudoSelector(class) => {
                            lemma_validate_class(s2, t2, classes, errors, class@, found.token);
                            let (s3, validated) = s2.validate_pseudo_class(class@, found.token);
                            let (t3, _) = t2.validate_pseudo_class(class@, found.token);
                            lemma_selects(s3, t3, classes, errors, validated);
                        },
                        Token::StateSelectorOrEnumPart(Some(state)) => {
                            lemma_validate_class(
                                s2.selects(validated),
                                t2.selects(validated),
                                classes,
                                errors,
                                state@,
                                found.token,
                            );
                        },
                        _ => {},
                    }
                },
                (s2, ConsumeView::Delimiter(delimiter)) => {
                    lemma_selects(s2, t2, classes, errors, validated);
                    let s3 = if delimiter.token.1 is Comma {
                        s2.selects(validated)
                    } else {
                        s2
                    };
                    let t3 = if delimiter.token.1 is Comma {
                        t2.selects(validated)
                    } else {
                        t2
                    };
                    lemma_next(s3, t3, classes, errors);
                    if let (s4, Some(next)) = s3.next() {
                        lemma_begin(s4, t3.next().0, classes, errors, next);
                    }
                },
                (s2, ConsumeView::Absent) => {
                    lemma_selects(s2, t2, classes, errors, validated);
                },
            }
        },
        _ => {},
    }
}

/// The check of a selector behind its first part.
spec fn start_of<'a>(
    nodes: Seq<NodeView<'a>>,
    parent: Seq<Seq<char>>,
    text: Seq<char>,
    db: ReflectionView,
    before: CheckState,
) -> SelectorState<'a> {
    SelectorState {
        nodes,
        position: 1,
        parent,
        classes: Seq::empty(),
        errors: before.errors,
        text,
        db,
    }
}

/// Names and tags behind a class are passed over.
proof fn lemma_filters_are_passed<'a>(s: SelectorState<'a>, n: nat)
    requires
        s.position + n <= s.nodes.len(),
        forall|i: int|
            s.position <= i < s.position + n ==> is_filter(#[trigger] s.nodes[i]),
    ensures
        s.consume() == (SelectorState { position: s.position + n, ..s }).consume(),
    decreases n,
{
    if n > 0 {
        assert(is_filter(s.nodes[s.position as int]));
        lemma_filters_are_passed(s.next().0, (n - 1) as nat);
    }
}

/// What comes of a class with names and tags behind it, at the end of a selector or in front
/// of another part.
proof fn lemma_consume_behind_class<'a>(s: SelectorState<'a>, n: nat)
    requires
        s.position + n <= s.nodes.len(),
        forall|i: int|
            s.position <= i < s.position + n ==> is_filter(#[trigger] s.nodes[i]),
    ensures
        s.position + n == s.nodes.len() ==> s.consume() == (
            SelectorState { position: s.position + n, ..s },
            ConsumeView::<'a>::Absent,
        ),
        s.position + n < s.nodes.len() ==> ({
            let part = s.nodes[s.position + n as int];
            let after = SelectorState { position: s.position + n + 1, ..s };
            &&& part.token.1 is PseudoSelector || part.token.1 is StateSelectorOrEnumPart
                ==> s.consume() == (after, ConsumeView::Found(part))
            &&& part.token.1 is Comma || is_combinator(part) ==> s.consume() == (
                after,
                ConsumeView::Delimiter(part),
            )
        }),
{
    lemma_filters_are_passed(s, n);
}

/// A single name or tag selects all instances, nested or not, without an error.
pub proof fn lemma_name_or_tag_selects_instances(
    node: NodeView,
    parent: Seq<Seq<char>>,
    text: Seq<char>,
    db: ReflectionView,
    before: CheckState,
)
    requires
        is_filter(node),
    ensures
        classes_of(seq![node], parent, text, db, before) == seq!["Instance"@],
        errors_of(seq![node], parent, text, db, before) == before.errors,
{
    let s = start_of(seq![node], parent, text, db, before);
    let after = s.selects("Instance"@);
    assert(after.consume_past_comma() == after);
    assert(s.from_new(node) == after.consume_past_comma());
    assert(s.from_parent(node, false) == after.consume_past_comma());
    assert(after.classes =~= seq!["Instance"@]);
}

/// A class with names and tags behind it selects that class, and `Instance`, with an error,
/// where there is no such class.
pub proof fn lemma_class_is_selected(
    class: NodeView,
    name: &str,
    filters: Seq<NodeView>,
    text: Seq<char>,
    db: ReflectionView,
    before: CheckState,
)
    requires
        class.token.1 == Token::Identifier(name),
        are_filters(filters),
    ensures
        ({
            let nodes = seq![class] + filters;
            &&& classes_of(nodes, Seq::empty(), text, db, before) == seq![known_class(db, name@)]
            &&& errors_of(nodes, Seq::empty(), text, db, before) == before.errors + class_errors(
                db,
                name@,
                class.token,
                text,
            )
        }),
{
    let nodes = seq![class] + filters;
    let s = start_of(nodes, Seq::empty(), text, db, before);
    let (s1, validated) = s.validate_class(name@, class.token);
    assert forall|i: int| 1 <= i < 1 + filters.len() implies is_filter(#[trigger] nodes[i]) by {
        assert(nodes[i] == filters[i - 1]);
    }
    lemma_consume_behind_class(s1, filters.len());
    assert(nodes[0] == class);
    assert(s.begin_iteration(class).classes =~= seq![known_class(db, name@)]);
    assert(s.begin_iteration(class).errors =~= before.errors + class_errors(
        db,
        name@,
        class.token,
        text,
    ));
}

/// A pseudo selector behind a class selects the pseudo instance in place of the class; a state
/// leaves the class.
pub proof fn lemma_pseudo_or_state_behind_class(
    class: NodeView,
    name: &str,
    filters: Seq<NodeView>,
    part: NodeView,
    written: &str,
    text: Seq<char>,
    db: ReflectionView,
    before: CheckState,
)
    requires
        class.token.1 == Token::Identifier(name),
        are_filters(filters),
        part.token.1 == Token::PseudoSelector(written) || part.token.1
            == Token::StateSelectorOrEnumPart(Some(written)),
    ensures
        ({
            let nodes = seq![class] + filters + seq![part];
            &&& classes_of(nodes, Seq::empty(), text, db, before) == seq![
                known_class(
                    db,
                    if part.token.1 is PseudoSelector {
                        written@
                    } else {
                        name@
                    },
                ),
            ]
            &&& errors_of(nodes, Seq::empty(), text, db, before) == before.errors + class_errors(
                db,
                name@,
                class.token,
                text,
            ) + (if part.token.1 is PseudoSelector {
                pseudo_errors(db, written@, part.token, text)
            } else {
                state_errors(written@, part.token, text)
            })
        }),
{
    lemma_pseudo_instances(written@);
    lemma_known_states(written@);
    let nodes = seq![class] + filters + seq![part];
    let s = start_of(nodes, Seq::empty(), text, db, before);
    let (s1, validated) = s.validate_class(name@, class.token);
    assert forall|i: int| 1 <= i < 1 + filters.len() implies is_filter(#[trigger] nodes[i]) by {
        assert(nodes[i] == filters[i - 1]);
    }
    assert(nodes[1 + filters.len() as int] == part);
    lemma_consume_behind_class(s1, filters.len());
    assert(nodes[0] == class);
    assert(s.begin_iteration(class).errors =~= before.errors + class_errors(
        db,
        name@,
        class.token,
        text,
    ) + (if part.token.1 is PseudoSelector {
        pseudo_errors(db, written@, part.token, text)
    } else {
        state_errors(written@, part.token, text)
    }));
    assert(s.begin_iteration(class).classes =~= seq![
        known_class(
            db,
            if part.token.1 is PseudoSelector {
                written@
            } else {
                name@
            },
        ),
    ]);
}

/// Whether parts select by themselves: a name or tag, or a class with names and tags behind.
pub open spec fn is_whole(nodes: Seq<NodeView>) -> bool {
    &&& nodes.len() > 0
    &&& nodes.len() == 1 && is_filter(nodes[0]) || nodes[0].token.1 is Identifier && are_filters(
        nodes.skip(1),
    )
}

/// The errors that a check adds to those before it.
pub open spec fn added_errors(
    nodes: Seq<NodeView>,
    text: Seq<char>,
    db: ReflectionView,
) -> Seq<DiagnosticView> {
    errors_of(
        nodes,
        Seq::empty(),
        text,
        db,
        CheckState { errors: Seq::empty(), definitions: Map::empty() },
    )
}

proof fn lemma_rest<'a>(
    s: SelectorState<'a>,
    rest: Seq<NodeView<'a>>,
    text: Seq<char>,
    db: ReflectionView,
    before: CheckState,
)
    requires
        rest.len() > 0,
        s.parent.len() == 0,
        s.position < s.nodes.len(),
        s.nodes.skip(s.position as int) == rest,
        s.text == text,
        s.db == db,
    ensures
        ({
            let after = s.next().0.begin_iteration(rest[0]);
            &&& after.classes == selectors::with_names(
                s.classes,
                classes_of(rest, Seq::empty(), text, db, before),
            )
            &&& after.errors == s.errors + added_errors(rest, text, db)
        }),
{
    let none = CheckState { errors: Seq::empty(), definitions: Map::empty() };
    let t = start_of(rest, Seq::empty(), text, db, none);
    let t2 = start_of(rest, Seq::empty(), text, db, before);
    let s1 = s.next().0;
    assert(s1.nodes.skip(s1.position as int) =~= rest.skip(1));
    assert(s.parent =~= Seq::empty());
    assert(s.classes =~= selectors::with_names(s.classes, Seq::empty()));
    assert(s.errors =~= s.errors + Seq::<DiagnosticView>::empty());
    assert(is_ahead(s1, t, s.classes, s.errors));
    lemma_begin(s1, t, s.classes, s.errors, rest[0]);
    assert(t.errors =~= Seq::empty());
    assert(selectors::with_names(Seq::empty(), t.classes) =~= t2.classes);
    assert(before.errors =~= before.errors + t.errors);
    assert(is_ahead(t2, t, Seq::empty(), before.errors));
    lemma_begin(t2, t, Seq::empty(), before.errors, rest[0]);
    lemma_with_none(t.begin_iteration(rest[0]));
    selectors::lemma_selected_classes_are_sound(rest, Seq::empty(), text, db, none);
    lemma_with_names_of_none(t.begin_iteration(rest[0]).classes);
}

proof fn lemma_with_none(s: SelectorState)
    ensures
        Seq::<DiagnosticView>::empty() + s.errors == s.errors,
{
    assert(Seq::<DiagnosticView>::empty() + s.errors =~= s.errors);
}

/// Names without duplicates, put together one by one, are those names.
proof fn lemma_with_names_of_none(names: Seq<Seq<char>>)
    requires
        names.no_duplicates(),
    ensures
        selectors::with_names(Seq::empty(), names) == names,
    decreases names.len(),
{
    if names.len() > 0 {
        let front = names.drop_last();
        assert(forall|i: int| 0 <= i < front.len() ==> front[i] == names[i]);
        lemma_with_names_of_none(front);
        if front.contains(names.last()) {
            let k = choose|k: int| 0 <= k < front.len() && front[k] == names.last();
            assert(names[k] == names[names.len() - 1]);
        }
        assert(front.push(names.last()) =~= names);
    } else {
        assert(names =~= Seq::empty());
    }
}

/// What stands in front of a comma and what stands behind it select by themselves: together
/// they select the classes of both, in order and without duplicates, and have the errors of
/// both.
pub proof fn lemma_comma_joins(
    whole: Seq<NodeView>,
    comma: NodeView,
    rest: Seq<NodeView>,
    text: Seq<char>,
    db: ReflectionView,
    before: CheckState,
)
    requires
        is_whole(whole),
        comma.token.1 is Comma,
        rest.len() > 0,
    ensures
        ({
            let nodes = whole + seq![comma] + rest;
            &&& classes_of(nodes, Seq::empty(), text, db, before) == selectors::with_names(
                classes_of(whole, Seq::empty(), text, db, before),
                classes_of(rest, Seq::empty(), text, db, before),
            )
            &&& errors_of(nodes, Seq::empty(), text, db, before) == errors_of(
                whole,
                Seq::empty(),
                text,
                db,
                before,
            ) + added_errors(rest, text, db)
        }),
{
    let nodes = whole + seq![comma] + rest;
    let n = whole.len();
    let s = start_of(nodes, Seq::empty(), text, db, before);
    assert(nodes[n as int] == comma);
    assert(nodes[0] == whole[0]);
    assert(nodes.skip(n as int + 1) =~= rest);
    assert(nodes[n as int + 1] == rest[0]);
    if is_filter(whole[0]) && n == 1 {
        lemma_name_or_tag_selects_instances(whole[0], Seq::empty(), text, db, before);
        assert(whole =~= seq![whole[0]]);
        let s1 = s.selects("Instance"@).next().0;
        assert(s.selects("Instance"@).next().1 == Some(comma));
        lemma_rest(s1, rest, text, db, before);
        assert(s1.classes =~= seq!["Instance"@]);
        assert(s.selects("Instance"@).consume_past_comma() == s1.next().0.begin_iteration(rest[0]));
        assert(s.from_new(nodes[0]) == s.selects("Instance"@).consume_past_comma());
        assert(s.begin_iteration(nodes[0]) == s1.next().0.begin_iteration(rest[0]));
    } else {
        let class = whole[0];
        let filters = whole.skip(1);
        let name = match class.token.1 {
            Token::Identifier(name) => name,
            _ => arbitrary(),
        };
        lemma_class_is_selected(class, name, filters, text, db, before);
        assert(whole =~= seq![class] + filters);
        let (s1, validated) = s.validate_class(name@, class.token);
        assert forall|i: int| 1 <= i < n implies is_filter(#[trigger] nodes[i]) by {
            assert(nodes[i] == filters[i - 1]);
        }
        lemma_consume_behind_class(s1, (n - 1) as nat);
        let s2 = s1.consume().0.selects(validated);
        assert(s1.consume().1 == ConsumeView::Delimiter(comma));
        lemma_rest(s2, rest, text, db, before);
        assert(s2.classes =~= seq![known_class(db, name@)]);
        assert(s.begin_iteration(nodes[0]) == s2.next().0.begin_iteration(rest[0]));
        assert(s2.errors =~= before.errors + class_errors(db, name@, class.token, text));
    }
}

/// Behind a class and a combinator the selector starts over: the class in front is not
/// selected.
pub proof fn lemma_combinator_leads_on(
    class: NodeView,
    name: &str,
    filters: Seq<NodeView>,
    combinator: NodeView,
    rest: Seq<NodeView>,
    text: Seq<char>,
    db: ReflectionView,
    before: CheckState,
)
    requires
        class.token.1 == Token::Identifier(name),
        are_filters(filters),
        is_combinator(combinator),
        rest.len() > 0,
    ensures
        ({
            let nodes = seq![class] + filters + seq![combinator] + rest;
            &&& classes_of(nodes, Seq::empty(), text, db, before) == classes_of(
                rest,
                Seq::empty(),
                text,
                db,
                before,
            )
            &&& errors_of(nodes, Seq::empty(), text, db, before) == before.errors + class_errors(
                db,
                name@,
                class.token,
                text,
            ) + added_errors(rest, text, db)
        }),
{
    let nodes = seq![class] + filters + seq![combinator] + rest;
    let n = 1 + filters.len();
    let s = start_of(nodes, Seq::empty(), text, db, before);
    assert(nodes[n as int] == combinator);
    assert(nodes[0] == class);
    assert(nodes.skip(n as int + 1) =~= rest);
    assert(nodes[n as int + 1] == rest[0]);
    let (s1, validated) = s.validate_class(name@, class.token);
    assert forall|i: int| 1 <= i < n implies is_filter(#[trigger] nodes[i]) by {
        assert(nodes[i] == filters[i - 1]);
    }
    lemma_consume_behind_class(s1, filters.len());
    let s2 = s1.consume().0;
    assert(s1.consume().1 == ConsumeView::Delimiter(combinator));
    lemma_rest(s2, rest, text, db, before);
    assert(s.begin_iteration(nodes[0]) == s2.next().0.begin_iteration(rest[0]));
    assert(s2.errors =~= before.errors + class_errors(db, name@, class.token, text));
    selectors::lemma_selected_classes_are_sound(rest, Seq::empty(), text, db, before);
    lemma_with_names_of_none(classes_of(rest, Seq::empty(), text, db, before));
}

/// A state in a nested selector keeps to the classes of the selector around it.
pub proof fn lemma_nested_state_keeps_classes(
    node: NodeView,
    state: &str,
    parent: Seq<Seq<char>>,
    text: Seq<char>,
    db: ReflectionView,
    before: CheckState,
)
    requires
        node.token.1 == Token::StateSelectorOrEnumPart(Some(state)),
        parent.len() > 0,
        parent.no_duplicates(),
    ensures
        classes_of(seq![node], parent, text, db, before) == parent,
        errors_of(seq![node], parent, text, db, before) == before.errors + state_errors(
            state@,
            node.token,
            text,
        ),
{
    lemma_known_states(state@);
    let s = start_of(seq![node], parent, text, db, before);
    lemma_with_names_of_none(parent);
    assert(s.begin_iteration(node) == s.from_parent(node, false));
    assert(s.from_parent(node, false).errors =~= before.errors + state_errors(
        state@,
        node.token,
        text,
    ));
}

/// A pseudo selector in a nested selector selects the pseudo instance alone.
pub proof fn lemma_nested_pseudo_selects_itself(
    node: NodeView,
    class: &str,
    parent: Seq<Seq<char>>,
    text: Seq<char>,
    db: ReflectionView,
    before: CheckState,
)
    requires
        node.token.1 == Token::PseudoSelector(class),
        parent.len() > 0,
    ensures
        classes_of(seq![node], parent, text, db, before) == seq![known_class(db, class@)],
        errors_of(seq![node], parent, text, db, before) == before.errors + pseudo_errors(
            db,
            class@,
            node.token,
            text,
        ),
{
    lemma_pseudo_instances(class@);
    let s = start_of(seq![node], parent, text, db, before);
    assert(s.begin_iteration(node) == s.from_parent(node, false));
    assert(s.from_parent(node, false).classes =~= seq![known_class(db, class@)]);
    assert(s.from_parent(node, false).errors =~= before.errors + pseudo_errors(
        db,
        class@,
        node.token,
        text,
    ));
}

/// A class in a nested selector is selected with or without a combinator in front of it; the
/// combinator alone makes the difference between an error and none.
pub proof fn lemma_nested_class_needs_combinator(
    combinator: NodeView,
    class: NodeView,
    name: &str,
    filters: Seq<NodeView>,
    parent: Seq<Seq<char>>,
    text: Seq<char>,
    db: ReflectionView,
    before: CheckState,
)
    requires
        is_combinator(combinator),
        class.token.1 == Token::Identifier(name),
        are_filters(filters),
        parent.len() > 0,
    ensures
        ({
            let bare = seq![class] + filters;
            let led = seq![combinator] + bare;
            let errors = class_errors(db, name@, class.token, text);
            &&& classes_of(bare, parent, text, db, before) == seq![known_class(db, name@)]
            &&& classes_of(led, parent, text, db, before) == seq![known_class(db, name@)]
            &&& errors_of(led, parent, text, db, before) == before.errors + errors
            &&& errors_of(bare, parent, text, db, before) == before.errors.push(
                selector_error(
                    "Class Selectors can't be nested inside another selector without a children (>) or descendants selector."@,
                    class.token,
                    text,
                ),
            ) + errors
        }),
{
    let bare = seq![class] + filters;
    let led = seq![combinator] + bare;
    let errors = class_errors(db, name@, class.token, text);
    let s = start_of(bare, parent, text, db, before);
    let t = start_of(led, parent, text, db, before);
    let failed = s.fail(
        "Class Selectors can't be nested inside another selector without a children (>) or descendants selector."@,
        class.token,
    );
    assert(bare[0] == class);
    assert(led[0] == combinator && led[1] == class);
    let (s1, validated) = failed.validate_class(name@, class.token);
    let s2 = s1.selects(validated);
    assert forall|i: int| 1 <= i < bare.len() implies is_filter(#[trigger] bare[i]) by {
        assert(bare[i] == filters[i - 1]);
    }
    lemma_consume_behind_class(s2, filters.len());
    assert(s.begin_iteration(class) == s.from_parent(class, false));
    assert(s.from_parent(class, false) == s2.consume().0);
    assert(s2.classes =~= seq![known_class(db, name@)]);
    assert(s2.errors =~= failed.errors + errors);
    let t0 = t.next().0;
    let (t1, validated) = t0.validate_class(name@, class.token);
    let t2 = t1.selects(validated);
    assert forall|i: int| 2 <= i < led.len() implies is_filter(#[trigger] led[i]) by {
        assert(led[i] == filters[i - 2]);
    }
    lemma_consume_behind_class(t2, filters.len());
    assert(t0.from_parent(class, true) == t2.consume().0);
    assert(t.from_parent(combinator, false) == t0.from_parent(class, true));
    assert(t2.classes =~= seq![known_class(db, name@)]);
    assert(t2.errors =~= before.errors + errors);
}

/// A list of selectors with commas between them, each a name or a tag or a class with names and
/// tags behind it.
pub open spec fn listed(
    items: Seq<Seq<NodeView<'static>>>,
    comma: NodeView<'static>,
) -> Seq<NodeView<'static>>
    decreases items.len(),
{
    if items.len() == 0 {
        Seq::empty()
    } else if items.len() == 1 {
        items[0]
    } else {
        items[0] + seq![comma] + listed(items.skip(1), comma)
    }
}

/// A list of selectors selects exactly what its selectors select, and `Instance` for each of
/// them that is a name or a tag.
pub proof fn lemma_list_selects_all(
    items: Seq<Seq<NodeView<'static>>>,
    comma: NodeView<'static>,
    text: Seq<char>,
    db: ReflectionView,
    before: CheckState,
    class: Seq<char>,
)
    requires
        items.len() > 0,
        comma.token.1 is Comma,
        forall|i: int| 0 <= i < items.len() ==> is_whole(#[trigger] items[i]),
    ensures
        classes_of(listed(items, comma), Seq::empty(), text, db, before).contains(class) <==> exists|
            i: int,
        |
            0 <= i < items.len() && #[trigger] selects_itself(items[i], db) == class,
    decreases items.len(),
{
    lemma_whole_selects(items[0], text, db, before);
    let here = classes_of(items[0], Seq::empty(), text, db, before);
    assert(here.contains(class) <==> selects_itself(items[0], db) == class) by {
        if selects_itself(items[0], db) == class {
            assert(here[0] == class);
        }
    }
    if items.len() > 1 {
        let rest = items.skip(1);
        assert(forall|i: int| 0 <= i < rest.len() ==> #[trigger] rest[i] == items[i + 1]);
        lemma_list_selects_all(rest, comma, text, db, before, class);
        lemma_listed_is_not_empty(rest, comma);
        lemma_comma_joins(items[0], comma, listed(rest, comma), text, db, before);
        lemma_with_names_contains(
            here,
            classes_of(listed(rest, comma), Seq::empty(), text, db, before),
            class,
        );
        if exists|i: int|
            0 <= i < items.len() && #[trigger] selects_itself(items[i], db) == class {
            let i = choose|i: int|
                0 <= i < items.len() && #[trigger] selects_itself(items[i], db) == class;
            if i > 0 {
                assert(selects_itself(rest[i - 1], db) == class);
            }
        }
        if exists|i: int| 0 <= i < rest.len() && #[trigger] selects_itself(rest[i], db) == class {
            let i = choose|i: int|
                0 <= i < rest.len() && #[trigger] selects_itself(rest[i], db) == class;
            assert(selects_itself(items[i + 1], db) == class);
        }
    }
}

/// What a name or a tag, or a class with names and tags behind it, selects.
pub open spec fn selects_itself(nodes: Seq<NodeView>, db: ReflectionView) -> Seq<char> {
    match nodes[0].token.1 {
        Token::Identifier(name) => known_class(db, name@),
        _ => "Instance"@,
    }
}

proof fn lemma_whole_selects(
    nodes: Seq<NodeView>,
    text: Seq<char>,
    db: ReflectionView,
    before: CheckState,
)
    requires
        is_whole(nodes),
    ensures
        classes_of(nodes, Seq::empty(), text, db, before) == seq![selects_itself(nodes, db)],
{
    match nodes[0].token.1 {
        Token::Identifier(name) => {
            lemma_class_is_selected(nodes[0], name, nodes.skip(1), text, db, before);
            assert(nodes =~= seq![nodes[0]] + nodes.skip(1));
        },
        _ => {
            lemma_name_or_tag_selects_instances(nodes[0], Seq::empty(), text, db, before);
            assert(nodes =~= seq![nodes[0]]);
        },
    }
}

proof fn lemma_listed_is_not_empty(items: Seq<Seq<NodeView<'static>>>, comma: NodeView<'static>)
    requires
        items.len() > 0,
        forall|i: int| 0 <= i < items.len() ==> is_whole(#[trigger] items[i]),
    ensures
        listed(items, comma).len() > 0,
{
    assert(is_whole(items[0]));
}

} // verus!
