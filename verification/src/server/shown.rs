//! What is shown, linked and completed in a checked document.

use super::document;
use super::document::{ResolvedTypeView, ResolvedTypesView};
use crate::autocomplete;
use crate::autocomplete::derive::{DeriveStringView, LocatedView};
use crate::autocomplete::lookup;
use crate::autocomplete::nested;
use crate::autocomplete::normalize_path;
use crate::autocomplete::normalize_path::ComponentView;
use crate::autocomplete::values::PaletteView;
use crate::completion::{CompletionItemKind, CompletionItemView};
use crate::parser::construct::{ConstructView, DelimitedView, NodeView};
use crate::parser::order;
use crate::parser::token::Token;
use crate::reflection::ReflectionView;
use crate::typechecker::definitions;
use crate::typechecker::definitions::DefinitionView;
use crate::typechecker::derived;
use crate::typechecker::frame;
use crate::typechecker::rules;
use crate::typechecker::scoped;
use crate::typechecker::selectors::CheckState;
use crate::typechecker::type_error;
use vstd::prelude::*;

verus! {

/// Names with bars between them, from the first on.
pub open spec fn with_bars(names: Seq<Seq<char>>) -> Seq<char>
    decreases names.len(),
{
    if names.len() == 0 {
        Seq::empty()
    } else if names.len() == 1 {
        names[0]
    } else {
        names[0] + (" | "@ + with_bars(names.skip(1)))
    }
}

proof fn lemma_with_bars(names: Seq<Seq<char>>)
    ensures
        definitions::joined(names, " | "@) == with_bars(names),
    decreases names.len(),
{
    if names.len() == 2 {
        let front = names.drop_last();
        let rest = names.skip(1);
        assert(definitions::joined(front, " | "@) == front[0] && front[0] == names[0]);
        assert(with_bars(rest) == rest[0] && rest[0] == names[1]);
        assert(names[0] + " | "@ + names[1] =~= names[0] + (" | "@ + names[1]));
    } else if names.len() > 2 {
        let front = names.drop_last();
        let rest = names.skip(1);
        lemma_with_bars(front);
        lemma_with_bars(rest);
        lemma_with_bars(rest.drop_last());
        assert(front.skip(1) =~= rest.drop_last());
        assert(front[0] == names[0] && rest.last() == names.last());
        assert(definitions::joined(rest, " | "@) == definitions::joined(rest.drop_last(), " | "@)
            + " | "@ + rest.last());
        let middle = definitions::joined(rest.drop_last(), " | "@);
        assert(names[0] + (" | "@ + middle) + " | "@ + names.last() =~= names[0] + (" | "@ + (middle
            + " | "@ + names.last())));
    }
}

/// The first part of a rule's selector shows the classes that the rule selects, with bars
/// between them, and so it does in nested rules, whose parent is the rule around them.
pub proof fn lemma_selector_shows_classes(
    selectors: Seq<NodeView>,
    body: DelimitedView,
    parent: Seq<Seq<char>>,
    text: Seq<char>,
    db: ReflectionView,
    before: CheckState,
    types: ResolvedTypesView,
    byte: usize,
)
    requires
        selectors.len() > 0,
        order::is_ordered(
            order::tokens_of(
                ConstructView::Rule { selectors: Some(selectors), body: Some(body) },
            ),
        ),
        order::delimited_has_bodies(body),
        selectors[0].token.0 <= byte < selectors[0].token.2,
    ensures
        document::hover_at(
            rules::checked_rule(
                Some(selectors),
                Some(body),
                parent,
                text,
                db,
                before,
            ).definitions,
            byte,
            types,
        ) == Some(
            "```luau\n"@ + with_bars(scoped::rule_classes(Some(selectors), parent, text, db))
                + "\n```"@,
        ),
{
    reveal_with_fuel(scoped::is_scoped, 2);
    scoped::lemma_rule_defines_scopes(Some(selectors), body, parent, text, db, before);
    let after = rules::checked_rule(
        Some(selectors),
        Some(body),
        parent,
        text,
        db,
        before,
    ).definitions;
    let classes = scoped::rule_classes(Some(selectors), parent, text, db);
    lemma_with_bars(classes);
    lemma_held(
        after,
        selectors[0].token.0,
        selectors[0].token.2,
        definitions::selector_view(classes),
        byte,
    );
}

proof fn lemma_held(
    after: Map<usize, DefinitionView>,
    from: usize,
    to: usize,
    kind: DefinitionView,
    byte: usize,
)
    requires
        frame::holds(after, from, to, kind),
        from <= byte < to,
    ensures
        after.dom().contains(byte),
        after[byte] == kind,
{
    assert(after.dom().contains(byte));
}

/// A string of a derive leads to the file that was located for it, and shows its path in
/// quotes; where there is no such file it does so for the path in its shortest form.
pub proof fn lemma_string_leads_to_file(
    strings: Seq<DeriveStringView>,
    i: int,
    located: Seq<LocatedView>,
    from: int,
    current: Seq<ComponentView>,
    before: Map<usize, DefinitionView>,
    types: ResolvedTypesView,
    byte: usize,
)
    requires
        0 <= i < strings.len(),
        0 <= from,
        from + i < located.len(),
        forall|i: int, j: int|
            0 <= i < j < strings.len() ==> (#[trigger] strings[i]).end <= (
            #[trigger] strings[j]).start,
        strings[i].start <= byte < strings[i].end,
        located[from + i] matches LocatedView::Found { path, .. } ==> path != current,
    ensures
        ({
            let after = autocomplete::derive::with_derives(
                strings,
                strings.len() as int,
                located,
                from,
                current,
                before,
            );
            let target = match located[from + i] {
                LocatedView::Found { text, .. } => text,
                LocatedView::Missing { path, .. } => normalize_path::written(
                    normalize_path::normalized(path),
                ),
            };
            &&& document::link_at(after, byte) == Some(target)
            &&& document::hover_at(after, byte, types) == Some(
                "```luau\n"@ + type_error::quoted_text(target) + "\n```"@,
            )
        }),
{
    let n = strings.len() as int;
    derived::lemma_strings_are_linked(strings, n, located, from, current, before);
    let after = autocomplete::derive::with_derives(strings, n, located, from, current, before);
    let string = strings[i];
    assert(derived::is_linked(string, located[from + i], current, after));
    match located[from + i] {
        LocatedView::Found { text, .. } => {
            lemma_held(
                after,
                string.start,
                string.end,
                DefinitionView::Derive { path: text },
                byte,
            );
        },
        LocatedView::Missing { path, .. } => {
            lemma_held(
                after,
                string.start,
                string.end,
                DefinitionView::Derive {
                    path: normalize_path::written(normalize_path::normalized(path)),
                },
                byte,
            );
        },
    }
}

/// Only strings of derives lead to files.
pub proof fn lemma_only_strings_lead(map: Map<usize, DefinitionView>, byte: usize)
    ensures
        document::link_at(map, byte) is Some <==> map.dom().contains(byte)
            && map[byte] is Derive,
{
}

/// Behind the keyword of an enum item that is assigned to a property with an enum, that enum
/// alone is completed.
pub proof fn lemma_enum_of_property_is_completed(
    assignment: ConstructView,
    property: &str,
    keyword: NodeView,
    name: NodeView,
    enum_name: Seq<char>,
    classes: Seq<Seq<char>>,
    db: ReflectionView,
    before: Map<usize, DefinitionView>,
    after: Map<usize, DefinitionView>,
    source: Seq<char>,
    palette: PaletteView,
    byte: usize,
)
    requires
        nested::is_defined(assignment, classes, db, before, after),
        assignment matches ConstructView::Assignment { left, middle, right, .. } && left.token.1
            == Token::Identifier(property) && middle is Some && right is Some && (*right->0 matches
            ConstructView::Enum { keyword: k, name: n, .. } && k == keyword && n == Some(name)),
        lookup::enum_of_property(db, classes, property@) == Some(enum_name),
        keyword.token.2 <= byte < name.token.2,
    ensures
        document::completions_at(after, source, byte, db, palette) == Some(
            seq![
                CompletionItemView {
                    label: enum_name,
                    kind: Some(CompletionItemKind::Enum),
                    detail: None,
                    insert_text: None,
                    insert_text_format: None,
                    command: None,
                },
            ],
        ),
{
    lemma_held(
        after,
        keyword.token.2,
        name.token.2,
        DefinitionView::FilteredEnumName { enum_name },
        byte,
    );
}

/// The index of the first type that is known of a property whose assignment starts at a byte.
pub open spec fn is_first_property(types: ResolvedTypesView, start: usize, i: int) -> bool {
    &&& 0 <= i < types.properties.len()
    &&& types.properties[i].0 == start
    &&& forall|j: int| 0 <= j < i ==> (#[trigger] types.properties[j]).0 != start
}

proof fn lemma_property_type(
    properties: Seq<(usize, ResolvedTypeView)>,
    start: usize,
    i: int,
)
    requires
        0 <= i <= properties.len(),
        forall|j: int| 0 <= j < i ==> (#[trigger] properties[j]).0 != start,
    ensures
        i < properties.len() && properties[i].0 == start ==> document::property_type(
            properties,
            start,
        ) == Some(properties[i].1),
        i == properties.len() ==> document::property_type(properties, start) is None,
    decreases i,
{
    if i > 0 {
        let rest = properties.drop_first();
        assert(properties[0].0 != start);
        assert forall|j: int| 0 <= j < i - 1 implies (#[trigger] rest[j]).0 != start by {
            assert(rest[j] == properties[j + 1]);
        }
        lemma_property_type(rest, start, i - 1);
        if i < properties.len() {
            assert(rest[i - 1] == properties[i]);
        }
    }
}

/// In the value of a property, the property is shown with the type of the assignment that
/// starts where the stretch around the byte does. Without a type nothing is shown.
pub proof fn lemma_property_shows_type(
    map: Map<usize, DefinitionView>,
    byte: usize,
    start: usize,
    end: usize,
    name: Seq<char>,
    classes: Seq<Seq<char>>,
    types: ResolvedTypesView,
)
    requires
        map.dom().contains(byte),
        map[byte] == (DefinitionView::Assignment {
            property_name: name,
            type_definition: classes,
        }),
        definitions::is_run(map, byte, start, end),
    ensures
        forall|i: int| #[trigger]
            is_first_property(types, start, i) ==> document::hover_at(map, byte, types) == Some(
                "```luau\n"@ + (name + ": "@ + (match types.properties[i].1 {
                    ResolvedTypeView::EnumShorthand => "Enum."@ + name,
                    ResolvedTypeView::EnumItem(enum_name) => "Enum."@ + enum_name,
                    ResolvedTypeView::Other(text) => text,
                })) + "\n```"@,
            ),
        (forall|i: int|
            0 <= i < types.properties.len() ==> (#[trigger] types.properties[i]).0 != start)
            ==> document::hover_at(map, byte, types) is None,
{
    let run = document::run_of(map, byte);
    assert(definitions::is_run(map, byte, (start, end).0, (start, end).1));
    assert(definitions::is_run(map, byte, run.0, run.1));
    definitions::lemma_run_is_unique(map, byte, start, end, run.0, run.1);
    assert forall|i: int| #[trigger] is_first_property(types, start, i) implies document::hover_at(
        map,
        byte,
        types,
    ) == Some(
        "```luau\n"@ + (name + ": "@ + (match types.properties[i].1 {
            ResolvedTypeView::EnumShorthand => "Enum."@ + name,
            ResolvedTypeView::EnumItem(enum_name) => "Enum."@ + enum_name,
            ResolvedTypeView::Other(text) => text,
        })) + "\n```"@,
    ) by {
        lemma_property_type(types.properties, start, i);
    }
    if forall|i: int|
        0 <= i < types.properties.len() ==> (#[trigger] types.properties[i]).0 != start {
        lemma_property_type(types.properties, start, types.properties.len() as int);
    }
}

/// Outside of derives, selectors, tokens and values of properties nothing is shown.
pub proof fn lemma_nothing_else_is_shown(
    map: Map<usize, DefinitionView>,
    byte: usize,
    types: ResolvedTypesView,
)
    requires
        map.dom().contains(byte) ==> !(map[byte] is Derive || map[byte] is Selector
            || map[byte] is Token || map[byte] is Assignment),
    ensures
        document::hover_at(map, byte, types) is None,
{
}

} // verus!
