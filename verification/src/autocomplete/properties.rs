//! The completions of enums and of the properties of a rule.

use super::lookup;
use super::values::no_items;
use crate::completion;
use crate::completion::{CompletionItem, CompletionItemKind, CompletionItemView};
use crate::reflection;
use crate::reflection::{
    Class, ClassView, Property, PropertyType, PropertyTypeView, PropertyView, Reflection,
    ReflectionView,
};
use crate::strings::{join2, str_eq};
use crate::typechecker::definitions;
use vstd::prelude::*;

verus! {

/// The items of names.
pub open spec fn plain_items(names: Seq<Seq<char>>, kind: CompletionItemKind) -> Seq<
    CompletionItemView,
> {
    Seq::new(names.len(), |i: int| completion::plain_item(names[i], kind))
}

/// The names of the enums.
pub open spec fn enum_names(db: ReflectionView) -> Seq<Seq<char>> {
    Seq::new(db.enums.len(), |i: int| db.enums[i].name)
}

/// The completions of an enum's name.
pub open spec fn enum_name_items(db: ReflectionView) -> Seq<CompletionItemView> {
    plain_items(enum_names(db), CompletionItemKind::Enum)
}

/// The completions of an enum's items.
pub open spec fn enum_variant_items(db: ReflectionView, enum_name: Seq<char>) -> Seq<
    CompletionItemView,
> {
    plain_items(lookup::items_of_enum(db, enum_name), CompletionItemKind::EnumMember)
}

/// The enums of the properties whose enum is named otherwise than they are.
pub open spec fn enum_override(property_name: Seq<char>) -> Option<Seq<char>> {
    if property_name == "FlexMode"@ {
        Some("UIFlexMode"@)
    } else if property_name == "HorizontalFlex"@ || property_name == "VerticalFlex"@ {
        Some("UIFlexAlignment"@)
    } else {
        None
    }
}

/// The enum of the first class whose property of the given name has one.
pub open spec fn inherited_enum(ancestors: Seq<ClassView>, name: Seq<char>) -> Option<Seq<char>>
    decreases ancestors.len(),
{
    if ancestors.len() == 0 {
        None
    } else {
        match reflection::property_named(ancestors[0].properties, name) {
            Some(property) => match property.data_type {
                PropertyTypeView::Enum(enum_name) => Some(enum_name),
                _ => inherited_enum(ancestors.drop_first(), name),
            },
            None => inherited_enum(ancestors.drop_first(), name),
        }
    }
}

/// The enum of the given property of the first of the classes that has or inherits one.
pub open spec fn shorthand_enum(
    db: ReflectionView,
    class_names: Seq<Seq<char>>,
    name: Seq<char>,
) -> Option<Seq<char>>
    decreases class_names.len(),
{
    if class_names.len() == 0 {
        None
    } else {
        match inherited_enum(db.lineage(class_names[0]), name) {
            Some(enum_name) => Some(enum_name),
            None => shorthand_enum(db, class_names.drop_first(), name),
        }
    }
}

/// The completions behind the colon of an enum item in short.
pub open spec fn enum_shorthand_items(
    db: ReflectionView,
    class_names: Seq<Seq<char>>,
    property_name: Seq<char>,
) -> Seq<CompletionItemView> {
    match enum_override(property_name) {
        Some(enum_name) => enum_variant_items(db, enum_name),
        None => match shorthand_enum(db, class_names, property_name) {
            Some(enum_name) => enum_variant_items(db, enum_name),
            None => Seq::empty(),
        },
    }
}

fn items_of(names: &Vec<String>, kind: CompletionItemKind) -> (r: Vec<CompletionItem>)
    ensures
        r.deep_view() == plain_items(names.deep_view(), kind),
{
    let ghost goal = plain_items(names.deep_view(), kind);
    let mut out: Vec<CompletionItem> = Vec::new();
    let mut i: usize = 0;
    while i < names.len()
        invariant
            i <= names@.len(),
            goal == plain_items(names.deep_view(), kind),
            out.deep_view() == goal.take(i as int),
        decreases names@.len() - i,
    {
        let item = CompletionItem::plain(names[i].as_str(), kind);
        assert(item.deep_view() == goal[i as int]);
        let ghost before = out;
        out.push(item);
        proof {
            completion::lemma_push_view(before, item, out);
        }
        assert(goal.take(i + 1) =~= goal.take(i as int).push(goal[i as int]));
        i += 1;
    }
    assert(goal.take(i as int) =~= goal);
    out
}

/// The completions of an enum's name, by the enums of `db`.
pub fn enum_name_completions(db: &Reflection) -> (r: Vec<CompletionItem>)
    ensures
        r.deep_view() == enum_name_items(db.deep_view()),
{
    let ghost goal = enum_name_items(db.deep_view());
    let mut out: Vec<CompletionItem> = Vec::new();
    let mut i: usize = 0;
    while i < db.enums.len()
        invariant
            i <= db.enums@.len(),
            goal == enum_name_items(db.deep_view()),
            out.deep_view() == goal.take(i as int),
        decreases db.enums@.len() - i,
    {
        let item = CompletionItem::plain(db.enums[i].name.as_str(), CompletionItemKind::Enum);
        assert(db.deep_view().enums[i as int] == db.enums@[i as int].deep_view());
        assert(item.deep_view() == goal[i as int]);
        let ghost before = out;
        out.push(item);
        proof {
            completion::lemma_push_view(before, item, out);
        }
        assert(goal.take(i + 1) =~= goal.take(i as int).push(goal[i as int]));
        i += 1;
    }
    assert(goal.take(i as int) =~= goal);
    out
}

/// The completions of an enum's items, by the enums of `db`.
pub fn enum_variant_completions(enum_name: &str, db: &Reflection) -> (r: Vec<CompletionItem>)
    ensures
        r.deep_view() == enum_variant_items(db.deep_view(), enum_name@),
{
    match db.enum_named(enum_name) {
        Some(found) => items_of(&found.items, CompletionItemKind::EnumMember),
        None => {
            let none = no_items();
            assert(none.deep_view() =~= enum_variant_items(db.deep_view(), enum_name@));
            none
        },
    }
}

fn find_inherited_enum<'b>(ancestors: &Vec<&'b Class>, name: &str) -> (r: Option<&'b str>)
    ensures
        r.deep_view() == inherited_enum(ancestors.deep_view(), name@),
{
    let ghost views = ancestors.deep_view();
    let ghost goal = inherited_enum(views, name@);
    let mut i: usize = 0;
    assert(views.skip(0) =~= views);
    while i < ancestors.len()
        invariant
            i <= ancestors@.len(),
            views == ancestors.deep_view(),
            goal == inherited_enum(views, name@),
            goal == inherited_enum(views.skip(i as int), name@),
        decreases ancestors@.len() - i,
    {
        assert(views.skip(i as int)[0] == ancestors@[i as int].deep_view());
        assert(views.skip(i as int).drop_first() =~= views.skip(i + 1));
        if let Some(property) = ancestors[i].property(name) {
            if let PropertyType::Enum(enum_name) = &property.data_type {
                return Some(enum_name.as_str());
            }
        }
        i += 1;
    }
    None
}

/// The completions behind the colon of an enum item in short, by the classes and enums of
/// `db`.
pub fn enum_shorthand_completions(
    class_names: &Vec<String>,
    property_name: &str,
    db: &Reflection,
) -> (r: Vec<CompletionItem>)
    ensures
        r.deep_view() == enum_shorthand_items(
            db.deep_view(),
            definitions::names_view(class_names@),
            property_name@,
        ),
{
    if str_eq(property_name, "FlexMode") {
        return enum_variant_completions("UIFlexMode", db);
    }
    if str_eq(property_name, "HorizontalFlex") || str_eq(property_name, "VerticalFlex") {
        return enum_variant_completions("UIFlexAlignment", db);
    }
    let ghost names = definitions::names_view(class_names@);
    let ghost goal = shorthand_enum(db.deep_view(), names, property_name@);
    let mut i: usize = 0;
    assert(names.skip(0) =~= names);
    while i < class_names.len()
        invariant
            i <= class_names@.len(),
            names == definitions::names_view(class_names@),
            enum_override(property_name@) is None,
            goal == shorthand_enum(db.deep_view(), names, property_name@),
            goal == shorthand_enum(db.deep_view(), names.skip(i as int), property_name@),
        decreases class_names@.len() - i,
    {
        assert(names.skip(i as int)[0] == class_names@[i as int]@);
        assert(names.skip(i as int).drop_first() =~= names.skip(i + 1));
        let ancestors = db.lineage(class_names[i].as_str());
        if let Some(enum_name) = find_inherited_enum(&ancestors, property_name) {
            return enum_variant_completions(enum_name, db);
        }
        i += 1;
    }
    no_items()
}

/// Whether one of the properties has the given name.
pub open spec fn has_name(properties: Seq<PropertyView>, name: Seq<char>) -> bool {
    exists|i: int| 0 <= i < properties.len() && (#[trigger] properties[i]).name == name
}

/// The properties with those of `more` that can be set and whose names are new.
pub open spec fn with_properties(seen: Seq<PropertyView>, more: Seq<PropertyView>) -> Seq<
    PropertyView,
>
    decreases more.len(),
{
    if more.len() == 0 {
        seen
    } else {
        let before = with_properties(seen, more.drop_last());
        if lookup::is_settable(more.last()) && !has_name(before, more.last().name) {
            before.push(more.last())
        } else {
            before
        }
    }
}

/// The properties that can be set on a class with the given lineage. One that a class
/// declares anew stands for the inherited one.
pub open spec fn offered(ancestors: Seq<ClassView>) -> Seq<PropertyView>
    decreases ancestors.len(),
{
    if ancestors.len() == 0 {
        Seq::empty()
    } else {
        with_properties(offered(ancestors.drop_last()), ancestors.last().properties)
    }
}

/// The properties of each of the classes that are known.
pub open spec fn property_sets(db: ReflectionView, class_names: Seq<Seq<char>>) -> Seq<
    Seq<PropertyView>,
>
    decreases class_names.len(),
{
    if class_names.len() == 0 {
        Seq::empty()
    } else {
        let before = property_sets(db, class_names.drop_last());
        if db.has_class(class_names.last()) {
            before.push(offered(db.lineage(class_names.last())))
        } else {
            before
        }
    }
}

/// Whether all of the classes have a property of the given name.
pub open spec fn in_all(sets: Seq<Seq<PropertyView>>, name: Seq<char>) -> bool {
    forall|k: int| 0 <= k < sets.len() ==> has_name(#[trigger] sets[k], name)
}

/// The properties whose names all of the classes have.
pub open spec fn common(properties: Seq<PropertyView>, sets: Seq<Seq<PropertyView>>) -> Seq<
    PropertyView,
>
    decreases properties.len(),
{
    if properties.len() == 0 {
        Seq::empty()
    } else {
        let before = common(properties.drop_last(), sets);
        if in_all(sets, properties.last().name) {
            before.push(properties.last())
        } else {
            before
        }
    }
}

/// The properties that can be set on everything that a rule selects.
pub open spec fn common_properties(db: ReflectionView, class_names: Seq<Seq<char>>) -> Seq<
    PropertyView,
> {
    let sets = property_sets(db, class_names);
    if sets.len() == 0 {
        Seq::empty()
    } else {
        common(sets[0], sets)
    }
}

/// The item of a property, with its type.
pub open spec fn property_item(property: PropertyView) -> CompletionItemView {
    CompletionItemView {
        detail: Some(
            match property.data_type {
                PropertyTypeView::Value(value_type) => value_type,
                PropertyTypeView::Enum(enum_name) => "Enum."@ + enum_name,
                PropertyTypeView::Other => ""@,
            },
        ),
        ..completion::plain_item(property.name, CompletionItemKind::Property)
    }
}

/// The completions in the body of a rule that selects the given classes.
pub open spec fn property_items(db: ReflectionView, class_names: Seq<Seq<char>>) -> Seq<
    CompletionItemView,
> {
    let properties = common_properties(db, class_names);
    Seq::new(properties.len(), |i: int| property_item(properties[i]))
}

fn has_property(properties: &Vec<&Property>, name: &str) -> (r: bool)
    ensures
        r == has_name(properties.deep_view(), name@),
{
    let ghost views = properties.deep_view();
    let mut i: usize = 0;
    while i < properties.len()
        invariant
            i <= properties@.len(),
            views == properties.deep_view(),
            forall|j: int| 0 <= j < i ==> (#[trigger] views[j]).name != name@,
        decreases properties@.len() - i,
    {
        if str_eq(properties[i].name.as_str(), name) {
            assert(views[i as int].name == name@);
            return true;
        }
        assert(views[i as int].name != name@);
        i += 1;
    }
    false
}

fn collect_offered<'b>(ancestors: &Vec<&'b Class>) -> (r: Vec<&'b Property>)
    ensures
        r.deep_view() == offered(ancestors.deep_view()),
{
    let ghost views = ancestors.deep_view();
    let mut out: Vec<&'b Property> = Vec::new();
    assert(views.take(0) =~= Seq::empty());
    assert(out.deep_view() =~= Seq::empty());
    let mut i: usize = 0;
    while i < ancestors.len()
        invariant
            i <= ancestors@.len(),
            views == ancestors.deep_view(),
            out.deep_view() == offered(views.take(i as int)),
        decreases ancestors@.len() - i,
    {
        let class: &'b Class = ancestors[i];
        let ghost seen = out.deep_view();
        let ghost more = class.deep_view().properties;
        assert(views.take(i + 1).drop_last() =~= views.take(i as int));
        assert(views.take(i + 1).last() == class.deep_view());
        assert(more.take(0) =~= Seq::empty());
        let mut k: usize = 0;
        while k < class.properties.len()
            invariant
                k <= class.properties@.len(),
                more == class.deep_view().properties,
                out.deep_view() == with_properties(seen, more.take(k as int)),
            decreases class.properties@.len() - k,
        {
            let property: &'b Property = &class.properties[k];
            assert(more.take(k + 1).drop_last() =~= more.take(k as int));
            assert(more.take(k + 1).last() == property.deep_view());
            if !property.is_alias && !property.is_hidden && !has_property(
                &out,
                property.name.as_str(),
            ) {
                let ghost before = out;
                out.push(property);
                proof {
                    completion::lemma_push_view(before, property, out);
                }
            }
            k += 1;
        }
        assert(more.take(k as int) =~= more);
        i += 1;
    }
    assert(views.take(i as int) =~= views);
    out
}

fn in_every_set(sets: &Vec<Vec<&Property>>, name: &str) -> (r: bool)
    ensures
        r == in_all(sets.deep_view(), name@),
{
    let ghost views = sets.deep_view();
    let mut i: usize = 0;
    while i < sets.len()
        invariant
            i <= sets@.len(),
            views == sets.deep_view(),
            forall|j: int| 0 <= j < i ==> has_name(#[trigger] views[j], name@),
        decreases sets@.len() - i,
    {
        assert(views[i as int] == sets@[i as int].deep_view());
        if !has_property(&sets[i], name) {
            assert(!has_name(views[i as int], name@));
            return false;
        }
        i += 1;
    }
    true
}

fn property_completion(property: &Property) -> (r: CompletionItem)
    ensures
        r.deep_view() == property_item(property.deep_view()),
{
    let mut item = CompletionItem::plain(property.name.as_str(), CompletionItemKind::Property);
    item.detail = Some(
        match &property.data_type {
            PropertyType::Value(value_type) => value_type.clone(),
            PropertyType::Enum(enum_name) => join2("Enum.", enum_name.as_str()),
            PropertyType::Other => "".to_owned(),
        },
    );
    item
}

fn collect_sets<'b>(class_names: &Vec<String>, db: &'b Reflection) -> (r: Vec<Vec<&'b Property>>)
    ensures
        r.deep_view() == property_sets(db.deep_view(), definitions::names_view(class_names@)),
{
    let ghost names = definitions::names_view(class_names@);
    let mut sets: Vec<Vec<&'b Property>> = Vec::new();
    assert(names.take(0) =~= Seq::empty());
    assert(sets.deep_view() =~= Seq::empty());
    let mut i: usize = 0;
    while i < class_names.len()
        invariant
            i <= class_names@.len(),
            names == definitions::names_view(class_names@),
            sets.deep_view() == property_sets(db.deep_view(), names.take(i as int)),
        decreases class_names@.len() - i,
    {
        assert(names.take(i + 1).drop_last() =~= names.take(i as int));
        assert(names.take(i + 1).last() == class_names@[i as int]@);
        if db.has_class(class_names[i].as_str()) {
            let ancestors = db.lineage(class_names[i].as_str());
            let set = collect_offered(&ancestors);
            let ghost before = sets;
            sets.push(set);
            proof {
                completion::lemma_push_view(before, set, sets);
            }
        }
        i += 1;
    }
    assert(names.take(i as int) =~= names);
    sets
}

/// The completions in the body of a rule that selects the given classes, by the classes of
/// `db`.
pub fn property_completions(class_names: &Vec<String>, db: &Reflection) -> (r: Vec<CompletionItem>)
    ensures
        r.deep_view() == property_items(db.deep_view(), definitions::names_view(class_names@)),
{
    let ghost names = definitions::names_view(class_names@);
    let ghost goal = property_items(db.deep_view(), names);
    let sets = collect_sets(class_names, db);
    if sets.len() == 0 {
        let none = no_items();
        assert(none.deep_view() =~= goal);
        return none;
    }
    let ghost first = sets.deep_view()[0];
    let ghost all = sets.deep_view();
    let mut out: Vec<CompletionItem> = Vec::new();
    let mut i: usize = 0;
    assert(first.take(0) =~= Seq::empty());
    while i < sets[0].len()
        invariant
            sets@.len() > 0,
            i <= sets@[0]@.len(),
            all == sets.deep_view(),
            first == sets@[0].deep_view(),
            ({
                let so_far = common(first.take(i as int), all);
                out.deep_view() == Seq::new(so_far.len(), |j: int| property_item(so_far[j]))
            }),
        decreases sets@[0]@.len() - i,
    {
        let property = sets[0][i];
        let ghost so_far = common(first.take(i as int), all);
        assert(first.take(i + 1).drop_last() =~= first.take(i as int));
        assert(first.take(i + 1).last() == property.deep_view());
        if in_every_set(&sets, property.name.as_str()) {
            let item = property_completion(property);
            let ghost before = out;
            out.push(item);
            proof {
                completion::lemma_push_view(before, item, out);
                let next = so_far.push(property.deep_view());
                assert(out.deep_view() =~= Seq::new(next.len(), |j: int| property_item(next[j])));
            }
        }
        i += 1;
    }
    assert(first.take(i as int) =~= first);
    out
}

/// The completions of an enum's name, by the enums that the machine has.
pub fn get_enum_name_completions() -> (r: Vec<CompletionItem>)
    ensures
        exists|db: ReflectionView|
            db.is_keyed() && r.deep_view() == #[trigger] enum_name_items(db),
{
    let db = Reflection::load_or_empty();
    enum_name_completions(&db)
}

/// The completions of an enum's items, by the enums that the machine has.
pub fn get_enum_variant_completions(enum_name: &str) -> (r: Vec<CompletionItem>)
    ensures
        exists|db: ReflectionView|
            db.is_keyed() && r.deep_view() == #[trigger] enum_variant_items(db, enum_name@),
{
    let db = Reflection::load_or_empty();
    enum_variant_completions(enum_name, &db)
}

/// The completions behind the colon of an enum item in short, by the classes and enums that
/// the machine has.
pub fn get_enum_shorthand_completions(class_names: &Vec<String>, property_name: &str) -> (r: Vec<
    CompletionItem,
>)
    ensures
        exists|db: ReflectionView|
            db.is_keyed() && r.deep_view() == #[trigger] enum_shorthand_items(
                db,
                definitions::names_view(class_names@),
                property_name@,
            ),
{
    let db = Reflection::load_or_empty();
    enum_shorthand_completions(class_names, property_name, &db)
}

/// The completions in the body of a rule that selects the given classes, by the classes that
/// the machine has.
pub fn get_property_completions(class_names: &Vec<String>) -> (r: Vec<CompletionItem>)
    ensures
        exists|db: ReflectionView|
            db.is_keyed() && r.deep_view() == #[trigger] property_items(db, definitions::names_view(class_names@)),
{
    let db = Reflection::load_or_empty();
    property_completions(class_names, &db)
}

/// Whether no two of the properties have the same name.
pub open spec fn has_distinct_names(properties: Seq<PropertyView>) -> bool {
    forall|i: int, j: int|
        0 <= i < j < properties.len() ==> (#[trigger] properties[i]).name != (
        #[trigger] properties[j]).name
}

/// Whether no class declares a property twice.
pub open spec fn has_distinct_properties(classes: Seq<ClassView>) -> bool {
    forall|i: int|
        0 <= i < classes.len() ==> has_distinct_names((#[trigger] classes[i]).properties)
}

proof fn lemma_with_properties(seen: Seq<PropertyView>, more: Seq<PropertyView>)
    requires
        has_distinct_names(seen),
        forall|i: int| 0 <= i < seen.len() ==> lookup::is_settable(#[trigger] seen[i]),
    ensures
        ({
            let after = with_properties(seen, more);
            &&& has_distinct_names(after)
            &&& forall|i: int| 0 <= i < after.len() ==> lookup::is_settable(#[trigger] after[i])
            &&& seen.len() <= after.len()
            &&& forall|i: int| 0 <= i < seen.len() ==> #[trigger] after[i] == seen[i]
        }),
    decreases more.len(),
{
    if more.len() > 0 {
        lemma_with_properties(seen, more.drop_last());
        let before = with_properties(seen, more.drop_last());
        if lookup::is_settable(more.last()) && !has_name(before, more.last().name) {
            assert forall|i: int, j: int|
                0 <= i < j < before.push(more.last()).len() implies (
            #[trigger] before.push(more.last())[i]).name != (
            #[trigger] before.push(more.last())[j]).name by {
                if j == before.len() {
                    assert(before[i].name != more.last().name);
                }
            }
        }
    }
}

/// Each property that can be set on a class is offered once, and only such properties are.
pub proof fn lemma_offered_once(ancestors: Seq<ClassView>)
    ensures
        has_distinct_names(offered(ancestors)),
        forall|i: int|
            0 <= i < offered(ancestors).len() ==> lookup::is_settable(
                #[trigger] offered(ancestors)[i],
            ),
    decreases ancestors.len(),
{
    if ancestors.len() > 0 {
        lemma_offered_once(ancestors.drop_last());
        lemma_with_properties(offered(ancestors.drop_last()), ancestors.last().properties);
    }
}

proof fn lemma_property_named(properties: Seq<PropertyView>, name: Seq<char>)
    ensures
        match reflection::property_named(properties, name) {
            Some(property) => property.name == name && properties.contains(property),
            None => !has_name(properties, name),
        },
    decreases properties.len(),
{
    if properties.len() > 0 {
        if properties[0].name == name {
            assert(properties.contains(properties[0]));
        } else {
            let rest = properties.drop_first();
            lemma_property_named(rest, name);
            match reflection::property_named(rest, name) {
                Some(property) => {
                    let i = choose|i: int| 0 <= i < rest.len() && rest[i] == property;
                    assert(properties[i + 1] == property);
                },
                None => {
                    assert forall|i: int| 0 <= i < properties.len() implies (
                    #[trigger] properties[i]).name != name by {
                        if i > 0 {
                            assert(rest[i - 1].name != name);
                        }
                    }
                },
            }
        }
    }
}

proof fn lemma_inherited_push(ancestors: Seq<ClassView>, name: Seq<char>)
    requires
        ancestors.len() > 0,
    ensures
        lookup::inherited_property(ancestors, name) == (match lookup::inherited_property(
            ancestors.drop_last(),
            name,
        ) {
            Some(property) => Some(property),
            None => lookup::inherited_property(seq![ancestors.last()], name),
        }),
    decreases ancestors.len(),
{
    if ancestors.len() == 1 {
        assert(ancestors =~= seq![ancestors.last()]);
        assert(ancestors.drop_last() =~= Seq::empty());
    } else {
        lemma_inherited_push(ancestors.drop_first(), name);
        assert(ancestors.drop_first().drop_last() =~= ancestors.drop_last().drop_first());
        assert(ancestors.drop_first().last() == ancestors.last());
    }
}

/// What the properties of one class add under a name: its settable property of that name,
/// where the name is new.
proof fn lemma_added_property(seen: Seq<PropertyView>, more: Seq<PropertyView>, name: Seq<char>)
    requires
        has_distinct_names(more),
        has_distinct_names(seen),
        forall|i: int| 0 <= i < seen.len() ==> lookup::is_settable(#[trigger] seen[i]),
    ensures
        ({
            let after = with_properties(seen, more);
            &&& has_name(seen, name) ==> has_name(after, name)
            &&& has_name(after, name) ==> has_name(seen, name) || exists|j: int|
                0 <= j < more.len() && (#[trigger] more[j]).name == name && lookup::is_settable(
                    more[j],
                ) && after.contains(more[j])
            &&& forall|j: int|
                0 <= j < more.len() && (#[trigger] more[j]).name == name && lookup::is_settable(
                    more[j],
                ) ==> has_name(after, name)
        }),
    decreases more.len(),
{
    if more.len() > 0 {
        let shorter = more.drop_last();
        lemma_with_properties(seen, shorter);
        lemma_added_property(seen, shorter, name);
        let before = with_properties(seen, shorter);
        let after = with_properties(seen, more);
        lemma_with_properties(seen, more);
        if has_name(before, name) {
            let i = choose|i: int| 0 <= i < before.len() && (#[trigger] before[i]).name == name;
            assert(after[i].name == name);
            if !has_name(seen, name) {
                let j = choose|j: int|
                    0 <= j < shorter.len() && (#[trigger] shorter[j]).name == name
                        && lookup::is_settable(shorter[j]) && before.contains(shorter[j]);
                assert(more[j] == shorter[j]);
                let k = choose|k: int| 0 <= k < before.len() && before[k] == shorter[j];
                assert(after[k] == shorter[j]);
            }
        } else {
            assert forall|j: int|
                0 <= j < more.len() && (#[trigger] more[j]).name == name && lookup::is_settable(
                    more[j],
                ) implies has_name(after, name) by {
                if j < shorter.len() {
                    assert(shorter[j] == more[j]);
                } else {
                    assert(after[before.len() as int].name == name);
                }
            }
            if has_name(after, name) {
                let i = choose|i: int| 0 <= i < after.len() && (#[trigger] after[i]).name == name;
                assert(i == before.len());
                assert(more[more.len() - 1] == after[i]);
            }
        }
    } else {
        assert(with_properties(seen, more) == seen);
    }
}

/// A property is offered exactly where looking it up finds it.
pub proof fn lemma_offered_is_inherited(ancestors: Seq<ClassView>, name: Seq<char>)
    requires
        has_distinct_properties(ancestors),
    ensures
        has_name(offered(ancestors), name) <==> lookup::inherited_property(
            ancestors,
            name,
        ) is Some,
        forall|i: int|
            0 <= i < offered(ancestors).len() && (#[trigger] offered(ancestors)[i]).name == name
                ==> lookup::inherited_property(ancestors, name) == Some(offered(ancestors)[i]),
    decreases ancestors.len(),
{
    if ancestors.len() > 0 {
        let shorter = ancestors.drop_last();
        let more = ancestors.last().properties;
        assert(has_distinct_properties(shorter)) by {
            assert forall|i: int| 0 <= i < shorter.len() implies has_distinct_names(
                (#[trigger] shorter[i]).properties,
            ) by {
                assert(shorter[i] == ancestors[i]);
            }
        }
        assert(has_distinct_names(more)) by {
            assert(ancestors[ancestors.len() - 1].properties == more);
        }
        lemma_offered_is_inherited(shorter, name);
        lemma_offered_once(shorter);
        lemma_offered_once(ancestors);
        lemma_inherited_push(ancestors, name);
        lemma_added_property(offered(shorter), more, name);
        lemma_with_properties(offered(shorter), more);
        lemma_property_named(more, name);
        let seen = offered(shorter);
        let after = offered(ancestors);
        let own = reflection::property_named(more, name);
        reveal_with_fuel(lookup::inherited_property, 2);
        assert(seq![ancestors.last()][0] == ancestors.last());
        assert(seq![ancestors.last()].drop_first() =~= Seq::empty());
        if has_name(seen, name) {
            let i = choose|i: int| 0 <= i < seen.len() && (#[trigger] seen[i]).name == name;
            assert(after[i] == seen[i]);
        } else {
            if own is Some {
                let j = choose|j: int| 0 <= j < more.len() && more[j] == own->0;
                assert(more[j].name == name);
                if has_name(after, name) {
                    let k = choose|k: int|
                        0 <= k < more.len() && (#[trigger] more[k]).name == name
                            && lookup::is_settable(more[k]) && after.contains(more[k]);
                    assert(k == j);
                    let m = choose|m: int| 0 <= m < after.len() && after[m] == more[k];
                    assert(after[m].name == name);
                }
            } else if has_name(after, name) {
                let k = choose|k: int|
                    0 <= k < more.len() && (#[trigger] more[k]).name == name
                        && lookup::is_settable(more[k]) && after.contains(more[k]);
                assert(more[k].name == name);
            }
        }
    }
}

proof fn lemma_common(properties: Seq<PropertyView>, sets: Seq<Seq<PropertyView>>, name: Seq<char>)
    ensures
        has_name(common(properties, sets), name) <==> has_name(properties, name) && in_all(
            sets,
            name,
        ),
    decreases properties.len(),
{
    if properties.len() > 0 {
        let shorter = properties.drop_last();
        let before = common(shorter, sets);
        let after = common(properties, sets);
        lemma_common(shorter, sets, name);
        if has_name(before, name) {
            let i = choose|i: int| 0 <= i < before.len() && (#[trigger] before[i]).name == name;
            assert(after[i].name == name);
            let j = choose|j: int| 0 <= j < shorter.len() && (#[trigger] shorter[j]).name == name;
            assert(properties[j].name == name);
        }
        if has_name(after, name) && !has_name(before, name) {
            let i = choose|i: int| 0 <= i < after.len() && (#[trigger] after[i]).name == name;
            assert(i == before.len());
            assert(properties[properties.len() - 1].name == name);
        }
        if has_name(properties, name) && in_all(sets, name) {
            let j = choose|j: int|
                0 <= j < properties.len() && (#[trigger] properties[j]).name == name;
            if j < shorter.len() {
                assert(shorter[j].name == name);
            } else {
                assert(after[before.len() as int].name == name);
            }
        }
    }
}

proof fn lemma_property_sets(db: ReflectionView, class_names: Seq<Seq<char>>, name: Seq<char>)
    ensures
        in_all(property_sets(db, class_names), name) <==> (forall|i: int|
            0 <= i < class_names.len() && db.has_class(#[trigger] class_names[i]) ==> has_name(
                offered(db.lineage(class_names[i])),
                name,
            )),
        property_sets(db, class_names).len() > 0 <==> (exists|i: int|
            0 <= i < class_names.len() && db.has_class(#[trigger] class_names[i])),
    decreases class_names.len(),
{
    if class_names.len() > 0 {
        let shorter = class_names.drop_last();
        lemma_property_sets(db, shorter, name);
        let before = property_sets(db, shorter);
        let after = property_sets(db, class_names);
        let last = class_names.len() - 1;
        assert forall|i: int| 0 <= i < shorter.len() implies shorter[i] == class_names[i] by {}
        if in_all(after, name) {
            assert forall|k: int| 0 <= k < before.len() implies has_name(
                #[trigger] before[k],
                name,
            ) by {
                assert(after[k] == before[k]);
            }
            assert forall|i: int|
                0 <= i < class_names.len() && db.has_class(#[trigger] class_names[i]) implies has_name(
                offered(db.lineage(class_names[i])),
                name,
            ) by {
                if i < last {
                    assert(shorter[i] == class_names[i]);
                } else {
                    assert(has_name(after[before.len() as int], name));
                }
            }
        }
        if forall|i: int|
            0 <= i < class_names.len() && db.has_class(#[trigger] class_names[i]) ==> has_name(
                offered(db.lineage(class_names[i])),
                name,
            ) {
            assert forall|i: int|
                0 <= i < shorter.len() && db.has_class(#[trigger] shorter[i]) implies has_name(
                offered(db.lineage(shorter[i])),
                name,
            ) by {
                assert(class_names[i] == shorter[i]);
            }
            assert(in_all(before, name));
            assert forall|k: int| 0 <= k < after.len() implies has_name(
                #[trigger] after[k],
                name,
            ) by {
                if k < before.len() {
                    assert(after[k] == before[k]);
                } else {
                    assert(db.has_class(class_names[last]));
                }
            }
        }
        if before.len() > 0 {
            let i = choose|i: int| 0 <= i < shorter.len() && db.has_class(#[trigger] shorter[i]);
            assert(class_names[i] == shorter[i]);
        }
        if exists|i: int| 0 <= i < class_names.len() && db.has_class(#[trigger] class_names[i]) {
            let i = choose|i: int|
                0 <= i < class_names.len() && db.has_class(#[trigger] class_names[i]);
            if i < last {
                assert(shorter[i] == class_names[i]);
            }
        }
        if db.has_class(class_names[last]) {
            assert(after.len() > 0);
        }
    }
}

proof fn lemma_class_named(classes: Seq<ClassView>, name: Seq<char>)
    ensures
        match reflection::class_named(classes, name) {
            Some(class) => classes.contains(class),
            None => true,
        },
    decreases classes.len(),
{
    if classes.len() > 0 && classes[0].name != name {
        lemma_class_named(classes.drop_first(), name);
        match reflection::class_named(classes.drop_first(), name) {
            Some(class) => {
                let i = choose|i: int|
                    0 <= i < classes.drop_first().len() && classes.drop_first()[i] == class;
                assert(classes[i + 1] == class);
            },
            None => {},
        }
    }
}

proof fn lemma_lineage_is_distinct(classes: Seq<ClassView>, name: Seq<char>, limit: nat)
    requires
        has_distinct_properties(classes),
    ensures
        has_distinct_properties(reflection::lineage(classes, name, limit)),
    decreases limit,
{
    if limit > 0 {
        lemma_class_named(classes, name);
        match reflection::class_named(classes, name) {
            Some(class) => {
                let k = choose|k: int| 0 <= k < classes.len() && classes[k] == class;
                assert(has_distinct_names(classes[k].properties));
                match class.superclass {
                    Some(superclass) => {
                        lemma_lineage_is_distinct(classes, superclass, (limit - 1) as nat);
                        let rest = reflection::lineage(classes, superclass, (limit - 1) as nat);
                        let all = seq![class] + rest;
                        assert forall|i: int| 0 <= i < all.len() implies has_distinct_names(
                            (#[trigger] all[i]).properties,
                        ) by {
                            if i > 0 {
                                assert(all[i] == rest[i - 1]);
                            }
                        }
                    },
                    None => {},
                }
            },
            None => {},
        }
    }
}

/// In the body of a rule exactly those properties are completed that can be set on every
/// known class that the rule selects.
pub proof fn lemma_completed_properties_are_common(
    db: ReflectionView,
    class_names: Seq<Seq<char>>,
    name: Seq<char>,
)
    requires
        has_distinct_properties(db.classes),
    ensures
        has_name(common_properties(db, class_names), name) <==> {
            &&& exists|i: int| 0 <= i < class_names.len() && db.has_class(#[trigger] class_names[i])
            &&& forall|i: int|
                0 <= i < class_names.len() && db.has_class(#[trigger] class_names[i])
                    ==> lookup::inherited_property(db.lineage(class_names[i]), name) is Some
        },
{
    let sets = property_sets(db, class_names);
    lemma_property_sets(db, class_names, name);
    if sets.len() > 0 {
        lemma_common(sets[0], sets, name);
    }
    assert forall|i: int| 0 <= i < class_names.len() implies (has_name(
        offered(db.lineage(#[trigger] class_names[i])),
        name,
    ) <==> lookup::inherited_property(db.lineage(class_names[i]), name) is Some) by {
        lemma_lineage_is_distinct(db.classes, class_names[i], db.classes.len());
        lemma_offered_is_inherited(db.lineage(class_names[i]), name);
    }
}

} // verus!
