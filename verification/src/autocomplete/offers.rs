//! What is offered for the value of a property.

use super::lookup;
use super::prefix;
use super::prefix::PrefixView;
use super::properties;
use super::values;
use super::values::PaletteView;
use crate::completion::CompletionItemKind;
use crate::reflection;
use crate::reflection::{ClassView, PropertyTypeView, ReflectionView};
use vstd::prelude::*;

verus! {

/// The start of a word is where the characters in front of the cursor stop being ones of a word:
/// all between are, and the one in front of it is not.
pub proof fn lemma_word_is_longest(text: Seq<char>, end: int)
    requires
        0 <= end <= text.len(),
    ensures
        ({
            let start = prefix::word_start(text, end);
            &&& 0 <= start <= end
            &&& forall|i: int| start <= i < end ==> prefix::is_word(#[trigger] text[i])
            &&& start > 0 ==> !prefix::is_word(text[start - 1])
        }),
    decreases end,
{
    if end > 0 && prefix::is_word(text[end - 1]) {
        lemma_word_is_longest(text, end - 1);
    }
}

/// For a property with an enum, a value of which nothing is typed is offered each item of the
/// enum twice: in short, with a colon in front of what is offered behind a colon, and in full.
/// Both name the item in full.
pub proof fn lemma_enum_items_are_offered(
    db: ReflectionView,
    classes: Seq<Seq<char>>,
    name: Seq<char>,
    enum_name: Seq<char>,
    palette: PaletteView,
)
    requires
        lookup::enum_of_property(db, classes, name) == Some(enum_name),
    ensures
        ({
            let items = lookup::items_of_enum(db, enum_name);
            let n = items.len() as int;
            let fresh = values::value_items(PrefixView::Fresh, classes, name, db, palette);
            let behind = values::value_items(
                PrefixView::EnumShorthand,
                classes,
                name,
                db,
                palette,
            );
            &&& fresh.len() == 2 * n
            &&& behind.len() == n
            &&& forall|i: int|
                0 <= i < n ==> {
                    &&& (#[trigger] behind[i]).label == items[i]
                    &&& fresh[i].label == ":"@ + behind[i].label
                    &&& fresh[i].insert_text == Some(fresh[i].label)
                    &&& behind[i].insert_text is None
                    &&& fresh[n + i].label == "Enum."@ + enum_name + "."@ + items[i]
                    &&& fresh[n + i].insert_text == Some(fresh[n + i].label)
                    &&& fresh[i].detail == Some(fresh[n + i].label)
                    &&& behind[i].detail == Some(fresh[n + i].label)
                    &&& fresh[i].kind == Some(CompletionItemKind::EnumMember)
                    &&& fresh[n + i].kind == Some(CompletionItemKind::EnumMember)
                    &&& behind[i].kind == Some(CompletionItemKind::EnumMember)
                }
        }),
{
}

/// The enum that a class names for a property, where its type is one.
pub open spec fn names_enum(class: ClassView, name: Seq<char>, enum_name: Seq<char>) -> bool {
    reflection::property_named(class.properties, name) matches Some(property)
        && property.data_type == PropertyTypeView::Enum(enum_name)
}

pub open spec fn names_no_enum(class: ClassView, name: Seq<char>) -> bool {
    forall|enum_name: Seq<char>| !#[trigger] names_enum(class, name, enum_name)
}

/// The enum of an inherited property is that of the nearest class that names one.
pub proof fn lemma_nearest_names_enum(
    ancestors: Seq<ClassView>,
    name: Seq<char>,
    i: int,
    enum_name: Seq<char>,
)
    requires
        0 <= i < ancestors.len(),
        names_enum(ancestors[i], name, enum_name),
        forall|j: int| 0 <= j < i ==> names_no_enum(#[trigger] ancestors[j], name),
    ensures
        properties::inherited_enum(ancestors, name) == Some(enum_name),
    decreases i,
{
    if i > 0 {
        let rest = ancestors.drop_first();
        assert(names_no_enum(ancestors[0], name));
        if let Some(property) = reflection::property_named(ancestors[0].properties, name) {
            if let PropertyTypeView::Enum(other) = property.data_type {
                assert(names_enum(ancestors[0], name, other));
            }
        }
        assert(rest[i - 1] == ancestors[i]);
        assert forall|j: int| 0 <= j < i - 1 implies names_no_enum(#[trigger] rest[j], name) by {
            assert(rest[j] == ancestors[j + 1]);
        }
        lemma_nearest_names_enum(rest, name, i - 1, enum_name);
    }
}

/// Where no class names an enum there is none.
pub proof fn lemma_no_class_names_enum(ancestors: Seq<ClassView>, name: Seq<char>)
    requires
        forall|j: int| 0 <= j < ancestors.len() ==> names_no_enum(#[trigger] ancestors[j], name),
    ensures
        properties::inherited_enum(ancestors, name) is None,
    decreases ancestors.len(),
{
    if ancestors.len() > 0 {
        let rest = ancestors.drop_first();
        assert(names_no_enum(ancestors[0], name));
        if let Some(property) = reflection::property_named(ancestors[0].properties, name) {
            if let PropertyTypeView::Enum(other) = property.data_type {
                assert(names_enum(ancestors[0], name, other));
            }
        }
        assert forall|j: int| 0 <= j < rest.len() implies names_no_enum(
            #[trigger] rest[j],
            name,
        ) by {
            assert(rest[j] == ancestors[j + 1]);
        }
        lemma_no_class_names_enum(rest, name);
    }
}

/// Behind the colon of an enum item in short stand the items of the first enum that one of the
/// classes has or inherits for the property, each once and in order, where the property has no
/// enum of its own.
pub proof fn lemma_shorthand_is_of_first_class(
    db: ReflectionView,
    classes: Seq<Seq<char>>,
    name: Seq<char>,
    i: int,
    enum_name: Seq<char>,
)
    requires
        name != "FlexMode"@,
        name != "HorizontalFlex"@,
        name != "VerticalFlex"@,
        0 <= i < classes.len(),
        properties::inherited_enum(db.lineage(classes[i]), name) == Some(enum_name),
        forall|j: int|
            0 <= j < i ==> properties::inherited_enum(
                db.lineage(#[trigger] classes[j]),
                name,
            ) is None,
    ensures
        ({
            let items = lookup::items_of_enum(db, enum_name);
            let offered = properties::enum_shorthand_items(db, classes, name);
            &&& offered.len() == items.len()
            &&& forall|k: int|
                0 <= k < items.len() ==> (#[trigger] offered[k]).label == items[k]
                    && offered[k].kind == Some(CompletionItemKind::EnumMember)
        }),
{
    lemma_first_class(db, classes, name, i, enum_name);
}

proof fn lemma_first_class(
    db: ReflectionView,
    classes: Seq<Seq<char>>,
    name: Seq<char>,
    i: int,
    enum_name: Seq<char>,
)
    requires
        0 <= i < classes.len(),
        properties::inherited_enum(db.lineage(classes[i]), name) == Some(enum_name),
        forall|j: int|
            0 <= j < i ==> properties::inherited_enum(
                db.lineage(#[trigger] classes[j]),
                name,
            ) is None,
    ensures
        properties::shorthand_enum(db, classes, name) == Some(enum_name),
    decreases i,
{
    if i > 0 {
        let rest = classes.drop_first();
        assert(properties::inherited_enum(db.lineage(classes[0]), name) is None);
        assert(rest[i - 1] == classes[i]);
        assert forall|j: int| 0 <= j < i - 1 implies properties::inherited_enum(
            db.lineage(#[trigger] rest[j]),
            name,
        ) is None by {
            assert(rest[j] == classes[j + 1]);
        }
        lemma_first_class(db, rest, name, i - 1, enum_name);
    }
}

/// The flex properties take the items of the enums of flexible layouts, whatever the classes.
pub proof fn lemma_flex_enums(db: ReflectionView, classes: Seq<Seq<char>>, k: int)
    ensures
        ({
            let modes = lookup::items_of_enum(db, "UIFlexMode"@);
            let offered = properties::enum_shorthand_items(db, classes, "FlexMode"@);
            offered.len() == modes.len() && (0 <= k < modes.len() ==> offered[k].label == modes[k])
        }),
        ({
            let alignments = lookup::items_of_enum(db, "UIFlexAlignment"@);
            let offered = properties::enum_shorthand_items(db, classes, "HorizontalFlex"@);
            &&& offered == properties::enum_shorthand_items(db, classes, "VerticalFlex"@)
            &&& offered.len() == alignments.len()
            &&& 0 <= k < alignments.len() ==> offered[k].label == alignments[k]
        }),
{
    reveal_strlit("FlexMode");
    reveal_strlit("HorizontalFlex");
    reveal_strlit("VerticalFlex");
    assert("FlexMode"@.len() == 8 && "HorizontalFlex"@.len() == 14 && "VerticalFlex"@.len() == 12);
}

} // verus!
