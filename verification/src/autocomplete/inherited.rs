//! Where a property comes from.

use super::lookup;
use crate::reflection;
use crate::reflection::{ClassView, PropertyTypeView, PropertyView, ReflectionView};
use vstd::prelude::*;

verus! {

/// Whether a class has a property of that name that can be set: one that is no alias and that
/// is not hidden.
pub open spec fn offers(class: ClassView, name: Seq<char>, property: PropertyView) -> bool {
    &&& reflection::property_named(class.properties, name) == Some(property)
    &&& !property.is_alias
    &&& !property.is_hidden
}

pub open spec fn offers_none(class: ClassView, name: Seq<char>) -> bool {
    forall|property: PropertyView| !#[trigger] offers(class, name, property)
}

/// Whether the nearest of the classes that has the property, from the first on, is the one at
/// `i`.
pub open spec fn is_nearest(
    ancestors: Seq<ClassView>,
    name: Seq<char>,
    i: int,
    property: PropertyView,
) -> bool {
    &&& 0 <= i < ancestors.len()
    &&& offers(ancestors[i], name, property)
    &&& forall|j: int| 0 <= j < i ==> offers_none(#[trigger] ancestors[j], name)
}

/// A class has a property from the nearest of its ancestors, itself the first of them, that has
/// it and lets it be set, and has none where no ancestor does.
pub proof fn lemma_nearest_is_inherited(ancestors: Seq<ClassView>, name: Seq<char>)
    ensures
        forall|i: int, property: PropertyView| #[trigger]
            is_nearest(ancestors, name, i, property) ==> lookup::inherited_property(
                ancestors,
                name,
            ) == Some(property),
        (forall|i: int| 0 <= i < ancestors.len() ==> offers_none(#[trigger] ancestors[i], name))
            <==> lookup::inherited_property(ancestors, name) is None,
    decreases ancestors.len(),
{
    if ancestors.len() > 0 {
        let rest = ancestors.drop_first();
        lemma_nearest_is_inherited(rest, name);
        let found = reflection::property_named(ancestors[0].properties, name);
        if found is Some && lookup::is_settable(found->0) {
            assert(offers(ancestors[0], name, found->0));
            assert(!offers_none(ancestors[0], name));
            assert forall|i: int, property: PropertyView| #[trigger]
                is_nearest(ancestors, name, i, property) implies lookup::inherited_property(
                ancestors,
                name,
            ) == Some(property) by {
                if i > 0 {
                    assert(offers_none(ancestors[0], name));
                }
            }
        } else {
            assert(offers_none(ancestors[0], name));
            assert forall|i: int, property: PropertyView| #[trigger]
                is_nearest(ancestors, name, i, property) implies lookup::inherited_property(
                ancestors,
                name,
            ) == Some(property) by {
                if i == 0 {
                    assert(offers(ancestors[0], name, property));
                } else {
                    assert(rest[i - 1] == ancestors[i]);
                    assert forall|j: int| 0 <= j < i - 1 implies offers_none(
                        #[trigger] rest[j],
                        name,
                    ) by {
                        assert(rest[j] == ancestors[j + 1]);
                    }
                    assert(is_nearest(rest, name, i - 1, property));
                }
            }
            if forall|i: int|
                0 <= i < ancestors.len() ==> offers_none(#[trigger] ancestors[i], name) {
                assert forall|i: int| 0 <= i < rest.len() implies offers_none(
                    #[trigger] rest[i],
                    name,
                ) by {
                    assert(rest[i] == ancestors[i + 1]);
                }
            }
            if forall|i: int| 0 <= i < rest.len() ==> offers_none(#[trigger] rest[i], name) {
                assert forall|i: int| 0 <= i < ancestors.len() implies offers_none(
                    #[trigger] ancestors[i],
                    name,
                ) by {
                    if i > 0 {
                        assert(rest[i - 1] == ancestors[i]);
                    }
                }
            }
        }
    }
}

/// Of several classes, the property is that of the first that has or inherits it.
pub proof fn lemma_first_class_decides(
    db: ReflectionView,
    classes: Seq<Seq<char>>,
    name: Seq<char>,
    i: int,
)
    requires
        0 <= i <= classes.len(),
        forall|j: int|
            0 <= j < i ==> lookup::inherited_property(
                db.lineage(#[trigger] classes[j]),
                name,
            ) is None,
    ensures
        i < classes.len() && lookup::inherited_property(db.lineage(classes[i]), name) is Some
            ==> lookup::descriptor(db, classes, name) == lookup::inherited_property(
            db.lineage(classes[i]),
            name,
        ),
        i == classes.len() ==> lookup::descriptor(db, classes, name) is None,
    decreases i,
{
    if i > 0 {
        let rest = classes.drop_first();
        assert(lookup::inherited_property(db.lineage(classes[0]), name) is None);
        assert forall|j: int| 0 <= j < i - 1 implies lookup::inherited_property(
            db.lineage(#[trigger] rest[j]),
            name,
        ) is None by {
            assert(rest[j] == classes[j + 1]);
        }
        lemma_first_class_decides(db, rest, name, i - 1);
        if i < classes.len() {
            assert(rest[i - 1] == classes[i]);
        }
    }
}

/// The enum of a property is the one that the property's type names; a property of another
/// type has none.
pub proof fn lemma_enum_is_the_type(
    db: ReflectionView,
    classes: Seq<Seq<char>>,
    name: Seq<char>,
    property: PropertyView,
)
    requires
        lookup::descriptor(db, classes, name) == Some(property),
    ensures
        forall|enum_name: Seq<char>|
            lookup::enum_of_property(db, classes, name) == Some(enum_name) <==> property.data_type
                == PropertyTypeView::Enum(enum_name),
{
}

} // verus!
