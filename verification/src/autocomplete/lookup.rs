//! Looking up properties and enums.

use crate::completion;
use crate::reflection;
use crate::reflection::{
    Class, ClassView, Property, PropertyType, PropertyTypeView, PropertyView, Reflection, ReflectionView,
};
use crate::typechecker::definitions;
use vstd::prelude::*;

verus! {

/// Whether a property can be set: it stands for itself and scripts can reach it.
pub open spec fn is_settable(property: PropertyView) -> bool {
    !property.is_alias && !property.is_hidden
}

/// The property of the given name of the first class that has a settable one.
pub open spec fn inherited_property(ancestors: Seq<ClassView>, name: Seq<char>) -> Option<
    PropertyView,
>
    decreases ancestors.len(),
{
    if ancestors.len() == 0 {
        None
    } else {
        match reflection::property_named(ancestors[0].properties, name) {
            Some(property) => if is_settable(property) {
                Some(property)
            } else {
                inherited_property(ancestors.drop_first(), name)
            },
            None => inherited_property(ancestors.drop_first(), name),
        }
    }
}

/// The settable property of the given name of the first of the classes that has or inherits
/// one.
pub open spec fn descriptor(
    db: ReflectionView,
    class_names: Seq<Seq<char>>,
    name: Seq<char>,
) -> Option<PropertyView>
    decreases class_names.len(),
{
    if class_names.len() == 0 {
        None
    } else {
        match inherited_property(db.lineage(class_names[0]), name) {
            Some(property) => Some(property),
            None => descriptor(db, class_names.drop_first(), name),
        }
    }
}

/// The enum that a property takes its values from.
pub open spec fn enum_of_property(
    db: ReflectionView,
    class_names: Seq<Seq<char>>,
    name: Seq<char>,
) -> Option<Seq<char>> {
    match descriptor(db, class_names, name) {
        Some(property) => match property.data_type {
            PropertyTypeView::Enum(enum_name) => Some(enum_name),
            _ => None,
        },
        None => None,
    }
}

fn find_inherited<'b>(ancestors: &Vec<&'b Class>, name: &str) -> (r: Option<&'b Property>)
    ensures
        r.deep_view() == inherited_property(ancestors.deep_view(), name@),
{
    let ghost views = ancestors.deep_view();
    let ghost goal = inherited_property(views, name@);
    let mut i: usize = 0;
    assert(views.skip(0) =~= views);
    while i < ancestors.len()
        invariant
            i <= ancestors@.len(),
            views == ancestors.deep_view(),
            goal == inherited_property(views, name@),
            goal == inherited_property(views.skip(i as int), name@),
        decreases ancestors@.len() - i,
    {
        assert(views.skip(i as int)[0] == ancestors@[i as int].deep_view());
        assert(views.skip(i as int).drop_first() =~= views.skip(i + 1));
        if let Some(property) = ancestors[i].property(name) {
            if !property.is_alias && !property.is_hidden {
                return Some(property);
            }
        }
        i += 1;
    }
    None
}

/// Finds a settable property.
pub fn lookup_descriptor<'b>(
    db: &'b Reflection,
    class_names: &Vec<String>,
    property_name: &str,
) -> (r: Option<&'b Property>)
    ensures
        r.deep_view() == descriptor(
            db.deep_view(),
            definitions::names_view(class_names@),
            property_name@,
        ),
{
    let ghost names = definitions::names_view(class_names@);
    let ghost goal = descriptor(db.deep_view(), names, property_name@);
    let mut i: usize = 0;
    assert(names.skip(0) =~= names);
    while i < class_names.len()
        invariant
            i <= class_names@.len(),
            names == definitions::names_view(class_names@),
            goal == descriptor(db.deep_view(), names, property_name@),
            goal == descriptor(db.deep_view(), names.skip(i as int), property_name@),
        decreases class_names@.len() - i,
    {
        assert(names.skip(i as int)[0] == class_names@[i as int]@);
        assert(names.skip(i as int).drop_first() =~= names.skip(i + 1));
        let ancestors = db.lineage(class_names[i].as_str());
        if let Some(property) = find_inherited(&ancestors, property_name) {
            return Some(property);
        }
        i += 1;
    }
    None
}

/// The name of the enum that a property takes its values from.
pub fn enum_name_in(db: &Reflection, class_names: &Vec<String>, property_name: &str) -> (r: Option<
    String,
>)
    ensures
        r.deep_view() == enum_of_property(
            db.deep_view(),
            definitions::names_view(class_names@),
            property_name@,
        ),
{
    match lookup_descriptor(db, class_names, property_name) {
        Some(property) => match &property.data_type {
            PropertyType::Enum(enum_name) => Some(enum_name.clone()),
            _ => None,
        },
        None => None,
    }
}

/// The items of an enum; none where there is no such enum.
pub open spec fn items_of_enum(db: ReflectionView, enum_name: Seq<char>) -> Seq<Seq<char>> {
    match reflection::enum_named(db.enums, enum_name) {
        Some(found) => found.items,
        None => Seq::empty(),
    }
}

} // verus!
