//! The classes and enums of the engine, as plain values.

use crate::strings::str_eq;
use rbx_reflection::{DataType, PropertyKind, Scriptability};
use vstd::prelude::*;

verus! {

/// The type of a property.
#[derive(Debug)]
pub enum PropertyType {
    /// A value, with the name of its type.
    Value(String),
    /// An item of an enum, with the enum's name.
    Enum(String),
    Other,
}

#[derive(Debug)]
pub struct Property {
    pub name: String,
    /// Whether the property is another name for one.
    pub is_alias: bool,
    /// Whether scripts cannot reach the property.
    pub is_hidden: bool,
    pub data_type: PropertyType,
}

#[derive(Debug)]
pub struct Class {
    pub name: String,
    pub superclass: Option<String>,
    pub properties: Vec<Property>,
}

#[derive(Debug)]
pub struct EnumClass {
    pub name: String,
    pub items: Vec<String>,
}

#[derive(Debug)]
pub struct Reflection {
    pub classes: Vec<Class>,
    pub enums: Vec<EnumClass>,
}

/// What a [`PropertyType`] holds.
pub enum PropertyTypeView {
    Value(Seq<char>),
    Enum(Seq<char>),
    Other,
}

/// What a [`Property`] holds.
pub struct PropertyView {
    pub name: Seq<char>,
    pub is_alias: bool,
    pub is_hidden: bool,
    pub data_type: PropertyTypeView,
}

/// What a [`Class`] holds.
pub struct ClassView {
    pub name: Seq<char>,
    pub superclass: Option<Seq<char>>,
    pub properties: Seq<PropertyView>,
}

/// What an [`EnumClass`] holds.
pub struct EnumClassView {
    pub name: Seq<char>,
    pub items: Seq<Seq<char>>,
}

/// What a [`Reflection`] holds.
pub struct ReflectionView {
    pub classes: Seq<ClassView>,
    pub enums: Seq<EnumClassView>,
}

impl DeepView for PropertyType {
    type V = PropertyTypeView;

    open spec fn deep_view(&self) -> PropertyTypeView {
        match self {
            PropertyType::Value(name) => PropertyTypeView::Value(name@),
            PropertyType::Enum(name) => PropertyTypeView::Enum(name@),
            PropertyType::Other => PropertyTypeView::Other,
        }
    }
}

impl DeepView for Property {
    type V = PropertyView;

    open spec fn deep_view(&self) -> PropertyView {
        PropertyView {
            name: self.name@,
            is_alias: self.is_alias,
            is_hidden: self.is_hidden,
            data_type: self.data_type.deep_view(),
        }
    }
}

impl DeepView for Class {
    type V = ClassView;

    open spec fn deep_view(&self) -> ClassView {
        ClassView {
            name: self.name@,
            superclass: self.superclass.deep_view(),
            properties: self.properties.deep_view(),
        }
    }
}

impl DeepView for EnumClass {
    type V = EnumClassView;

    open spec fn deep_view(&self) -> EnumClassView {
        EnumClassView { name: self.name@, items: self.items.deep_view() }
    }
}

impl DeepView for Reflection {
    type V = ReflectionView;

    open spec fn deep_view(&self) -> ReflectionView {
        ReflectionView { classes: self.classes.deep_view(), enums: self.enums.deep_view() }
    }
}

/// The first class with the given name.
pub open spec fn class_named(classes: Seq<ClassView>, name: Seq<char>) -> Option<ClassView>
    decreases classes.len(),
{
    if classes.len() == 0 {
        None
    } else if classes[0].name == name {
        Some(classes[0])
    } else {
        class_named(classes.drop_first(), name)
    }
}

/// The first enum with the given name.
pub open spec fn enum_named(enums: Seq<EnumClassView>, name: Seq<char>) -> Option<EnumClassView>
    decreases enums.len(),
{
    if enums.len() == 0 {
        None
    } else if enums[0].name == name {
        Some(enums[0])
    } else {
        enum_named(enums.drop_first(), name)
    }
}

/// A class and the classes that it descends from, nearest first; `limit` of them at most.
pub open spec fn lineage(classes: Seq<ClassView>, name: Seq<char>, limit: nat) -> Seq<ClassView>
    decreases limit,
{
    if limit == 0 {
        Seq::empty()
    } else {
        match class_named(classes, name) {
            Some(class) => match class.superclass {
                Some(superclass) => seq![class] + lineage(classes, superclass, (limit - 1) as nat),
                None => seq![class],
            },
            None => Seq::empty(),
        }
    }
}

impl ReflectionView {
    /// Whether there is a class with the given name.
    pub open spec fn has_class(self, name: Seq<char>) -> bool {
        class_named(self.classes, name) is Some
    }

    /// A class and the classes that it descends from. None occurs more often than there are
    /// classes.
    pub open spec fn lineage(self, name: Seq<char>) -> Seq<ClassView> {
        lineage(self.classes, name, self.classes.len())
    }
}

/// The first property of the given name.
pub open spec fn property_named(properties: Seq<PropertyView>, name: Seq<char>) -> Option<
    PropertyView,
>
    decreases properties.len(),
{
    if properties.len() == 0 {
        None
    } else if properties[0].name == name {
        Some(properties[0])
    } else {
        property_named(properties.drop_first(), name)
    }
}

/// Whether no two properties have the same name.
pub open spec fn properties_differ(properties: Seq<PropertyView>) -> bool {
    forall|i: int, j: int|
        0 <= i < j < properties.len() ==> (#[trigger] properties[i]).name != (
        #[trigger] properties[j]).name
}

/// Whether no two classes have the same name, nor two properties of one class.
pub open spec fn classes_differ(classes: Seq<ClassView>) -> bool {
    &&& forall|i: int, j: int|
        0 <= i < j < classes.len() ==> (#[trigger] classes[i]).name != (
        #[trigger] classes[j]).name
    &&& forall|i: int|
        0 <= i < classes.len() ==> properties_differ((#[trigger] classes[i]).properties)
}

/// Whether no two enums have the same name, nor two items of one enum.
pub open spec fn enums_differ(enums: Seq<EnumClassView>) -> bool {
    &&& forall|i: int, j: int|
        0 <= i < j < enums.len() ==> (#[trigger] enums[i]).name != (#[trigger] enums[j]).name
    &&& forall|i: int| 0 <= i < enums.len() ==> (#[trigger] enums[i]).items.no_duplicates()
}

impl ReflectionView {
    /// Whether each class, property, enum and item goes by a name of its own.
    pub open spec fn is_keyed(self) -> bool {
        classes_differ(self.classes) && enums_differ(self.enums)
    }
}

/// Calls `rbx_reflection_database::get` and copies out the classes of the database, each
/// under the name by which the database knows it. The database keeps classes, and the
/// properties of a class, in maps by name, so no name comes twice. What else it gives
/// depends on the machine; nothing where no database could be read.
#[verifier::external_body]
fn load_classes() -> (r: Option<Vec<Class>>)
    ensures
        r matches Some(classes) ==> classes_differ(classes.deep_view()),
{
    let db = rbx_reflection_database::get().ok()?;
    Some(db.classes.iter().map(|(name, class)| Class {
        name: name.to_string(),
        superclass: class.superclass.as_ref().map(ToString::to_string),
        properties: class.properties.iter().map(|(name, p)| Property {
            name: name.to_string(),
            is_alias: matches!(p.kind, PropertyKind::Alias { .. }),
            is_hidden: matches!(p.scriptability, Scriptability::None),
            data_type: match &p.data_type {
                DataType::Value(value) => PropertyType::Value(format!("{:?}", value)),
                DataType::Enum(name) => PropertyType::Enum(name.to_string()),
                _ => PropertyType::Other,
            } }).collect() }).collect())
}

/// Calls `rbx_reflection_database::get` and copies out the enums of the database, each under
/// the name by which the database knows it. The database keeps enums, and the items of an
/// enum, in maps by name, so no name comes twice. What else it gives depends on the machine;
/// nothing where no database could be read.
#[verifier::external_body]
fn load_enums() -> (r: Option<Vec<EnumClass>>)
    ensures
        r matches Some(enums) ==> enums_differ(enums.deep_view()),
{
    let db = rbx_reflection_database::get().ok()?;
    Some(
        db.enums.iter().map(
            |(name, e)| EnumClass {
                name: name.to_string(),
                items: e.items.keys().map(|item| item.to_string()).collect(),
            },
        ).collect(),
    )
}

proof fn lemma_class_skips(classes: Seq<ClassView>, name: Seq<char>, n: int)
    requires
        0 <= n <= classes.len(),
        forall|j: int| 0 <= j < n ==> (#[trigger] classes[j]).name != name,
    ensures
        class_named(classes, name) == class_named(classes.skip(n), name),
    decreases n,
{
    if n == 0 {
        assert(classes.skip(0) =~= classes);
    } else {
        assert forall|j: int| 0 <= j < n - 1 implies (
        #[trigger] classes.drop_first()[j]).name != name by {
            assert(classes[j + 1].name != name);
        }
        lemma_class_skips(classes.drop_first(), name, n - 1);
        assert(classes.drop_first().skip(n - 1) =~= classes.skip(n));
    }
}

proof fn lemma_enum_skips(enums: Seq<EnumClassView>, name: Seq<char>, n: int)
    requires
        0 <= n <= enums.len(),
        forall|j: int| 0 <= j < n ==> (#[trigger] enums[j]).name != name,
    ensures
        enum_named(enums, name) == enum_named(enums.skip(n), name),
    decreases n,
{
    if n == 0 {
        assert(enums.skip(0) =~= enums);
    } else {
        assert forall|j: int| 0 <= j < n - 1 implies (
        #[trigger] enums.drop_first()[j]).name != name by {
            assert(enums[j + 1].name != name);
        }
        lemma_enum_skips(enums.drop_first(), name, n - 1);
        assert(enums.drop_first().skip(n - 1) =~= enums.skip(n));
    }
}

proof fn lemma_property_skips(properties: Seq<PropertyView>, name: Seq<char>, n: int)
    requires
        0 <= n <= properties.len(),
        forall|j: int| 0 <= j < n ==> (#[trigger] properties[j]).name != name,
    ensures
        property_named(properties, name) == property_named(properties.skip(n), name),
    decreases n,
{
    if n == 0 {
        assert(properties.skip(0) =~= properties);
    } else {
        assert forall|j: int| 0 <= j < n - 1 implies (
        #[trigger] properties.drop_first()[j]).name != name by {
            assert(properties[j + 1].name != name);
        }
        lemma_property_skips(properties.drop_first(), name, n - 1);
        assert(properties.drop_first().skip(n - 1) =~= properties.skip(n));
    }
}

impl Class {
    /// Finds a property of the class itself.
    pub fn property(&self, name: &str) -> (r: Option<&Property>)
        ensures
            r.deep_view() == property_named(self.deep_view().properties, name@),
    {
        let ghost view = self.deep_view().properties;
        let mut i: usize = 0;
        while i < self.properties.len()
            invariant
                i <= self.properties@.len(),
                view == self.deep_view().properties,
                forall|j: int| 0 <= j < i ==> (#[trigger] view[j]).name != name@,
            decreases self.properties@.len() - i,
        {
            if str_eq(self.properties[i].name.as_str(), name) {
                proof {
                    lemma_property_skips(view, name@, i as int);
                    assert(view.skip(i as int)[0] == view[i as int]);
                }
                return Some(&self.properties[i]);
            }
            assert(view[i as int].name != name@);
            i += 1;
        }
        proof {
            lemma_property_skips(view, name@, i as int);
        }
        None
    }
}

impl Reflection {
    /// The database of the given classes and enums, where both could be read.
    pub fn from_parts(classes: Option<Vec<Class>>, enums: Option<Vec<EnumClass>>) -> (r: Option<
        Reflection,
    >)
        ensures
            r.deep_view() == match (classes, enums) {
                (Some(classes), Some(enums)) => Some(
                    ReflectionView { classes: classes.deep_view(), enums: enums.deep_view() },
                ),
                _ => None,
            },
    {
        match (classes, enums) {
            (Some(classes), Some(enums)) => Some(Reflection { classes, enums }),
            _ => None,
        }
    }

    /// The database at hand, or an empty one.
    pub fn or_empty(db: Option<Reflection>) -> (r: Reflection)
        ensures
            match db {
                Some(db) => r == db,
                None => r.deep_view() == (ReflectionView {
                    classes: Seq::empty(),
                    enums: Seq::empty(),
                }),
            },
    {
        match db {
            Some(db) => db,
            None => {
                let r = Reflection { classes: Vec::new(), enums: Vec::new() };
                assert(r.deep_view().classes =~= Seq::empty());
                assert(r.deep_view().enums =~= Seq::empty());
                r
            },
        }
    }

    /// Reads the database that the machine has. What is read goes by names of its own; which
    /// classes and enums there are, and whether they can be read, depends on the machine.
    pub fn load() -> (r: Option<Reflection>)
        ensures
            r matches Some(db) ==> db.deep_view().is_keyed(),
    {
        Reflection::from_parts(load_classes(), load_enums())
    }

    /// Reads the database that the machine has; it is empty where it cannot be read.
    pub fn load_or_empty() -> (r: Reflection)
        ensures
            r.deep_view().is_keyed(),
    {
        Reflection::or_empty(Reflection::load())
    }

    pub fn class_named(&self, name: &str) -> (r: Option<&Class>)
        ensures
            r.deep_view() == class_named(self.deep_view().classes, name@),
    {
        let ghost view = self.deep_view().classes;
        let mut i: usize = 0;
        while i < self.classes.len()
            invariant
                i <= self.classes@.len(),
                view == self.deep_view().classes,
                forall|j: int| 0 <= j < i ==> (#[trigger] view[j]).name != name@,
            decreases self.classes@.len() - i,
        {
            if str_eq(self.classes[i].name.as_str(), name) {
                proof {
                    lemma_class_skips(view, name@, i as int);
                    assert(view.skip(i as int)[0] == view[i as int]);
                }
                return Some(&self.classes[i]);
            }
            assert(view[i as int].name != name@);
            i += 1;
        }
        proof {
            lemma_class_skips(view, name@, i as int);
        }
        None
    }

    pub fn has_class(&self, name: &str) -> (r: bool)
        ensures
            r == self.deep_view().has_class(name@),
    {
        self.class_named(name).is_some()
    }

    pub fn enum_named(&self, name: &str) -> (r: Option<&EnumClass>)
        ensures
            r.deep_view() == enum_named(self.deep_view().enums, name@),
    {
        let ghost view = self.deep_view().enums;
        let mut i: usize = 0;
        while i < self.enums.len()
            invariant
                i <= self.enums@.len(),
                view == self.deep_view().enums,
                forall|j: int| 0 <= j < i ==> (#[trigger] view[j]).name != name@,
            decreases self.enums@.len() - i,
        {
            if str_eq(self.enums[i].name.as_str(), name) {
                proof {
                    lemma_enum_skips(view, name@, i as int);
                    assert(view.skip(i as int)[0] == view[i as int]);
                }
                return Some(&self.enums[i]);
            }
            assert(view[i as int].name != name@);
            i += 1;
        }
        proof {
            lemma_enum_skips(view, name@, i as int);
        }
        None
    }

    /// A class and the classes that it descends from, nearest first.
    pub fn lineage<'b>(&'b self, name: &str) -> (r: Vec<&'b Class>)
        ensures
            r.deep_view() == self.deep_view().lineage(name@),
    {
        let ghost classes = self.deep_view().classes;
        let ghost goal = self.deep_view().lineage(name@);
        let mut out: Vec<&'b Class> = Vec::new();
        let mut current: Option<&'b Class> = self.class_named(name);
        let mut limit: usize = self.classes.len();
        let ghost mut rest: Seq<char> = name@;
        assert(out.deep_view() + lineage(classes, rest, limit as nat) =~= goal);
        while limit > 0
            invariant
                classes == self.deep_view().classes,
                goal == self.deep_view().lineage(name@),
                goal == out.deep_view() + (if current is Some {
                    lineage(classes, rest, limit as nat)
                } else {
                    Seq::empty()
                }),
                current is Some ==> class_named(classes, rest) == Some(current->0.deep_view()),
            decreases limit,
        {
            let class = match current {
                Some(class) => class,
                None => {
                    assert(goal =~= out.deep_view());
                    return out;
                },
            };
            let ghost before = out;
            out.push(class);
            limit -= 1;
            assert(out.deep_view() =~= before.deep_view().push(class.deep_view()));
            match &class.superclass {
                Some(superclass) => {
                    current = self.class_named(superclass.as_str());
                    proof {
                        rest = superclass@;
                        if current is None {
                            assert(class_named(classes, rest) is None);
                            assert(lineage(classes, rest, limit as nat) =~= Seq::empty());
                        }
                    }
                    assert(goal =~= out.deep_view() + lineage(classes, rest, limit as nat));
                },
                None => {
                    current = None;
                    assert(goal =~= out.deep_view());
                },
            }
        }
        assert(goal =~= out.deep_view());
        out
    }
}

} // verus!
