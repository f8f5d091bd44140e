//! The completions of properties and enums.

use rsml_lsp::autocomplete::properties::{
    enum_shorthand_completions, enum_variant_completions as variants_in, get_enum_name_completions,
    get_enum_shorthand_completions, get_enum_variant_completions, get_property_completions,
    property_completions,
};
use rsml_lsp::completion::CompletionItemKind;
use rsml_lsp::reflection::{Class, EnumClass, Property, PropertyType, Reflection};

#[test]
fn completions_for_frame_include_size() {
    let items = get_property_completions(&vec!["Frame".to_string()]);
    let labels: Vec<&str> = items.iter().map(|item| item.label.as_str()).collect();
    assert!(labels.contains(&"Size"));
    assert!(labels.contains(&"BackgroundColor3"));
    assert!(labels.contains(&"Name"));
}

#[test]
fn completions_have_property_kind() {
    let items = get_property_completions(&vec!["Frame".to_string()]);
    assert!(
        items
            .iter()
            .all(|item| item.kind == Some(CompletionItemKind::Property))
    );
}

#[test]
fn completions_intersection_for_union_types() {
    let frame_items = get_property_completions(&vec!["Frame".to_string()]);
    let union_items =
        get_property_completions(&vec!["Frame".to_string(), "TextButton".to_string()]);
    assert!(union_items.len() <= frame_items.len());
    let union_labels: Vec<&str> = union_items.iter().map(|item| item.label.as_str()).collect();
    assert!(union_labels.contains(&"Name"));
}

#[test]
fn completions_empty_for_unknown_class() {
    let items = get_property_completions(&vec!["NotARealClass".to_string()]);
    assert!(items.is_empty());
}

#[test]
fn completions_empty_for_empty_input() {
    let items = get_property_completions(&vec![]);
    assert!(items.is_empty());
}

#[test]
fn enum_name_completions_not_empty() {
    let items = get_enum_name_completions();
    assert!(!items.is_empty());
    assert!(
        items
            .iter()
            .all(|item| item.kind == Some(CompletionItemKind::Enum))
    );
    let labels: Vec<&str> = items.iter().map(|item| item.label.as_str()).collect();
    assert!(labels.contains(&"AutomaticSize"));
}

#[test]
fn enum_variant_completions() {
    let items = get_enum_variant_completions("AutomaticSize");
    assert!(!items.is_empty());
    assert!(
        items
            .iter()
            .all(|item| item.kind == Some(CompletionItemKind::EnumMember))
    );
    let labels: Vec<&str> = items.iter().map(|item| item.label.as_str()).collect();
    assert!(labels.contains(&"XY"));
}

#[test]
fn enum_variant_completions_unknown_enum() {
    let items = get_enum_variant_completions("NotAnEnum");
    assert!(items.is_empty());
}

#[test]
fn enum_shorthand_infers_from_property() {
    let items = get_enum_shorthand_completions(&vec!["Frame".to_string()], "AutomaticSize");
    assert!(!items.is_empty());
    let labels: Vec<&str> = items.iter().map(|item| item.label.as_str()).collect();
    assert!(labels.contains(&"XY"));
}

#[test]
fn enum_shorthand_override_flex_mode() {
    let items = get_enum_shorthand_completions(&vec!["UIFlexItem".to_string()], "FlexMode");
    assert!(!items.is_empty());
    // Should use UIFlexMode enum, not FlexMode
    let items_from_override = get_enum_variant_completions("UIFlexMode");
    assert_eq!(items.len(), items_from_override.len());
}

#[test]
fn enum_shorthand_scale_type_on_image_label() {
    let items = get_enum_shorthand_completions(&vec!["ImageLabel".to_string()], "ScaleType");
    assert!(
        !items.is_empty(),
        "ScaleType enum shorthand should return variants for ImageLabel"
    );
}

#[test]
fn enum_shorthand_non_enum_property_returns_empty() {
    let items = get_enum_shorthand_completions(&vec!["Frame".to_string()], "Size");
    assert!(items.is_empty());
}

#[test]
fn enum_shorthand_unknown_property_returns_empty() {
    let items = get_enum_shorthand_completions(&vec!["Frame".to_string()], "NotARealProperty");
    assert!(items.is_empty());
}

fn property(name: &str, is_alias: bool, is_hidden: bool, data_type: PropertyType) -> Property {
    Property { name: name.to_string(), is_alias, is_hidden, data_type }
}

fn class(name: &str, superclass: Option<&str>, properties: Vec<Property>) -> Class {
    Class {
        name: name.to_string(),
        superclass: superclass.map(|name| name.to_string()),
        properties,
    }
}

fn number() -> PropertyType {
    PropertyType::Value("Float32".to_string())
}

fn small_database() -> Reflection {
    Reflection {
        classes: vec![
            class(
                "Base",
                None,
                vec![
                    property("Name", false, false, PropertyType::Value("String".to_string())),
                    property("Mode", false, false, PropertyType::Enum("Kind".to_string())),
                    property("Old", true, false, number()),
                    property("Hidden", false, true, number()),
                ],
            ),
            class(
                "A",
                Some("Base"),
                vec![property("Size", false, false, number()), property("Name", false, false, number())],
            ),
            class(
                "B",
                Some("Base"),
                vec![property("Size", false, false, number()), property("Other", false, false, PropertyType::Other)],
            ),
        ],
        enums: vec![
            EnumClass { name: "Kind".to_string(), items: vec!["X".to_string(), "Y".to_string()] },
            EnumClass { name: "UIFlexMode".to_string(), items: vec!["Fill".to_string()] },
        ],
    }
}

fn completed(class_names: &[&str]) -> Vec<(String, String)> {
    let names: Vec<String> = class_names.iter().map(|name| name.to_string()).collect();
    property_completions(&names, &small_database())
        .into_iter()
        .map(|item| (item.label, item.detail.unwrap_or_default()))
        .collect()
}

fn pair(label: &str, detail: &str) -> (String, String) {
    (label.to_string(), detail.to_string())
}

#[test]
fn own_property_stands_for_the_inherited_one() {
    assert_eq!(
        completed(&["A"]),
        vec![pair("Size", "Float32"), pair("Name", "Float32"), pair("Mode", "Enum.Kind")]
    );
}

#[test]
fn only_common_properties_are_completed() {
    assert_eq!(
        completed(&["B", "A"]),
        vec![pair("Size", "Float32"), pair("Name", "String"), pair("Mode", "Enum.Kind")]
    );
    assert_eq!(completed(&["B"])[1], pair("Other", ""));
}

#[test]
fn unknown_classes_are_passed_over() {
    assert_eq!(completed(&["Unknown", "A"]), completed(&["A"]));
}

#[test]
fn shorthand_override_comes_before_the_property() {
    let db = small_database();
    let items = enum_shorthand_completions(&vec![], "FlexMode", &db);
    assert_eq!(items.len(), 1);
    assert_eq!(items[0].label, "Fill");
    let items = enum_shorthand_completions(&vec!["A".to_string()], "Mode", &db);
    assert_eq!(items.len(), 2);
    assert_eq!(items[1].label, "Y");
    assert!(enum_shorthand_completions(&vec!["A".to_string()], "HorizontalFlex", &db).is_empty());
    assert!(variants_in("Missing", &db).is_empty());
}

#[test]
fn lineage_that_runs_in_circles_ends() {
    let db = Reflection {
        classes: vec![
            class("A", Some("B"), vec![property("One", false, false, number())]),
            class("B", Some("A"), vec![property("Two", false, false, number())]),
        ],
        enums: vec![],
    };
    let items = property_completions(&vec!["A".to_string()], &db);
    assert_eq!(items.len(), 2);
}

// The database

#[test]
fn database_needs_classes_and_enums() {
    let class = || Class { name: "A".to_string(), superclass: None, properties: Vec::new() };
    let enum_class = || EnumClass { name: "E".to_string(), items: vec!["x".to_string()] };
    let db = Reflection::from_parts(Some(vec![class()]), Some(vec![enum_class()])).unwrap();
    assert_eq!(db.classes[0].name, "A");
    assert_eq!(db.enums[0].items, vec!["x".to_string()]);
    assert!(Reflection::from_parts(None, Some(vec![enum_class()])).is_none());
    assert!(Reflection::from_parts(Some(vec![class()]), None).is_none());
    assert_eq!(Reflection::or_empty(Some(db)).classes.len(), 1);
    let empty = Reflection::or_empty(None);
    assert!(empty.classes.is_empty() && empty.enums.is_empty());
}

#[test]
fn loaded_names_come_once() {
    let db = Reflection::load().expect("the reflection database cannot be read");
    let mut names: Vec<&str> = db.classes.iter().map(|class| class.name.as_str()).collect();
    let count = names.len();
    names.sort();
    names.dedup();
    assert!(count > 0 && names.len() == count);
    for class in &db.classes {
        let mut names: Vec<&str> = class.properties.iter().map(|p| p.name.as_str()).collect();
        names.sort();
        names.dedup();
        assert_eq!(names.len(), class.properties.len());
    }
    let style = db.enum_named("EasingStyle").expect("the enum is missing");
    assert!(style.items.contains(&"Linear".to_string()));
    assert_eq!(db.enums.iter().filter(|e| e.name == "EasingStyle").count(), 1);
}
