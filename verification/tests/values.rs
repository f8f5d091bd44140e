//! The completions of values.

use rsml_lsp::autocomplete::prefix::{scan_value_prefix, ValuePrefix};
use rsml_lsp::autocomplete::values::{
    color_items, constructor_arg_defaults, get_value_completions, property_enum_name,
    value_completions, Palette,
};
use rsml_lsp::completion::{CompletionItem, CompletionItemKind, InsertTextFormat};
use rsml_lsp::reflection::{Class, EnumClass, Property, PropertyType, Reflection};

fn strings(names: &[&str]) -> Vec<String> {
    names.iter().map(|name| name.to_string()).collect()
}

fn palette() -> Palette {
    Palette {
        tailwind_families: strings(&["slate", "red", "amber"]),
        tailwind_shades: vec![
            ("red".to_string(), strings(&["50", "500", "950"])),
            ("amber".to_string(), strings(&["50", "500"])),
        ],
        skin_families: strings(&["rose"]),
        skin_shades: vec![("rose".to_string(), strings(&["50"]))],
        brick_names: strings(&["brown"]),
        css_names: strings(&["aliceblue", "tomato"]),
    }
}

fn labels(items: &[CompletionItem]) -> Vec<&str> {
    items.iter().map(|item| item.label.as_str()).collect()
}

#[test]
fn scan_fresh_after_equals() {
    let prefix = scan_value_prefix("Frame { Size = ", 15);
    assert!(matches!(prefix, ValuePrefix::Fresh));
}

#[test]
fn scan_tailwind_family_bare() {
    let prefix = scan_value_prefix("= tw:", 5);
    assert!(matches!(prefix, ValuePrefix::TailwindFamily { typed: "" }));
}

#[test]
fn scan_tailwind_family_partial_name() {
    let prefix = scan_value_prefix("= tw:re", 7);
    assert!(matches!(prefix, ValuePrefix::TailwindFamily { typed: "re" }));
}

#[test]
fn scan_tailwind_shade() {
    let prefix = scan_value_prefix("= tw:red:", 9);
    assert!(matches!(prefix, ValuePrefix::TailwindShade { family: "red" }));
}

#[test]
fn scan_css() {
    let prefix = scan_value_prefix("= css:", 6);
    assert!(matches!(prefix, ValuePrefix::CssFamily { typed: "" }));
}

#[test]
fn scan_brick() {
    let prefix = scan_value_prefix("= bc:", 5);
    assert!(matches!(prefix, ValuePrefix::BrickFamily { typed: "" }));
}

#[test]
fn scan_inside_constructor() {
    let prefix = scan_value_prefix("= udim2(", 8);
    assert!(matches!(prefix, ValuePrefix::InsideConstructor));
}

#[test]
fn value_completions_bool() {
    let items = get_value_completions("= ", 2, &vec!["Frame".to_string()], "Visible", &palette());
    let got = labels(&items);
    assert!(got.contains(&"true"));
    assert!(got.contains(&"false"));
}

#[test]
fn value_completions_udim2() {
    let items = get_value_completions("= ", 2, &vec!["Frame".to_string()], "Size", &palette());
    let got = labels(&items);
    assert!(got.iter().any(|label| label.starts_with("udim2")));
}

#[test]
fn constructor_insert_text_prefills_numeric_defaults() {
    let items = get_value_completions("= ", 2, &vec!["Frame".to_string()], "Size", &palette());
    let udim2 = items
        .iter()
        .find(|item| item.label.starts_with("udim2"))
        .expect("udim2 completion missing");

    let insert_text = udim2.insert_text.as_deref().unwrap_or("");
    assert_eq!(insert_text, "udim2 (${1:0}, ${2:0}, ${3:0}, ${4:0})$0");
}

#[test]
fn constructor_defaults_cover_every_tuple_annotation() {
    let expected: &[&str] = &[
        "udim", "udim2", "rect", "vec2", "vec2i16", "vec3", "vec3i16",
        "cframe", "color3", "rgb", "oklab", "oklch", "brickcolor",
        "colorseq", "numseq", "numrange", "font", "content", "lerp",
        "floor", "ceil", "round", "abs",
    ];

    for name in expected {
        assert!(
            constructor_arg_defaults(name).is_some(),
            "constructor_arg_defaults missing default for `{}`",
            name
        );
    }
}

#[test]
fn constructor_insert_text_prefills_string_defaults() {
    let items = get_value_completions(
        "= ",
        2,
        &vec!["Frame".to_string()],
        "BrickColor",
        &palette(),
    );
    let brickcolor = items
        .iter()
        .find(|item| item.label.starts_with("brickcolor"));

    if let Some(item) = brickcolor {
        let insert_text = item.insert_text.as_deref().unwrap_or("");
        assert_eq!(insert_text, "brickcolor (${1:\"\"})$0");
    }
}

#[test]
fn value_completions_color3_fresh_has_prefixes() {
    let items = get_value_completions(
        "= ",
        2,
        &vec!["Frame".to_string()],
        "BackgroundColor3",
        &palette(),
    );
    let got = labels(&items);
    assert!(got.contains(&"tw:"));
    assert!(got.contains(&"skin:"));
    assert!(got.contains(&"bc:"));
    assert!(got.contains(&"css:"));
    assert!(got.iter().any(|label| label.starts_with("color3")));
    assert!(got.iter().any(|label| label.starts_with("rgb")));
}

#[test]
fn tailwind_family_list_has_red() {
    let items = get_value_completions(
        "= tw:",
        5,
        &vec!["Frame".to_string()],
        "BackgroundColor3",
        &palette(),
    );
    assert!(labels(&items).contains(&"red"));
}

#[test]
fn tailwind_shade_list_has_500() {
    let items = get_value_completions(
        "= tw:red:",
        9,
        &vec!["Frame".to_string()],
        "BackgroundColor3",
        &palette(),
    );
    let got = labels(&items);
    assert!(got.contains(&"500"));
    assert!(!got.contains(&"red"));
}

#[test]
fn tailwind_family_item_inserts_trailing_colon_and_retriggers() {
    let items = get_value_completions(
        "= tw:",
        5,
        &vec!["Frame".to_string()],
        "BackgroundColor3",
        &palette(),
    );
    let red = items
        .iter()
        .find(|item| item.label == "red")
        .expect("red family missing");
    assert_eq!(red.insert_text.as_deref(), Some("red:"));
    assert_eq!(
        red.command.as_ref().map(|c| c.command.as_str()),
        Some("editor.action.triggerSuggest")
    );
}

#[test]
fn css_name_item_does_not_retrigger() {
    let items = get_value_completions(
        "= css:",
        6,
        &vec!["Frame".to_string()],
        "BackgroundColor3",
        &palette(),
    );
    let any = items.first().expect("css items missing");
    assert!(any.insert_text.is_none());
    assert!(any.command.is_none());
}

#[test]
fn color3_prefix_stubs_retrigger() {
    let items = get_value_completions(
        "= ",
        2,
        &vec!["Frame".to_string()],
        "BackgroundColor3",
        &palette(),
    );
    for prefix in ["tw:", "skin:", "bc:", "css:"] {
        let item = items
            .iter()
            .find(|item| item.label == prefix)
            .expect("prefix stub missing");
        assert_eq!(
            item.command.as_ref().map(|c| c.command.as_str()),
            Some("editor.action.triggerSuggest"),
            "{} stub should retrigger",
            prefix
        );
    }
}

#[test]
fn tw_amber_trailing_colon_returns_shades() {
    let items = get_value_completions(
        "= tw:amber:",
        11,
        &vec!["Frame".to_string()],
        "BackgroundColor3",
        &palette(),
    );
    let got = labels(&items);
    assert!(got.contains(&"500"));
    assert!(!got.contains(&"amber"));
}

#[test]
fn value_completions_enum_shorthand_items_have_colon_prefix() {
    let items = get_value_completions(
        "= ",
        2,
        &vec!["Frame".to_string()],
        "AutomaticSize",
        &palette(),
    );
    let shorthand: Vec<_> = items
        .iter()
        .filter(|item| !item.label.starts_with("Enum."))
        .collect();
    assert!(!shorthand.is_empty());
    assert!(shorthand.iter().all(|item| item.label.starts_with(':')));
    assert!(
        shorthand
            .iter()
            .all(|item| item.insert_text.as_deref().unwrap_or("").starts_with(':'))
    );
}

#[test]
fn value_completions_enum_includes_longform_items() {
    let items = get_value_completions(
        "= ",
        2,
        &vec!["Frame".to_string()],
        "AutomaticSize",
        &palette(),
    );
    let got = labels(&items);
    assert!(got.contains(&"Enum.AutomaticSize.X"));
    assert!(got.contains(&"Enum.AutomaticSize.Y"));
    assert!(got.contains(&":X"));
}

#[test]
fn value_completions_enum_longform_insert_matches_label() {
    let items = get_value_completions(
        "= ",
        2,
        &vec!["Frame".to_string()],
        "AutomaticSize",
        &palette(),
    );
    let longform: Vec<_> = items
        .iter()
        .filter(|item| item.label.starts_with("Enum."))
        .collect();
    assert!(!longform.is_empty());
    assert!(
        longform
            .iter()
            .all(|item| item.insert_text.as_deref() == Some(item.label.as_str()))
    );
}

#[test]
fn scan_enum_shorthand_bare_colon() {
    let prefix = scan_value_prefix("= :", 3);
    assert!(matches!(prefix, ValuePrefix::EnumShorthand));
}

#[test]
fn value_completions_post_colon_property_filtered() {
    let items = get_value_completions(
        "= :",
        3,
        &vec!["Frame".to_string()],
        "AutomaticSize",
        &palette(),
    );
    assert!(!items.is_empty());
    assert!(items.iter().all(|item| item.insert_text.is_none()));
    assert!(labels(&items).contains(&"X"));
}

#[test]
fn value_completions_post_colon_non_enum_returns_empty() {
    let items = get_value_completions(
        "= :",
        3,
        &vec!["Frame".to_string()],
        "BackgroundColor3",
        &palette(),
    );
    assert!(items.is_empty());
}

#[test]
fn value_completions_number_is_empty() {
    let items = get_value_completions(
        "= ",
        2,
        &vec!["Frame".to_string()],
        "BorderSizePixel",
        &palette(),
    );
    assert!(items.is_empty());
}

fn property(name: &str, is_alias: bool, is_hidden: bool, data_type: PropertyType) -> Property {
    Property { name: name.to_string(), is_alias, is_hidden, data_type }
}

fn small_database() -> Reflection {
    Reflection {
        classes: vec![
            Class {
                name: "Base".to_string(),
                superclass: None,
                properties: vec![
                    property("Mode", false, false, PropertyType::Enum("Kind".to_string())),
                    property("Visible", false, false, PropertyType::Value("Bool".to_string())),
                ],
            },
            Class {
                name: "Thing".to_string(),
                superclass: Some("Base".to_string()),
                properties: vec![
                    property("Size", false, false, PropertyType::Value("UDim2".to_string())),
                    property("Mode", true, false, PropertyType::Value("Bool".to_string())),
                    property("Secret", false, true, PropertyType::Value("Bool".to_string())),
                ],
            },
        ],
        enums: vec![EnumClass { name: "Kind".to_string(), items: strings(&["A", "B"]) }],
    }
}

fn complete(source: &str, property_name: &str) -> Vec<CompletionItem> {
    value_completions(
        source,
        source.len(),
        &strings(&["Thing"]),
        property_name,
        &small_database(),
        &palette(),
    )
}

#[test]
fn fresh_enum_value_lists_short_and_full_items() {
    let items = complete("Mode = ", "Mode");
    assert_eq!(labels(&items), vec![":A", ":B", "Enum.Kind.A", "Enum.Kind.B"]);
    assert_eq!(items[0].insert_text.as_deref(), Some(":A"));
    assert_eq!(items[0].detail.as_deref(), Some("Enum.Kind.A"));
    assert_eq!(items[3].insert_text.as_deref(), Some("Enum.Kind.B"));
    assert!(items.iter().all(|item| item.kind == Some(CompletionItemKind::EnumMember)));
}

#[test]
fn enum_value_behind_colon_lists_bare_items() {
    let items = complete("Mode = :", "Mode");
    assert_eq!(labels(&items), vec!["A", "B"]);
    assert!(items.iter().all(|item| item.insert_text.is_none()));
}

#[test]
fn inherited_bool_value_lists_keywords() {
    let items = complete("Visible = ", "Visible");
    assert_eq!(labels(&items), vec!["true", "false"]);
    assert_eq!(items[0].kind, Some(CompletionItemKind::Keyword));
}

#[test]
fn hidden_property_has_no_completions() {
    assert!(complete("Secret = ", "Secret").is_empty());
}

#[test]
fn constructor_item_is_a_snippet() {
    let items = complete("Size = ", "Size");
    assert_eq!(items.len(), 1);
    assert_eq!(items[0].label, "udim2 (…)");
    assert_eq!(items[0].detail.as_deref(), Some("udim2 (...)"));
    assert_eq!(
        items[0].insert_text.as_deref(),
        Some("udim2 (${1:0}, ${2:0}, ${3:0}, ${4:0})$0")
    );
    assert_eq!(items[0].insert_text_format, Some(InsertTextFormat::Snippet));
    assert_eq!(items[0].kind, Some(CompletionItemKind::Function));
}

#[test]
fn color_items_show_their_code() {
    let items = complete("Size = skin:", "Size");
    assert_eq!(labels(&items), vec!["rose"]);
    assert_eq!(items[0].detail.as_deref(), Some("skin:rose"));
    assert_eq!(items[0].insert_text.as_deref(), Some("rose:"));
    let shades = complete("Size = skin:rose:", "Size");
    assert_eq!(labels(&shades), vec!["50"]);
    assert_eq!(shades[0].detail.as_deref(), Some("skin:rose:50"));
    assert!(complete("Size = skin:unknown:", "Size").is_empty());
    assert_eq!(labels(&complete("Size = bc:", "Size")), vec!["brown"]);
}

#[test]
fn families_lead_to_shades() {
    let names = vec!["red".to_string(), "sky_1".to_string()];
    for (item, name) in color_items(&names, "tw", true).iter().zip(&names) {
        assert_eq!(&item.label, name);
        assert!(item.command.is_some());
        let source = format!("= tw:{}", item.insert_text.as_deref().unwrap());
        match scan_value_prefix(&source, source.len()) {
            ValuePrefix::TailwindShade { family } => assert_eq!(family, name),
            other => panic!("expected a shade, got {:?}", other),
        }
    }
    let items = color_items(&names, "css", false);
    assert_eq!(labels(&items), vec!["red", "sky_1"]);
    assert!(items.iter().all(|item| item.insert_text.is_none() && item.command.is_none()));
}

#[test]
fn inside_constructor_nothing_is_completed() {
    assert!(complete("Size = udim2(", "Size").is_empty());
}

#[test]
fn prefix_stops_at_letters_outside_ascii() {
    let prefix = scan_value_prefix("= étw:re", 9);
    assert!(matches!(prefix, ValuePrefix::TailwindFamily { typed: "re" }));
}

#[test]
fn prefix_past_the_end_is_that_at_the_end() {
    let prefix = scan_value_prefix("= skin:rose:5", 400);
    assert!(matches!(prefix, ValuePrefix::SkinShade { family: "rose" }));
    let prefix = scan_value_prefix("= skin:ro", 400);
    assert!(matches!(prefix, ValuePrefix::SkinFamily { typed: "ro" }));
}

#[test]
fn unknown_constructor_has_no_defaults() {
    assert!(constructor_arg_defaults("nothing").is_none());
    assert_eq!(constructor_arg_defaults("font"), Some(vec!["\"SourceSansPro\""]));
    assert_eq!(constructor_arg_defaults("lerp"), Some(vec!["0", "0", "0"]));
}

#[test]
fn property_enum_name_finds_declared_enum() {
    assert_eq!(
        property_enum_name(&strings(&["Frame"]), "AutomaticSize"),
        Some("AutomaticSize".to_string())
    );
    assert_eq!(property_enum_name(&strings(&["Frame"]), "Size"), None);
    assert_eq!(property_enum_name(&strings(&["NotAClass"]), "AutomaticSize"), None);
}
