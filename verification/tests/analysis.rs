//! What is found out about a document: its selectors, scopes, definitions and errors.

use rsml_lsp::autocomplete::derive::{resolve_derive_path, set_extension, Located};
use rsml_lsp::autocomplete::document_derives;
use rsml_lsp::autocomplete::normalize_path::Component;
use rsml_lsp::autocomplete::properties::{
    get_enum_shorthand_completions, get_enum_variant_completions,
};
use rsml_lsp::autocomplete::values::Palette;
use rsml_lsp::diagnostic::{AstErrors, Severity};
use rsml_lsp::parser::construct::Construct;
use rsml_lsp::parser::scanner::tokenize;
use rsml_lsp::parser::token::{SpannedToken, Token};
use rsml_lsp::parser::Parser;
use rsml_lsp::reflection::Reflection;
use rsml_lsp::server::code_action::code_actions;
use rsml_lsp::server::diagnose::{analyze, Analysis};
use rsml_lsp::server::document::{format_token_hint, Document, ResolvedType, ResolvedTypes};
use rsml_lsp::strings::trim;
use rsml_lsp::text::{Position, Range};
use rsml_lsp::typechecker::definitions::DefinitionKind;
use rsml_lsp::typechecker::macro_check::{collect_macro_arg_names, typecheck_macro, MacroBody};
use rsml_lsp::typechecker::tween::typecheck_tween;

fn path(names: &[&str]) -> Vec<Component> {
    let mut components = vec![Component::RootDir];
    components.extend(names.iter().map(|name| Component::Normal(name.to_string())));
    components
}

fn analyze_source(source: &str) -> Analysis {
    analyze_tokens(tokenize(source), source)
}

fn analyze_tokens(tokens: Vec<SpannedToken<'_>>, source: &str) -> Analysis {
    let parsed = Parser::new(tokens, source);
    let located: Vec<Located> = document_derives(&parsed.ast)
        .iter()
        .map(|derive| Located::Missing {
            path: path(&[derive.content]),
            absolute: path(&[derive.content]),
        })
        .collect();
    let db = Reflection::load().expect("the reflection database cannot be read");
    analyze(parsed, source.to_string(), &path(&["test.rsml"]), &located, &db)
}

fn messages(analysis: &Analysis) -> Vec<String> {
    analysis.errors.0.iter().map(|error| error.message.clone()).collect()
}

fn codes(source: &str) -> Vec<String> {
    analyze_source(source).errors.0.into_iter().map(|error| error.code).collect()
}

struct TypecheckResult {
    selectors: Vec<(usize, usize, Vec<String>)>,
    scopes: Vec<(usize, usize, Vec<String>)>,
    errors: Vec<String>,
}

fn typecheck(source: &str) -> TypecheckResult {
    let analysis = analyze_source(source);
    let mut selectors = Vec::new();
    let mut scopes = Vec::new();
    let mut byte = 0;
    while byte <= source.len() {
        match analysis.document.definitions.get_key_value(byte) {
            Some((start, end, kind)) => {
                match kind {
                    DefinitionKind::Selector { type_definition, .. } => {
                        selectors.push((start, end, type_definition.clone()));
                    }
                    DefinitionKind::Scope { type_definition } => {
                        scopes.push((start, end, type_definition.clone()));
                    }
                    _ => (),
                }
                byte = end + 1;
            }
            None => byte += 1,
        }
    }
    TypecheckResult { selectors, scopes, errors: messages(&analysis) }
}

fn typecheck_and_get_definitions(source: &str) -> Document {
    analyze_source(source).document
}

// Top-level selectors

#[test]
fn simple_class_selector() {
    let result = typecheck("Frame {}");
    assert_eq!(result.selectors.len(), 1);
    assert_eq!(result.selectors[0].2, vec!["Frame"]);
    assert!(result.errors.is_empty());
}

#[test]
fn class_with_pseudo_selector() {
    let result = typecheck("Frame ::UIPadding {}");
    assert_eq!(result.selectors.len(), 1);
    assert_eq!(result.selectors[0].2, vec!["UIPadding"]);
    assert!(result.errors.is_empty());
}

#[test]
fn class_with_state_selector() {
    let result = typecheck("Frame :hover {}");
    assert_eq!(result.selectors.len(), 1);
    assert_eq!(result.selectors[0].2, vec!["Frame"]);
    assert!(result.errors.is_empty());
}

#[test]
fn comma_separated_selectors() {
    let result = typecheck("Frame, TextButton {}");
    assert_eq!(result.selectors.len(), 1);
    assert_eq!(result.selectors[0].2, vec!["Frame", "TextButton"]);
    assert!(result.errors.is_empty());
}

#[test]
fn invalid_class_name() {
    let result = typecheck("NotARealClass {}");
    assert_eq!(result.selectors.len(), 1);
    assert_eq!(result.selectors[0].2, vec!["Instance"]);
    assert_eq!(result.errors.len(), 1);
    assert!(result.errors[0].contains("No class named \"NotARealClass\" exists"));
}

#[test]
fn invalid_pseudo_not_a_class() {
    let result = typecheck("Frame ::NotAClass {}");
    assert_eq!(result.selectors.len(), 1);
    assert_eq!(result.selectors[0].2, vec!["Instance"]);
    assert!(
        result
            .errors
            .iter()
            .any(|err| err.contains("No class named \"NotAClass\" exists"))
    );
}

#[test]
fn invalid_pseudo_not_allowed() {
    let result = typecheck("Frame ::Frame {}");
    assert_eq!(result.selectors.len(), 1);
    assert_eq!(result.selectors[0].2, vec!["Frame"]);
    assert!(
        result
            .errors
            .iter()
            .any(|err| err.contains("can't be used as a Pseudo instance"))
    );
}

#[test]
fn invalid_state_selector() {
    let result = typecheck("Frame :notastate {}");
    assert_eq!(result.selectors.len(), 1);
    assert_eq!(result.selectors[0].2, vec!["Frame"]);
    assert!(
        result
            .errors
            .iter()
            .any(|err| err.contains("No state named \"notastate\" exists"))
    );
}

#[test]
fn nested_class_without_combinator_errors() {
    let result = typecheck("Frame { TextButton {} }");
    assert_eq!(result.selectors.len(), 2);
    assert_eq!(result.selectors[0].2, vec!["Frame"]);
    assert_eq!(result.selectors[1].2, vec!["TextButton"]);
    assert_eq!(result.errors.len(), 1);
    assert!(result.errors[0].contains("can't be nested"));
}

#[test]
fn nested_child_selector() {
    let result = typecheck("Frame { > TextButton {} }");
    assert_eq!(result.selectors.len(), 2);
    assert_eq!(result.selectors[0].2, vec!["Frame"]);
    assert_eq!(result.selectors[1].2, vec!["TextButton"]);
    assert!(result.errors.is_empty());
}

#[test]
fn nested_pseudo_selector() {
    let result = typecheck("Frame { ::UIPadding {} }");
    assert_eq!(result.selectors.len(), 2);
    assert_eq!(result.selectors[0].2, vec!["Frame"]);
    assert_eq!(result.selectors[1].2, vec!["UIPadding"]);
    assert!(result.errors.is_empty());
}

#[test]
fn nested_state_selector() {
    let result = typecheck("Frame { :hover {} }");
    assert_eq!(result.selectors.len(), 2);
    assert_eq!(result.selectors[0].2, vec!["Frame"]);
    assert_eq!(result.selectors[1].2, vec!["Frame"]);
    assert!(result.errors.is_empty());
}

#[test]
fn multiple_nesting_levels() {
    let result = typecheck("Frame { TextButton { TextLabel {} } }");
    assert_eq!(result.selectors.len(), 3);
    assert_eq!(result.selectors[0].2, vec!["Frame"]);
    assert_eq!(result.selectors[1].2, vec!["TextButton"]);
    assert_eq!(result.selectors[2].2, vec!["TextLabel"]);
    assert_eq!(result.errors.len(), 2);
    assert!(
        result
            .errors
            .iter()
            .all(|err| err.contains("can't be nested"))
    );
}

#[test]
fn nested_child_combinator_with_nesting() {
    let result = typecheck("Frame { > TextButton { > TextLabel {} } }");
    assert_eq!(result.selectors.len(), 3);
    assert_eq!(result.selectors[0].2, vec!["Frame"]);
    assert_eq!(result.selectors[1].2, vec!["TextButton"]);
    assert_eq!(result.selectors[2].2, vec!["TextLabel"]);
    assert!(result.errors.is_empty());
}

// Top-level combinator class resolution

#[test]
fn top_level_child_selector_resolves_to_child() {
    let result = typecheck("Frame > TextButton {}");
    assert_eq!(result.selectors.len(), 1);
    assert_eq!(result.selectors[0].2, vec!["TextButton"]);
    assert!(result.errors.is_empty());
}

#[test]
fn top_level_child_with_pseudo_resolves_to_pseudo() {
    let result = typecheck("Frame > TextButton ::UIPadding {}");
    assert_eq!(result.selectors.len(), 1);
    assert_eq!(result.selectors[0].2, vec!["UIPadding"]);
    assert!(result.errors.is_empty());
}

#[test]
fn top_level_child_with_state_resolves_to_child() {
    let result = typecheck("Frame > TextButton :hover {}");
    assert_eq!(result.selectors.len(), 1);
    assert_eq!(result.selectors[0].2, vec!["TextButton"]);
    assert!(result.errors.is_empty());
}

#[test]
fn top_level_comma_still_resolves_both() {
    let result = typecheck("Frame, TextButton {}");
    assert_eq!(result.selectors.len(), 1);
    assert_eq!(result.selectors[0].2, vec!["Frame", "TextButton"]);
    assert!(result.errors.is_empty());
}

// Name selector coerces to Instance

#[test]
fn top_level_chain_with_name_selector_coerces_to_instance() {
    let result = typecheck("Frame > TextButton > .Hello {}");
    assert_eq!(result.selectors.len(), 1);
    assert_eq!(result.selectors[0].2, vec!["Instance"]);
    assert!(result.errors.is_empty());
}

#[test]
fn top_level_child_with_name_selector_coerces_to_instance() {
    let result = typecheck("Frame > .Hello {}");
    assert_eq!(result.selectors.len(), 1);
    assert_eq!(result.selectors[0].2, vec!["Instance"]);
    assert!(result.errors.is_empty());
}

#[test]
fn nested_child_with_name_selector_coerces_to_instance() {
    let result = typecheck("Frame { > .Hello {} }");
    assert_eq!(result.selectors.len(), 2);
    assert_eq!(result.selectors[0].2, vec!["Frame"]);
    assert_eq!(result.selectors[1].2, vec!["Instance"]);
    assert!(result.errors.is_empty());
}

#[test]
fn chain_with_tag_then_comma() {
    let result = typecheck("Frame >> TextButton > .Hello, Frame {}");
    assert_eq!(result.selectors.len(), 1);
    assert_eq!(result.selectors[0].2, vec!["Instance", "Frame"]);
    assert!(result.errors.is_empty());
}

#[test]
fn tag_selector_then_comma_at_top_level() {
    let result = typecheck(".Hello, TextButton {}");
    assert_eq!(result.selectors.len(), 1);
    assert_eq!(result.selectors[0].2, vec!["Instance", "TextButton"]);
    assert!(result.errors.is_empty());
}

#[test]
fn nested_tag_then_comma() {
    let result = typecheck("Frame { > .Hello, > TextButton {} }");
    assert_eq!(result.selectors.len(), 2);
    assert_eq!(result.selectors[0].2, vec!["Frame"]);
    assert_eq!(result.selectors[1].2, vec!["Instance", "TextButton"]);
    assert!(result.errors.is_empty());
}

// Deduplication

#[test]
fn duplicate_comma_selectors_are_deduplicated() {
    let result = typecheck("Frame, Frame, TextButton {}");
    assert_eq!(result.selectors.len(), 1);
    assert_eq!(result.selectors[0].2, vec!["Frame", "TextButton"]);
    assert!(result.errors.is_empty());
}

#[test]
fn all_duplicate_selectors() {
    let result = typecheck("Frame, Frame, Frame {}");
    assert_eq!(result.selectors.len(), 1);
    assert_eq!(result.selectors[0].2, vec!["Frame"]);
    assert!(result.errors.is_empty());
}

#[test]
fn duplicate_with_combinator() {
    let result = typecheck("Frame > TextButton, Frame > TextButton {}");
    assert_eq!(result.selectors.len(), 1);
    assert_eq!(result.selectors[0].2, vec!["TextButton"]);
    assert!(result.errors.is_empty());
}

#[test]
fn duplicate_instance_coercion() {
    let result = typecheck(".Hello, .World {}");
    assert_eq!(result.selectors.len(), 1);
    assert_eq!(result.selectors[0].2, vec!["Instance"]);
    assert!(result.errors.is_empty());
}

#[test]
fn duplicate_with_state_selectors() {
    let result = typecheck("Frame :hover, Frame :press {}");
    assert_eq!(result.selectors.len(), 1);
    assert_eq!(result.selectors[0].2, vec!["Frame"]);
    assert!(result.errors.is_empty());
}

#[test]
fn duplicate_pseudo_selectors() {
    let result = typecheck("Frame ::UIPadding, TextButton ::UIPadding {}");
    assert_eq!(result.selectors.len(), 1);
    assert_eq!(result.selectors[0].2, vec!["UIPadding"]);
    assert!(result.errors.is_empty());
}

#[test]
fn nested_duplicate_selectors() {
    let result = typecheck("Frame { > TextButton, > TextButton {} }");
    assert_eq!(result.selectors.len(), 2);
    assert_eq!(result.selectors[0].2, vec!["Frame"]);
    assert_eq!(result.selectors[1].2, vec!["TextButton"]);
    assert!(result.errors.is_empty());
}

#[test]
fn no_dedup_different_types() {
    let result = typecheck("Frame, TextButton {}");
    assert_eq!(result.selectors.len(), 1);
    assert_eq!(result.selectors[0].2, vec!["Frame", "TextButton"]);
    assert!(result.errors.is_empty());
}

#[test]
fn preserves_order_after_dedup() {
    let result = typecheck("TextButton, Frame, TextButton {}");
    assert_eq!(result.selectors.len(), 1);
    assert_eq!(result.selectors[0].2, vec!["TextButton", "Frame"]);
    assert!(result.errors.is_empty());
}

#[test]
fn scope_inserted_for_rule_body() {
    let result = typecheck("Frame {}");
    assert_eq!(result.scopes.len(), 1);
    assert_eq!(result.scopes[0].2, vec!["Frame"]);
}

#[test]
fn scope_has_union_types() {
    let result = typecheck("Frame, TextButton {}");
    assert_eq!(result.scopes.len(), 1);
    assert_eq!(result.scopes[0].2, vec!["Frame", "TextButton"]);
}

#[test]
fn nested_scopes_have_correct_types() {
    let result = typecheck("Frame { > TextButton {} }");
    // Outer scope gets split by inner scope insertion, so 3 entries:
    // two halves of the outer Frame scope + the inner TextButton scope
    assert!(result.scopes.len() >= 2);
    let scope_types: Vec<&Vec<String>> = result.scopes.iter().map(|s| &s.2).collect();
    assert!(scope_types.contains(&&vec!["Frame".to_string()]));
    assert!(scope_types.contains(&&vec!["TextButton".to_string()]));
}

#[test]
fn scope_with_combinator() {
    let result = typecheck("Frame > TextButton {}");
    assert_eq!(result.scopes.len(), 1);
    assert_eq!(result.scopes[0].2, vec!["TextButton"]);
}

#[test]
fn scope_with_pseudo_selector() {
    let result = typecheck("Frame ::UIPadding {}");
    assert_eq!(result.scopes.len(), 1);
    assert_eq!(result.scopes[0].2, vec!["UIPadding"]);
}

#[test]
fn definitions_trailing_colon_stays_inside_assignment() {
    let source = "Frame {\n    BackgroundColor3 = tw:\n}";
    let document = typecheck_and_get_definitions(source);

    let colon_pos = source.find("tw:").unwrap() + 2;
    let after_colon = colon_pos + 1;

    for byte_pos in [colon_pos, after_colon] {
        let entry = document.definitions.get_key_value(byte_pos);
        assert!(entry.is_some(), "should have entry at byte {}", byte_pos);

        match entry.unwrap().2 {
            DefinitionKind::Assignment { property_name, .. } => {
                assert_eq!(property_name, "BackgroundColor3");
            }
            other => panic!(
                "expected Assignment at byte {} (trailing `:` after tw), got {:?}",
                byte_pos,
                other
            ),
        }
    }
}

#[test]
fn definitions_trailing_colon_after_tailwind_token_stays_inside_assignment() {
    // `tw:amber` lexes as one TailwindColor token, so the trailing `:`
    // is recovered as a phantom Rule *after* the Assignment's captured
    // RHS. Without the absorption of such rules, the
    // cursor one byte past the trailing `:` (where the client queries)
    // falls into the Selector range and completion returns nothing.
    let source = "Frame {\n    BackgroundColor3 = tw:amber:\n}";
    let document = typecheck_and_get_definitions(source);

    let trailing_colon = source.rfind(':').unwrap();
    let after_colon = trailing_colon + 1;

    for byte_pos in [trailing_colon, after_colon] {
        let entry = document.definitions.get_key_value(byte_pos);
        assert!(entry.is_some(), "should have entry at byte {}", byte_pos);

        match entry.unwrap().2 {
            DefinitionKind::Assignment { property_name, .. } => {
                assert_eq!(property_name, "BackgroundColor3");
            }
            other => panic!(
                "expected Assignment at byte {} (trailing `:` after tw:amber), got {:?}",
                byte_pos,
                other
            ),
        }
    }
}

#[test]
fn definitions_assignment_with_unparseable_rhs_does_not_leak_to_scope() {
    let source = "ImageButton {\n    BackgroundColor3 = ff\n}";
    let document = typecheck_and_get_definitions(source);

    let ff_start = source.find("ff").unwrap();

    for byte_pos in [ff_start, ff_start + 1, ff_start + 2] {
        let entry = document.definitions.get_key_value(byte_pos);
        assert!(entry.is_some(), "should have entry at byte {}", byte_pos);
        match entry.unwrap().2 {
            DefinitionKind::Assignment { property_name, .. } => {
                assert_eq!(property_name, "BackgroundColor3");
            }
            other => panic!(
                "expected Assignment at byte {} (within unparseable RHS), got {:?}",
                byte_pos,
                other
            ),
        }
    }
}

#[test]
fn definitions_shorthand_colon() {
    let source = "ImageLabel :hover {\n    ScaleType = :\n}";
    let document = typecheck_and_get_definitions(source);

    let on_colon = source.find("= :").unwrap() + 2;
    let after_colon = on_colon + 1;

    for byte_pos in [on_colon, after_colon] {
        let entry = document.definitions.get_key_value(byte_pos);
        assert!(entry.is_some(), "should have entry at byte {}", byte_pos);
        match entry.unwrap().2 {
            DefinitionKind::Assignment {
                property_name,
                type_definition,
            } => {
                assert_eq!(property_name, "ScaleType");
                assert!(type_definition.contains(&"ImageLabel".to_string()));
            }
            other => panic!(
                "expected Assignment at byte {}, got {:?}",
                byte_pos,
                other
            ),
        }
    }
}

#[test]
fn definitions_enum_dot_name_completions() {
    let source = "Frame {\n    AutomaticSize = Enum.\n}";
    let document = typecheck_and_get_definitions(source);

    let dot_pos = source.find("Enum.").unwrap() + 5;
    let entry = document.definitions.get_key_value(dot_pos);
    assert!(
        entry.is_some(),
        "should have entry at byte {} (after 'Enum.')",
        dot_pos
    );
    match entry.unwrap().2 {
        DefinitionKind::FilteredEnumName { enum_name } => {
            assert_eq!(enum_name, "AutomaticSize");
        }
        other => panic!(
            "expected FilteredEnumName at byte {}, got {:?}",
            dot_pos,
            other
        ),
    }
}

#[test]
fn definitions_enum_colon_name_completions() {
    let source = "Frame {\n    AutomaticSize = Enum:\n}";
    let document = typecheck_and_get_definitions(source);

    let colon_pos = source.find("Enum:").unwrap() + 5;
    let entry = document.definitions.get_key_value(colon_pos);
    assert!(
        entry.is_some(),
        "should have entry at byte {} (after 'Enum:')",
        colon_pos
    );
    match entry.unwrap().2 {
        DefinitionKind::FilteredEnumName { enum_name } => {
            assert_eq!(enum_name, "AutomaticSize");
        }
        other => panic!(
            "expected FilteredEnumName at byte {}, got {:?}",
            colon_pos,
            other
        ),
    }
}

#[test]
fn definitions_enum_dot_name_non_enum_property_falls_back_to_enum_name() {
    let source = "Frame {\n    Size = Enum.\n}";
    let document = typecheck_and_get_definitions(source);

    let dot_pos = source.find("Enum.").unwrap() + 5;
    let entry = document.definitions.get_key_value(dot_pos);
    assert!(
        entry.is_some(),
        "should have entry at byte {} (after 'Enum.')",
        dot_pos
    );
    assert!(
        matches!(entry.unwrap().2, DefinitionKind::EnumName),
        "expected EnumName (unfiltered) for non-enum property"
    );
}

#[test]
fn definitions_enum_variant_overrides_wrong_typed_name() {
    // Even if user typed the wrong enum name, variants should still be
    // filtered by the property's declared enum.
    let source = "Frame {\n    AutomaticSize = Enum.Foo.\n}";
    let document = typecheck_and_get_definitions(source);

    let trailing_dot = source.rfind('.').unwrap() + 1;
    let entry = document.definitions.get_key_value(trailing_dot);
    assert!(entry.is_some());
    match entry.unwrap().2 {
        DefinitionKind::EnumVariant { enum_name } => {
            assert_eq!(enum_name, "AutomaticSize");
        }
        other => panic!(
            "expected EnumVariant with AutomaticSize, got {:?}",
            other
        ),
    }
}

#[test]
fn definitions_enum_variant_after_name_dot() {
    let source = "Frame {\n    AutomaticSize = Enum.AutomaticSize.\n}";
    let document = typecheck_and_get_definitions(source);

    let trailing_dot = source.find("AutomaticSize.").unwrap() + 14;
    let entry = document.definitions.get_key_value(trailing_dot);
    assert!(
        entry.is_some(),
        "should have entry at byte {} (after 'Enum.AutomaticSize.')",
        trailing_dot
    );
    match entry.unwrap().2 {
        DefinitionKind::EnumVariant { enum_name } => {
            assert_eq!(enum_name, "AutomaticSize");
        }
        other => panic!(
            "expected EnumVariant at byte {}, got {:?}",
            trailing_dot,
            other
        ),
    }
}

#[test]
fn definitions_enum_variant_after_name_colon() {
    let source = "Frame {\n    AutomaticSize = Enum:AutomaticSize:\n}";
    let document = typecheck_and_get_definitions(source);

    let trailing_colon = source.rfind(':').unwrap() + 1;
    let entry = document.definitions.get_key_value(trailing_colon);
    assert!(
        entry.is_some(),
        "should have entry at byte {} (after 'Enum:AutomaticSize:')",
        trailing_colon
    );
    match entry.unwrap().2 {
        DefinitionKind::EnumVariant { enum_name } => {
            assert_eq!(enum_name, "AutomaticSize");
        }
        other => panic!(
            "expected EnumVariant at byte {}, got {:?}",
            trailing_colon,
            other
        ),
    }
}

#[test]
fn definitions_non_enum_assignment_returns_empty_completions() {
    let source = "Frame {\n    Size = \n}";
    let document = typecheck_and_get_definitions(source);

    let after_equals = source.find("= ").unwrap() + 2;
    let entry = document.definitions.get_key_value(after_equals);
    assert!(
        entry.is_some(),
        "should have entry at byte {}",
        after_equals
    );
    match entry.unwrap().2 {
        DefinitionKind::Assignment {
            property_name,
            type_definition,
        } => {
            let items = get_enum_shorthand_completions(type_definition, property_name);
            assert!(
                items.is_empty(),
                "Size is not an enum, should return empty completions"
            );
        }
        _ => (),
    }
}

#[test]
fn tween_arg1_has_easing_style_variant_definition() {
    let source = "Frame {\n    @tween Size (.5, :Linear);\n}";
    let document = typecheck_and_get_definitions(source);

    let colon_pos = source.rfind(":Linear").unwrap();
    let entry = document.definitions.get_key_value(colon_pos);
    assert!(
        entry.is_some(),
        "should have EnumVariant entry at tween arg 1"
    );
    match entry.unwrap().2 {
        DefinitionKind::EnumVariant { enum_name } => {
            assert_eq!(enum_name, "EasingStyle");
        }
        other => panic!(
            "expected EnumVariant at tween arg 1, got {:?}",
            other
        ),
    }
}

#[test]
fn tween_arg2_has_easing_direction_variant_definition() {
    let source = "Frame {\n    @tween Size (.5, :Linear, :InOut);\n}";
    let document = typecheck_and_get_definitions(source);

    let colon_pos = source.rfind(":InOut").unwrap();
    let entry = document.definitions.get_key_value(colon_pos);
    assert!(
        entry.is_some(),
        "should have EnumVariant entry at tween arg 2"
    );
    match entry.unwrap().2 {
        DefinitionKind::EnumVariant { enum_name } => {
            assert_eq!(enum_name, "EasingDirection");
        }
        other => panic!(
            "expected EnumVariant at tween arg 2, got {:?}",
            other
        ),
    }
}

#[test]
fn tween_arg1_full_enum_name_shows_filtered_name() {
    let source = "Frame {\n    @tween Size (.5, Enum.EasingStyle.Linear);\n}";
    let document = typecheck_and_get_definitions(source);

    // After "Enum" keyword should show only "EasingStyle" (FilteredEnumName)
    let after_enum = source.find("Enum.EasingStyle").unwrap() + 4;
    let entry = document.definitions.get_key_value(after_enum);
    assert!(entry.is_some());
    match entry.unwrap().2 {
        DefinitionKind::FilteredEnumName { enum_name } => {
            assert_eq!(enum_name, "EasingStyle");
        }
        other => panic!(
            "expected FilteredEnumName, got {:?}",
            other
        ),
    }

    // After "EasingStyle" should show variants
    let after_name = source.find("EasingStyle.Linear").unwrap() + 11;
    let entry = document.definitions.get_key_value(after_name);
    assert!(entry.is_some());
    match entry.unwrap().2 {
        DefinitionKind::EnumVariant { enum_name } => {
            assert_eq!(enum_name, "EasingStyle");
        }
        other => panic!(
            "expected EnumVariant, got {:?}",
            other
        ),
    }
}

#[test]
fn tween_arg2_full_enum_name_shows_filtered_name() {
    let source = "Frame {\n    @tween Size (.5, Enum.EasingStyle.Linear, Enum.EasingDirection.InOut);\n}";
    let document = typecheck_and_get_definitions(source);

    // After "Enum" keyword should show only "EasingDirection" (FilteredEnumName)
    let after_enum = source.find("Enum.EasingDirection").unwrap() + 4;
    let entry = document.definitions.get_key_value(after_enum);
    assert!(entry.is_some());
    match entry.unwrap().2 {
        DefinitionKind::FilteredEnumName { enum_name } => {
            assert_eq!(enum_name, "EasingDirection");
        }
        other => panic!(
            "expected FilteredEnumName, got {:?}",
            other
        ),
    }

    // After "EasingDirection" should show variants
    let after_name = source.find("EasingDirection.InOut").unwrap() + 15;
    let entry = document.definitions.get_key_value(after_name);
    assert!(entry.is_some());
    match entry.unwrap().2 {
        DefinitionKind::EnumVariant { enum_name } => {
            assert_eq!(enum_name, "EasingDirection");
        }
        other => panic!(
            "expected EnumVariant, got {:?}",
            other
        ),
    }
}

#[test]
fn declaration_derive_suppresses_scope_completions() {
    let source = "Frame {\n    @derive \"./other.rsml\";\n}";
    let document = typecheck_and_get_definitions(source);

    let derive_pos = source.find("@derive").unwrap();
    let entry = document.definitions.get_key_value(derive_pos);
    assert!(
        entry.is_some(),
        "should have definition at @derive position"
    );
    assert!(
        !matches!(entry.unwrap().2, DefinitionKind::Scope { .. }),
        "declaration should override parent Scope"
    );
}

#[test]
fn declaration_priority_suppresses_scope_completions() {
    let source = "Frame {\n    @priority 1;\n}";
    let document = typecheck_and_get_definitions(source);

    let priority_pos = source.find("@priority").unwrap();
    let entry = document.definitions.get_key_value(priority_pos);
    assert!(
        entry.is_some(),
        "should have definition at @priority position"
    );
    assert!(
        matches!(entry.unwrap().2, DefinitionKind::Declaration),
        "expected Declaration at @priority"
    );
}

#[test]
fn declaration_tween_arg_suppresses_scope_completions() {
    let source = "Frame {\n    @tween Size (.5, :Linear);\n}";
    let document = typecheck_and_get_definitions(source);

    let colon_pos = source.find(":Linear").unwrap();
    let entry = document.definitions.get_key_value(colon_pos);
    assert!(
        entry.is_some(),
        "should have definition at tween arg position"
    );
    assert!(
        !matches!(entry.unwrap().2, DefinitionKind::Scope { .. }),
        "tween arg should override parent Scope"
    );
}

#[test]
fn declaration_macro_header_suppresses_scope_completions() {
    let source = "Frame {\n    @macro Test() {\n        Size = 10;\n    }\n}";
    let document = typecheck_and_get_definitions(source);

    let macro_pos = source.find("@macro").unwrap();
    let entry = document.definitions.get_key_value(macro_pos);
    assert!(entry.is_some(), "should have definition at @macro position");
    assert!(
        matches!(entry.unwrap().2, DefinitionKind::Declaration),
        "expected Declaration at @macro header"
    );
}

#[test]
fn declaration_macro_body_allows_scope_completions() {
    let source = "Frame {\n    @macro Test() {\n        Size = 10;\n    }\n}";
    let document = typecheck_and_get_definitions(source);

    let size_pos = source.find("Size").unwrap();
    let entry = document.definitions.get_key_value(size_pos);
    assert!(entry.is_some(), "should have definition inside macro body");
    assert!(
        !matches!(entry.unwrap().2, DefinitionKind::Declaration),
        "macro body should not be Declaration — it needs its own completions"
    );
}

// Tween completion behavior

#[test]
fn tween_shorthand_colon_shows_easing_style_variants() {
    let source = "Frame {\n    @tween Size (.5, :Linear);\n}";
    let document = typecheck_and_get_definitions(source);

    let colon_pos = source.find(":Linear").unwrap();
    let entry = document.definitions.get_key_value(colon_pos);
    assert!(entry.is_some());
    match entry.unwrap().2 {
        DefinitionKind::EnumVariant { enum_name } => {
            assert_eq!(enum_name, "EasingStyle");
            let items = get_enum_variant_completions(enum_name);
            assert!(items.iter().any(|item| item.label == "Linear"));
        }
        other => panic!(
            "expected EnumVariant, got {:?}",
            other
        ),
    }
}

#[test]
fn tween_shorthand_colon_arg2_shows_easing_direction_variants() {
    let source = "Frame {\n    @tween Size (.5, :Linear, :InOut);\n}";
    let document = typecheck_and_get_definitions(source);

    let colon_pos = source.rfind(":InOut").unwrap();
    let entry = document.definitions.get_key_value(colon_pos);
    assert!(entry.is_some());
    match entry.unwrap().2 {
        DefinitionKind::EnumVariant { enum_name } => {
            assert_eq!(enum_name, "EasingDirection");
            let items = get_enum_variant_completions(enum_name);
            assert!(items.iter().any(|item| item.label == "InOut"));
        }
        other => panic!(
            "expected EnumVariant, got {:?}",
            other
        ),
    }
}

#[test]
fn tween_enum_dot_shows_only_correct_enum_name() {
    let source = "Frame {\n    @tween Size (.5, Enum.EasingStyle.Linear);\n}";
    let document = typecheck_and_get_definitions(source);

    // After "Enum" keyword should be FilteredEnumName with only "EasingStyle"
    let after_enum = source.find("Enum.EasingStyle").unwrap() + 4;
    let entry = document.definitions.get_key_value(after_enum);
    assert!(entry.is_some());
    match entry.unwrap().2 {
        DefinitionKind::FilteredEnumName { enum_name } => {
            assert_eq!(enum_name, "EasingStyle");
        }
        other => panic!(
            "expected FilteredEnumName, got {:?}",
            other
        ),
    }
}

#[test]
fn tween_enum_dot_arg2_shows_only_correct_enum_name() {
    let source = "Frame {\n    @tween Size (.5, :Linear, Enum.EasingDirection.InOut);\n}";
    let document = typecheck_and_get_definitions(source);

    let after_enum = source.find("Enum.EasingDirection").unwrap() + 4;
    let entry = document.definitions.get_key_value(after_enum);
    assert!(entry.is_some());
    match entry.unwrap().2 {
        DefinitionKind::FilteredEnumName { enum_name } => {
            assert_eq!(enum_name, "EasingDirection");
        }
        other => panic!(
            "expected FilteredEnumName, got {:?}",
            other
        ),
    }
}

#[test]
fn tween_enum_name_dot_shows_variants() {
    let source = "Frame {\n    @tween Size (.5, Enum.EasingStyle.Linear);\n}";
    let document = typecheck_and_get_definitions(source);

    // After "EasingStyle" should show variants
    let after_name = source.find("EasingStyle.Linear").unwrap() + 11;
    let entry = document.definitions.get_key_value(after_name);
    assert!(entry.is_some());
    match entry.unwrap().2 {
        DefinitionKind::EnumVariant { enum_name } => {
            assert_eq!(enum_name, "EasingStyle");
        }
        other => panic!(
            "expected EnumVariant, got {:?}",
            other
        ),
    }
}

fn assert_token_at(
    document: &Document,
    byte_pos: usize,
    expected_name: &str,
    expected_static: bool,
) {
    let entry = document.definitions.get_key_value(byte_pos);
    let entry = entry.unwrap_or_else(|| panic!("no definition entry at byte {}", byte_pos));
    match entry.2 {
        DefinitionKind::Token { name, is_static } => {
            assert_eq!(name, expected_name, "name mismatch at byte {}", byte_pos);
            assert_eq!(
                *is_static, expected_static,
                "is_static mismatch at byte {}",
                byte_pos
            );
        }
        other => panic!(
            "expected Token at byte {}, got {:?}",
            byte_pos,
            other
        ),
    }
}

#[test]
fn token_lhs_declaration_has_entry() {
    let source = "$primary = #ff0000;";
    let document = typecheck_and_get_definitions(source);
    let pos = source.find("$primary").unwrap() + 1;
    assert_token_at(&document, pos, "primary", false);
}

#[test]
fn token_static_lhs_declaration_has_entry() {
    let source = "$!primary = #ff0000;";
    let document = typecheck_and_get_definitions(source);
    let pos = source.find("$!primary").unwrap() + 2;
    assert_token_at(&document, pos, "primary", true);
}

#[test]
fn token_reference_in_assignment_has_entry() {
    let source = "$primary = #ff0000;\nFrame {\n    BackgroundColor3 = $primary;\n}";
    let document = typecheck_and_get_definitions(source);
    let ref_start = source.rfind("$primary").unwrap();
    let ref_pos = ref_start + 1;
    assert_token_at(&document, ref_pos, "primary", false);
}

#[test]
fn token_reference_inside_math_has_entry() {
    let source = "$a = 10;\n$b = $a + 5;";
    let document = typecheck_and_get_definitions(source);
    let ref_pos = source.rfind("$a").unwrap() + 1;
    assert_token_at(&document, ref_pos, "a", false);
}

#[test]
fn token_reference_inside_table_has_entry() {
    let source = "$offset = 10;\nFrame {\n    Size = udim2(0, $offset, 0, $offset);\n}";
    let document = typecheck_and_get_definitions(source);
    let ref_pos = source.rfind("$offset").unwrap() + 1;
    assert_token_at(&document, ref_pos, "offset", false);
}

#[test]
fn token_reference_static_inside_nested_rule() {
    let source = "$!color = #ff0000;\nFrame {\n    BackgroundColor3 = $!color;\n}";
    let document = typecheck_and_get_definitions(source);
    let ref_start = source.rfind("$!color").unwrap();
    let ref_pos = ref_start + 2;
    assert_token_at(&document, ref_pos, "color", true);
}

fn hint(name: &str, is_static: bool, resolved: ResolvedType) -> String {
    let mut types = ResolvedTypes::new();
    types.tokens.push((name.to_string(), is_static, resolved));
    format_token_hint(name, is_static, &types)
}

#[test]
fn hover_dynamic_number() {
    assert_eq!(hint("x", false, ResolvedType::Other("number".to_string())), "$x: number");
}

#[test]
fn hover_static_number() {
    assert_eq!(hint("x", true, ResolvedType::Other("number".to_string())), "$!x: number");
}

#[test]
fn hover_dynamic_tailwind_coerced_to_color3() {
    assert_eq!(hint("x", false, ResolvedType::Other("Color3".to_string())), "$x: Color3");
}

#[test]
fn hover_static_tailwind_stays_oklab() {
    assert_eq!(hint("x", true, ResolvedType::Other("Oklab".to_string())), "$!x: Oklab");
}

#[test]
fn hover_static_bool_is_boolean() {
    assert_eq!(hint("x", true, ResolvedType::Other("boolean".to_string())), "$!x: boolean");
}

#[test]
fn hover_unresolvable_enum_is_unknown() {
    assert_eq!(format_token_hint("x", true, &ResolvedTypes::new()), "$!x: unknown");
}

#[test]
fn hover_enum_shorthand_uses_token_name() {
    assert_eq!(
        hint("ScaleType", true, ResolvedType::EnumShorthand),
        "$!ScaleType: Enum.ScaleType"
    );
}

#[test]
fn hover_full_enum_uses_item_ty() {
    assert_eq!(
        hint("x", true, ResolvedType::EnumItem("Material".to_string())),
        "$!x: Enum.Material"
    );
}

#[test]
fn hover_unknown_token_name_is_unknown() {
    let empty_types = ResolvedTypes::new();
    assert_eq!(format_token_hint("missing", false, &empty_types), "$missing: unknown");
    let mut types = ResolvedTypes::new();
    types.tokens.push(("missing".to_string(), true, ResolvedType::EnumShorthand));
    assert_eq!(format_token_hint("missing", false, &types), "$missing: unknown");
}

fn at(line: u32, character: u32) -> Position {
    Position { line, character }
}

fn range(start: (u32, u32), end: (u32, u32)) -> Range {
    Range { start: at(start.0, start.1), end: at(end.0, end.1) }
}

#[test]
fn hover_shows_the_selected_classes() {
    let document = typecheck_and_get_definitions("Frame, TextButton {\n}\n");
    let hover = document.hover(at(0, 2)).expect("nothing is shown");
    assert_eq!(hover.contents, "```luau\nFrame | TextButton\n```");
    assert_eq!(hover.range.start, at(0, 0));
    assert!(document.hover(at(1, 0)).is_none());
}

#[test]
fn hover_shows_a_property_with_its_type() {
    let source = "Frame {\n    Size = 10;\n}";
    let mut document = typecheck_and_get_definitions(source);
    assert!(document.hover(at(1, 11)).is_none());
    let start = source.find('=').unwrap();
    document.resolved_types.properties.push((start, ResolvedType::Other("number".to_string())));
    let hover = document.hover(at(1, 11)).expect("nothing is shown");
    assert_eq!(hover.contents, "```luau\nSize: number\n```");
    assert_eq!(hover.range, range((1, 9), (1, 14)));
}

#[test]
fn derive_leads_to_its_file() {
    let source = "@derive \"other\";";
    let parsed = Parser::new(tokenize(source), source);
    let located = vec![Located::Found {
        path: path(&["other.rsml"]),
        text: "/other.rsml".to_string(),
    }];
    let db = Reflection { classes: vec![], enums: vec![] };
    let analysis = analyze(parsed, source.to_string(), &path(&["test.rsml"]), &located, &db);
    assert!(analysis.errors.0.is_empty());
    assert_eq!(analysis.document.dependencies, vec!["/other.rsml".to_string()]);
    assert_eq!(analysis.derives, vec![("/other.rsml".to_string(), 8, 15)]);
    let link = analysis.document.goto_definition(at(0, 10)).expect("leads nowhere");
    assert_eq!(link.path, "/other.rsml");
    assert_eq!(link.origin, range((0, 8), (0, 15)));
    assert!(analysis.document.goto_definition(at(0, 0)).is_none());
    let hover = analysis.document.hover(at(0, 10)).expect("nothing is shown");
    assert_eq!(hover.contents, "```luau\n\"/other.rsml\"\n```");
}

fn derive_messages(source: &str, located: Vec<Located>) -> Vec<String> {
    let parsed = Parser::new(tokenize(source), source);
    let db = Reflection { classes: vec![], enums: vec![] };
    messages(&analyze(parsed, source.to_string(), &path(&["test.rsml"]), &located, &db))
}

#[test]
fn document_must_not_derive_from_itself() {
    let located =
        vec![Located::Found { path: path(&["test.rsml"]), text: "/test.rsml".to_string() }];
    assert_eq!(
        derive_messages("@derive \"test\";", located),
        vec!["Type Error (Cyclic Derive): Cannot derive the current Style Sheet.".to_string()]
    );
}

#[test]
fn derived_file_has_to_exist() {
    let located = vec![Located::Missing {
        path: path(&["a", "no.rsml"]),
        absolute: vec![
            Component::RootDir,
            Component::Normal("a".to_string()),
            Component::ParentDir,
            Component::Normal("no.rsml".to_string()),
        ],
    }];
    assert_eq!(
        derive_messages("@derive \"no\";", located),
        vec!["Type Error (Unknown Derive): \"/no.rsml\"".to_string()]
    );
}

#[test]
fn derive_takes_strings_only() {
    let located = vec![Located::Found { path: path(&["a.rsml"]), text: "/a.rsml".to_string() }];
    assert_eq!(
        derive_messages("@derive (1, \"a\");", located),
        vec!["Type Error (Invalid Type): Expected type `string`.".to_string()]
    );
}

#[test]
fn derive_paths_follow_aliases() {
    let aliases = vec![("lib".to_string(), path(&["shared", "styles"]))];
    let current = path(&["project", "main.rsml"]);
    let content = vec![Component::Normal("@lib".to_string()), Component::Normal("base".to_string())];
    let mut found = resolve_derive_path(&content, &current, &aliases);
    set_extension(&mut found, "rsml");
    let names: Vec<String> = found
        .iter()
        .map(|component| match component {
            Component::Normal(name) => name.clone(),
            _ => "/".to_string(),
        })
        .collect();
    assert_eq!(names, vec!["/", "shared", "styles", "base.rsml"]);
}

#[test]
fn completion_follows_the_definition() {
    let source = "Frame {\n    AutomaticSize = Enum.\n    \n}";
    let document = typecheck_and_get_definitions(source);
    let palette = Palette {
        tailwind_families: vec![],
        tailwind_shades: vec![],
        skin_families: vec![],
        skin_shades: vec![],
        brick_names: vec![],
        css_names: vec![],
    };
    let items = document.completion(at(1, 25), &palette).expect("no completions");
    assert_eq!(items.len(), 1);
    assert_eq!(items[0].label, "AutomaticSize");
    let items = document.completion(at(0, 6), &palette).expect("no completions");
    assert!(items.iter().any(|item| item.label == "Size"));
    assert!(document.completion(at(0, 2), &palette).is_none());
}

#[test]
fn unknown_declaration_is_corrected() {
    let source = "@deriv \"x\";";
    let mut tokens = tokenize(source);
    tokens[0] = SpannedToken::new(0, Token::InvalidDeclaration(Some("deriv")), 6);
    let analysis = analyze_tokens(tokens, source);
    let data: Vec<_> = analysis.errors.0.into_iter().map(|error| error.data).collect();
    let fixes = code_actions(&data);
    assert_eq!(fixes.len(), 1);
    assert_eq!(fixes[0].new_text, "@derive");
    assert_eq!(fixes[0].title, "Replace with @derive");
    assert_eq!(fixes[0].range, range((0, 0), (0, 6)));
}

#[test]
fn parser_reads_math_by_precedence() {
    let source = "$a = 1 + 2 * 3;";
    let parsed = Parser::new(tokenize(source), source);
    assert!(parsed.ast_errors.0.is_empty());
    match &parsed.ast[0] {
        Construct::Assignment { right: Some(right), .. } => match &**right {
            Construct::MathOperation { left, right: Some(right), .. } => {
                assert!(matches!(**left, Construct::Node { .. }));
                assert!(matches!(**right, Construct::MathOperation { .. }));
            }
            other => panic!("expected a math operation, got {:?}", other),
        },
        other => panic!("expected an assignment, got {:?}", other),
    }
}

#[test]
fn parser_accepts_a_minus_in_front() {
    let source = "$a = -1;";
    let parsed = Parser::new(tokenize(source), source);
    assert!(parsed.ast_errors.0.is_empty());
    match &parsed.ast[0] {
        Construct::Assignment { right: Some(right), .. } => {
            assert!(matches!(**right, Construct::UnaryMinus { .. }));
        }
        other => panic!("expected an assignment, got {:?}", other),
    }
}

#[test]
fn parser_names_its_errors() {
    assert_eq!(codes("Frame { Size = ; }"), vec!["MISSING_TOKEN".to_string()]);
    assert!(codes("Frame { Visible = true; }").is_empty());
    assert_eq!(codes("Frame {"), vec!["MISSING_TOKEN".to_string()]);
}

#[test]
fn second_semicolon_is_unexpected() {
    let analysis = analyze_source("Frame { Visible = true;; }");
    assert_eq!(analysis.errors.0.len(), 1);
    assert_eq!(analysis.errors.0[0].code, "UNEXPECTED_TOKENS");
    assert_eq!(analysis.errors.0[0].severity, Severity::Error);
    assert_eq!(analysis.errors.0[0].source, "RSML LSP");
    assert_eq!(analysis.errors.0[0].range, range((0, 23), (0, 24)));
}

#[test]
fn skin_colours_are_values() {
    assert!(codes("Frame { BackgroundColor3 = skin:rose; }").is_empty());
}

#[test]
fn constructs_span_their_tokens() {
    let source = "Frame { Visible = true; }";
    let parsed = Parser::new(tokenize(source), source);
    assert_eq!(parsed.ast.len(), 1);
    assert_eq!(parsed.ast[0].span(), (0, source.len()));
    assert_eq!(parsed.ast[0].name_plural(), "Rules");
}

// Declarations

fn tween_errors(tween: &str) -> Vec<String> {
    let source = format!("Frame {{ {tween} }}");
    let parsed = Parser::new(tokenize(&source), &source);
    let mut errors = AstErrors::new();
    let Some(Construct::Rule { body: Some(rule), .. }) = parsed.ast.first() else {
        panic!("there is no rule");
    };
    for construct in rule.content.as_ref().expect("the rule is empty") {
        if let Construct::Tween { body: Some(body), .. } = construct {
            typecheck_tween(body, &parsed.rope, &mut errors);
        }
    }
    errors.0.into_iter().map(|error| error.message).collect()
}

#[test]
fn tween_takes_a_number_and_two_enums() {
    let whole = "@tween x (1, Enum.EasingStyle.Sine, Enum.EasingDirection.In);";
    assert!(tween_errors("@tween x 1;").is_empty());
    assert!(tween_errors(whole).is_empty());
    assert_eq!(tween_errors("@tween x (true);").len(), 1);
    assert_eq!(tween_errors("@tween x (true, 1, 2, 3);").len(), 4);
    assert_eq!(tween_errors("@tween x ();").len(), 1);
    assert_eq!(tween_errors("@tween x true;").len(), 1);
}

#[test]
fn macro_refers_to_its_own_arguments() {
    let source = "@macro m (&a, &b) { Size = &c; }";
    let parsed = Parser::new(tokenize(source), source);
    let mut names = Vec::new();
    let mut errors = AstErrors::new();
    for construct in &parsed.ast {
        if let Construct::Macro { args, return_type, body, .. } = construct {
            names.extend(collect_macro_arg_names(args).iter().map(|name| name.to_string()));
            let body = MacroBody::of(return_type, body);
            typecheck_macro(args, &body, &parsed.rope, &mut errors);
        }
    }
    assert_eq!(names, vec!["a".to_string(), "b".to_string()]);
    assert_eq!(errors.0.len(), 1);
    assert!(errors.0[0].message.contains('c'));
}

fn macro_parts(source: &str) -> (Vec<String>, Option<String>, usize) {
    let parsed = Parser::new(tokenize(source), source);
    let errors = parsed.ast_errors.0.iter().map(|error| error.message.clone()).collect();
    let Some(Construct::Macro { return_type, body, .. }) = parsed.ast.into_iter().next() else {
        panic!("there is no macro");
    };
    let context = return_type.and_then(|(_, ident)| ident).map(|ident| {
        let token = ident.token;
        source[token.start()..token.end()].to_string()
    });
    let items = body.and_then(|body| body.content).map_or(0, |content| content.len());
    (errors, context, items)
}

#[test]
fn macro_has_a_context() {
    let construct = "@macro Test (&a) -> Construct { Size = 1; Visible = true; }";
    assert_eq!(macro_parts(construct), (vec![], Some("Construct".to_string()), 2));
    let selector = "@macro Test -> Selector { Frame > .tag, #Name }";
    assert_eq!(macro_parts(selector), (vec![], Some("Selector".to_string()), 5));
    let assignment = "@macro Test (&a) -> Assignment { 1 + &a }";
    assert_eq!(macro_parts(assignment), (vec![], Some("Assignment".to_string()), 1));
    assert_eq!(macro_parts("@macro Test { Size = 1; }"), (vec![], None, 1));
}

#[test]
fn macro_context_is_corrected() {
    let (errors, context, items) = macro_parts("@macro Test -> Selectr { Size = 1; }");
    assert_eq!(errors.len(), 1);
    assert!(errors[0].contains("Selector"));
    assert_eq!(context, Some("Selectr".to_string()));
    assert_eq!(items, 1);
    assert_eq!(macro_parts("@macro Test -> ;").1, None);
    assert_eq!(macro_parts("@macro Test -> Assignment { 1 ; }").0.len(), 2);
    assert_eq!(macro_parts("@macro Test -> Selector { Frame").0.len(), 1);
}

#[test]
fn checks_reach_tweens_and_macros() {
    assert_eq!(codes("@tween x (true);"), vec!["TYPE_ERROR(INVALID_TWEEN_ARG)"]);
    assert_eq!(codes("Frame { @tween x true; }"), vec!["TYPE_ERROR(INVALID_TYPE)"]);
    assert!(codes("@tween x (1, :Linear, :InOut);").is_empty());
    assert_eq!(
        codes("@macro m (&a) { Size = &b; }"),
        vec!["TYPE_ERROR(INVALID_MACRO_ARG)"]
    );
    assert_eq!(
        codes("@macro m (&a) -> Assignment { &b + 1 }"),
        vec!["TYPE_ERROR(INVALID_MACRO_ARG)"]
    );
    assert!(codes("@macro m (&a) -> Assignment { &a + 1 }").is_empty());
    assert!(codes("@macro m (&a) -> Selector { Frame }").is_empty());
}

#[test]
fn references_to_unknown_arguments_are_errors() {
    let error = vec!["TYPE_ERROR(INVALID_MACRO_ARG)"];
    assert_eq!(codes("@macro m (&a) { Size = -&b; }"), error);
    assert_eq!(codes("@macro m (&a) { @priority &b; }"), error);
    assert!(codes("@macro m (&a) { Size = -&a; @priority &a; n!(&b); }").is_empty());
}

#[test]
fn references_outside_of_macros_are_errors() {
    let error = vec!["TYPE_ERROR(INVALID_MACRO_ARG)"];
    assert_eq!(codes("Frame { Size = &x; }"), error);
    assert_eq!(codes("Frame { $size = (1, -&x); }"), error);
    assert_eq!(codes("Frame { @priority &x; }"), error);
    assert_eq!(codes("$size = &x + 1;"), error);
    assert!(codes("@name &x;").contains(&error[0].to_string()));
    assert!(codes("Frame { m!(&x); }").is_empty());
    let analysis = analyze_source("$size = &;");
    assert_eq!(
        messages(&analysis),
        vec!["Type Error (Invalid Macro Argument): Missing macro argument name."]
    );
}

#[test]
fn derived_paths_are_trimmed() {
    let source = "@derive \" \u{2003}a b \u{a0}\";";
    let parsed = Parser::new(tokenize(source), source);
    let strings = document_derives(&parsed.ast);
    assert_eq!(strings[0].content, " \u{2003}a b \u{a0}");
    assert_eq!(strings[0].path(), "a b");
    assert_eq!(trim(" \t\u{85} "), "");
    assert_eq!(trim("\u{200b}"), "\u{200b}");
}

#[test]
fn tween_at_the_top_is_a_declaration() {
    let source = "@tween x (1, :Linear);";
    let document = typecheck_and_get_definitions(source);
    let style = source.find(":Linear").unwrap();
    let entry = document.definitions.get_key_value(style + 2);
    assert!(matches!(entry.unwrap().2, DefinitionKind::EnumVariant { .. }));
}
