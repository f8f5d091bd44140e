//! What the server answers and does.

use rsml_lsp::autocomplete::derive::{derive_alias, extension_of, same_path, set_extension};
use rsml_lsp::autocomplete::normalize_path::{write_path, Component, NormalizePath};
use rsml_lsp::diagnostic::{AstErrors, Severity};
use rsml_lsp::guarded_unwrap::GuardedUnwrap;
use rsml_lsp::json::Json;
use rsml_lsp::lexer::multiline_string_block;
use rsml_lsp::luaurc::{changed_aliases, Dependants, Luaurc};
use rsml_lsp::parser::error::{calc_closest, ParseError, ParseErrorMessage, TypeErrorKind};
use rsml_lsp::server::code_action::code_actions;
use rsml_lsp::server::dependencies::search;
use rsml_lsp::server::diagnose::{
    begin_diagnosis, documents_to_recheck, finish_diagnosis, shares_luaurc,
};
use rsml_lsp::server::document::Document;
use rsml_lsp::server::documents::{gather_dependencies, Documents};
use rsml_lsp::server::status::Status;
use rsml_lsp::server::watch::{
    affected_documents, delete_files, is_luaurc_file, is_style_sheet, path_of_uri, reload_luaurc, remove_luaurc,
    watch_action, FileChange, WatchAction,
};
use rsml_lsp::server::workspaces::{Workspace, Workspaces};
use rsml_lsp::text::{Position, Range};
use rsml_lsp::typechecker::definitions::{DefinitionKind, Definitions};
use rsml_lsp::typechecker::type_error::{CyclicKind, Datatype, PushTypeError, TypeError};
use rsml_lsp::zed::{choose_binary, Architecture, Binary, Os, Release};

fn strings(names: &[&str]) -> Vec<String> {
    names.iter().map(|name| name.to_string()).collect()
}

fn at(line: u32, character: u32) -> Position {
    Position { line, character }
}

fn normal(name: &str) -> Component {
    Component::Normal(name.to_string())
}

fn absolute(names: &[&str]) -> Vec<Component> {
    let mut path = vec![Component::RootDir];
    path.extend(names.iter().map(|name| normal(name)));
    path
}

fn written(path: &[Component]) -> String {
    let parts: Vec<String> = path
        .iter()
        .map(|component| match component {
            Component::Prefix(name) => name.clone(),
            Component::RootDir => "root".to_string(),
            Component::CurDir => ".".to_string(),
            Component::ParentDir => "..".to_string(),
            Component::Normal(name) => name.clone(),
        })
        .collect();
    parts.join("/")
}

// Positions

#[test]
fn byte_offset_counts_units_of_utf16() {
    let text = "ab\n𝄞x\nz";
    assert_eq!(at(0, 1).byte_offset(text), 1);
    assert_eq!(at(1, 0).byte_offset(text), 3);
    assert_eq!(at(1, 2).byte_offset(text), 7);
    assert_eq!(at(1, 1).byte_offset(text), 7);
    assert_eq!(at(2, 1).byte_offset(text), 10);
}

#[test]
fn byte_offset_past_the_last_line_is_the_end() {
    assert_eq!(at(9, 0).byte_offset("ab\ncd"), 5);
    assert_eq!(at(0, 99).byte_offset("ab"), 2);
    assert_eq!(at(0, 0).byte_offset(""), 0);
}

#[test]
fn byte_offset_of_an_empty_last_line_is_the_start() {
    assert_eq!(at(1, 0).byte_offset("ab\n"), 0);
}

#[test]
fn columns_run_over_the_ends_of_lines() {
    assert_eq!(at(0, 5).byte_offset("ab\ncd"), 5);
}

// Paths

#[test]
fn normalize_takes_out_dots() {
    let path = vec![
        Component::RootDir,
        normal("a"),
        Component::CurDir,
        normal("b"),
        Component::ParentDir,
        normal("c"),
    ];
    assert_eq!(written(&path.normalize()), "root/a/c");
}

#[test]
fn normalize_keeps_leading_parents() {
    let path = vec![Component::ParentDir, normal("a"), Component::ParentDir, Component::ParentDir];
    assert_eq!(written(&path.normalize()), "../..");
    let path = vec![Component::RootDir, Component::ParentDir, normal("a")];
    assert_eq!(written(&path.normalize()), "root/a");
    let path = vec![
        Component::Prefix("C:".to_string()),
        Component::RootDir,
        Component::ParentDir,
        normal("a"),
    ];
    assert_eq!(written(&path.normalize()), "C:/root/a");
}

#[test]
fn normalizing_twice_changes_nothing_more() {
    let path = vec![Component::ParentDir, normal("a"), Component::CurDir, normal("b")];
    let once = path.normalize();
    assert!(same_path(&once, &once.normalize()));
}

#[test]
fn set_extension_replaces_the_last_one() {
    let mut path = absolute(&["a", "style.v2.txt"]);
    set_extension(&mut path, "rsml");
    assert_eq!(written(&path), "root/a/style.v2.rsml");
    let mut path = absolute(&[".hidden"]);
    set_extension(&mut path, "rsml");
    assert_eq!(written(&path), "root/.hidden.rsml");
    let mut path = vec![Component::ParentDir];
    set_extension(&mut path, "rsml");
    assert_eq!(written(&path), "..");
    assert_eq!(extension_of("a.b"), Some("b"));
    assert_eq!(extension_of(".b"), None);
}

// Definitions

#[test]
fn later_definition_replaces_an_earlier_one() {
    let mut definitions = Definitions::new();
    definitions.insert(0, 10, DefinitionKind::EnumName);
    definitions.insert(4, 6, DefinitionKind::Declaration);
    let (start, end, kind) = definitions.get_key_value(5).unwrap();
    assert_eq!((start, end), (4, 6));
    assert!(matches!(kind, DefinitionKind::Declaration));
    let (start, end, _) = definitions.get_key_value(8).unwrap();
    assert_eq!((start, end), (7, 10));
    assert!(definitions.get(11).is_none());
}

#[test]
fn touching_equal_definitions_are_one() {
    let mut definitions = Definitions::new();
    definitions.insert(0, 3, DefinitionKind::EnumVariant { enum_name: "A".to_string() });
    definitions.insert(4, 6, DefinitionKind::EnumVariant { enum_name: "A".to_string() });
    definitions.insert(7, 8, DefinitionKind::EnumVariant { enum_name: "B".to_string() });
    let (start, end, _) = definitions.get_key_value(5).unwrap();
    assert_eq!((start, end), (0, 6));
    definitions.insert(9, 2, DefinitionKind::EnumName);
    assert!(definitions.get(9).is_none());
}

#[test]
fn selector_shows_its_classes() {
    match DefinitionKind::selector(strings(&["Frame", "TextButton"])) {
        DefinitionKind::Selector { type_definition, hint } => {
            assert_eq!(type_definition, strings(&["Frame", "TextButton"]));
            assert_eq!(hint, "Frame | TextButton");
        }
        other => panic!("expected a selector, got {:?}", other),
    }
}

// Errors

#[test]
fn parse_errors_have_codes_and_words() {
    let error = ParseError::RedundantTokens { msg: None };
    assert_eq!(error.severity(), Severity::Warning);
    assert_eq!(error.to_string(), "REDUNDANT_TOKENS");
    let error = ParseError::TypeError { kind: TypeErrorKind::UnknownDerive, msg: Some("x") };
    assert_eq!(error.severity(), Severity::Error);
    let error = ParseError::MissingToken { msg: None };
    assert_eq!(error.message(), "Missing Token");
    assert!(error.data().is_none());
}

#[test]
fn closest_name_is_the_first_nearest() {
    assert_eq!(calc_closest("@deriv", &["@name", "@derive", "@drive"]), Some("@derive"));
    let range = Range { start: at(1, 2), end: at(1, 8) };
    let message =
        ParseErrorMessage::correction(Some("@deriv".to_string()), range, &["@name", "@derive"]);
    let data = ParseError::UnexpectedTokens { msg: Some(message) }.data();
    let fixes = code_actions(&vec![data, None]);
    assert_eq!(fixes.len(), 1);
    assert_eq!(fixes[0].range, range);
    assert_eq!(fixes[0].new_text, "@derive");
}

#[test]
fn type_errors_have_codes_and_words() {
    let range = Range { start: at(0, 0), end: at(0, 1) };
    let mut errors = AstErrors::new();
    let path = absolute(&["a\"b"]);
    errors.push_type_error(TypeError::UnknownDerive { path: Some(&path) }, range);
    errors.push_type_error(TypeError::CyclicDerive { kind: CyclicKind::External("x") }, range);
    errors.push_type_error(TypeError::InvalidType { expected: Some(Datatype::Number) }, range);
    errors.push_type_error(TypeError::InvalidSelector { msg: None }, range);
    assert_eq!(errors.0[0].message, "Type Error (Unknown Derive): \"/a\\\"b\"");
    assert_eq!(errors.0[1].message, "Type Error (Cyclic Derive): x");
    assert_eq!(errors.0[2].message, "Type Error (Invalid Type): Expected type `number`.");
    assert!(errors.0.iter().all(|error| error.severity == Severity::Error));
    assert!(errors.0.iter().all(|error| error.data.is_none()));
}

#[test]
fn unknown_derive_shows_its_shortest_path() {
    let mut path = absolute(&["a"]);
    path.push(Component::ParentDir);
    path.push(normal("b.rsml"));
    let error = TypeError::UnknownDerive { path: Some(&path) };
    assert_eq!(error.message(), "Type Error (Unknown Derive): \"/b.rsml\"");
    let none = TypeError::UnknownDerive { path: None };
    assert_eq!(none.message(), "Type Error (Unknown Derive)");
    assert_eq!(write_path(&path), "/a/../b.rsml");
    assert_eq!(write_path(&vec![normal("a"), Component::CurDir]), "a/.");
    let drive =
        vec![Component::Prefix("C:".to_string()), Component::RootDir, normal("a"), normal("b")];
    assert_eq!(write_path(&drive), "C:\\a\\b");
    assert_eq!(write_path(&Vec::new()), "");
}

// Fixes

fn object(entries: Vec<(&str, Json)>) -> Json {
    Json::Object(entries.into_iter().map(|(key, value)| (key.to_string(), value)).collect())
}

fn place(line: u64, character: u64) -> Json {
    object(vec![
        ("line", Json::Number(Some(line))),
        ("char", Json::Number(Some(character))),
    ])
}

#[test]
fn fix_needs_all_of_its_data() {
    let whole = object(vec![
        ("closest", Json::Text("x".to_string())),
        ("range_start", place(1, 2)),
        ("range_end", place(3, 4)),
    ]);
    let no_end = object(vec![
        ("closest", Json::Text("x".to_string())),
        ("range_start", place(1, 2)),
    ]);
    let no_text = object(vec![
        ("closest", Json::Bool(true)),
        ("range_start", place(1, 2)),
        ("range_end", place(3, 4)),
    ]);
    let no_number = object(vec![
        ("closest", Json::Text("x".to_string())),
        ("range_start", object(vec![("line", Json::Number(None)), ("char", Json::Null)])),
        ("range_end", place(3, 4)),
    ]);
    let fixes =
        code_actions(&vec![Some(no_end), Some(whole), Some(no_text), None, Some(no_number)]);
    assert_eq!(fixes.len(), 1);
    assert_eq!(fixes[0].range, Range { start: at(1, 2), end: at(3, 4) });
    assert_eq!(fixes[0].title, "Replace with x");
}

// Dependencies

fn document(dependencies: &[&str]) -> Document {
    let mut document = Document::new("@derive \"x\";".to_string());
    document.dependencies = strings(dependencies);
    document
}

#[test]
fn search_reaches_all_documents() {
    let graph = vec![Some(vec![1, 2]), Some(vec![3]), None, Some(vec![1]), Some(vec![0])];
    let found = search(0, &graph);
    assert_eq!(found.visited, vec![0, 1, 3]);
    assert_eq!(found.cyclic, vec![(1, vec![0, 1, 3])]);
}

#[test]
fn search_reports_the_way_back() {
    let graph = vec![Some(vec![1]), Some(vec![2]), Some(vec![0])];
    let found = search(0, &graph);
    assert_eq!(found.visited, vec![0, 1, 2]);
    assert_eq!(found.cyclic, vec![(1, vec![0, 1, 2])]);
    let found = search(0, &vec![Some(vec![0])]);
    assert_eq!(found.visited, vec![0]);
    assert!(found.cyclic.is_empty());
}

#[test]
fn gathered_cycles_show_their_chains() {
    let mut documents = Documents::new();
    documents.insert("/b".to_string(), document(&["/c"]));
    documents.insert("/c".to_string(), document(&["/a", "/missing"]));
    documents.insert("/other".to_string(), document(&["/a"]));
    let gathered = gather_dependencies("/a", &document(&["/b"]), &documents);
    assert_eq!(gathered.dependencies, strings(&["/a", "/b", "/c"]));
    assert_eq!(
        gathered.cyclic_dependencies,
        vec![("/b".to_string(), "\"/a\" -> \"/b\" -> \"/c\"".to_string())]
    );
}

#[test]
fn nothing_is_gathered_twice() {
    let mut documents = Documents::new();
    documents.insert("/b".to_string(), document(&["/a", "/c", "/c"]));
    documents.insert("/c".to_string(), document(&["/a"]));
    let gathered = gather_dependencies("/a", &document(&["/b", "/b", "/c"]), &documents);
    assert_eq!(gathered.dependencies, strings(&["/a", "/b", "/c"]));
    let mut reports = gathered.cyclic_dependencies.clone();
    reports.sort();
    reports.dedup();
    assert_eq!(reports.len(), gathered.cyclic_dependencies.len());
    assert!(reports.contains(&("/b".to_string(), "\"/a\" -> \"/b\"".to_string())));
}

#[test]
fn document_stands_in_for_the_one_at_its_path() {
    let mut documents = Documents::new();
    documents.insert("/a".to_string(), document(&["/old"]));
    documents.insert("/old".to_string(), document(&["/a"]));
    documents.insert("/new".to_string(), document(&[]));
    let gathered = gather_dependencies("/a", &document(&["/new"]), &documents);
    assert_eq!(gathered.dependencies, strings(&["/a", "/new"]));
    assert!(gathered.cyclic_dependencies.is_empty());
}

#[test]
fn documents_are_kept_by_path() {
    let mut documents = Documents::new();
    documents.insert("/a".to_string(), document(&["/x"]));
    documents.insert("/a".to_string(), document(&["/y"]));
    assert_eq!(documents.get("/a").unwrap().dependencies, strings(&["/y"]));
    assert_eq!(documents.remove("/a").unwrap().dependencies, strings(&["/y"]));
    assert!(documents.get("/a").is_none());
    assert!(documents.remove("/a").is_none());
}

#[test]
fn old_and_new_dependencies_are_rechecked() {
    assert_eq!(
        documents_to_recheck(&strings(&["/a", "/b"]), &strings(&["/b", "/c", "/d"]), Some("/d")),
        strings(&["/a", "/b", "/c"])
    );
    assert!(documents_to_recheck(&vec![], &vec![], None).is_empty());
}

#[test]
fn diagnosis_reports_cycles_where_they_are_named() {
    let mut documents = Documents::new();
    documents.insert("/b".to_string(), document(&["/a"]));
    documents.insert("/a".to_string(), document(&["/c"]));
    let again = begin_diagnosis(&mut documents, "/a".to_string(), document(&["/b"]), None);
    assert_eq!(again, strings(&["/b", "/c"]));
    let mut errors = AstErrors::new();
    let derives = vec![("/b".to_string(), 8, 11)];
    let found = finish_diagnosis(&mut documents, "/a", &derives, &mut errors);
    assert_eq!(found.unwrap().dependencies, strings(&["/b"]));
    assert!(documents.get("/a").is_none());
    assert_eq!(errors.0.len(), 1);
    assert_eq!(errors.0[0].message, "Type Error (Cyclic Derive): \"/a\" -> \"/b\"");
    assert_eq!(errors.0[0].range, Range { start: at(0, 8), end: at(0, 11) });
    assert!(finish_diagnosis(&mut documents, "/a", &derives, &mut errors).is_none());
}

// Workspaces

fn luaurc(aliases: &[(&str, &str)]) -> Luaurc {
    let entries =
        aliases.iter().map(|(key, value)| (*key, Json::Text(value.to_string()))).collect();
    Luaurc::new(Some(&object(vec![("aliases", object(entries))])))
}

#[test]
fn luaurc_reads_its_aliases() {
    let read = luaurc(&[("a", "/x"), ("b", "/y")]);
    assert_eq!(
        read.aliases,
        vec![("a".to_string(), "/x".to_string()), ("b".to_string(), "/y".to_string())]
    );
    assert!(Luaurc::new(None).aliases.is_empty());
    assert!(Luaurc::new(Some(&Json::Null)).aliases.is_empty());
    let mixed = object(vec![(
        "aliases",
        object(vec![("a", Json::Text("/x".to_string())), ("b", Json::Null)]),
    )]);
    assert!(Luaurc::new(Some(&mixed)).aliases.is_empty());
    let array = Json::Array(vec![object(vec![("a", Json::Text("/x".to_string()))])]);
    assert_eq!(Luaurc::new(Some(&array)).aliases.len(), 1);
}

#[test]
fn changed_aliases_are_those_that_differ() {
    let old = luaurc(&[("same", "/s"), ("moved", "/1"), ("gone", "/g")]);
    let new = luaurc(&[("moved", "/2"), ("same", "/s"), ("new", "/n")]);
    assert_eq!(changed_aliases(&old, &new), strings(&["moved", "gone", "new"]));
}

#[test]
fn dependants_of_aliases_are_affected() {
    let mut read = luaurc(&[]);
    read.dependants.insert("a".to_string(), "/1".to_string());
    read.dependants.insert("b".to_string(), "/2".to_string());
    read.dependants.insert("a".to_string(), "/3".to_string());
    read.dependants.insert("a".to_string(), "/1".to_string());
    assert_eq!(affected_documents(&read, &strings(&["b", "a"])), strings(&["/2", "/1", "/3"]));
    read.dependants.remove_document("/1");
    assert_eq!(read.dependants.of_alias("a"), strings(&["/3"]));
    assert!(Dependants::new().of_alias("a").is_empty());
}

#[test]
fn workspaces_keep_their_configurations() {
    let root = absolute(&["work"]);
    let file = absolute(&["work", "ui", "main.rsml"]);
    let mut workspaces = Workspaces::new();
    assert!(workspaces.workspace_for_path(&file).is_none());
    assert!(workspaces.set_luaurc_for_workspace(&root, luaurc(&[])).is_none());
    workspaces.insert(absolute(&["work"]), Workspace::new(None));
    assert!(workspaces.workspace_for_path(&file).unwrap().luaurc.is_none());
    assert!(workspaces.set_luaurc_for_workspace(&root, luaurc(&[("a", "/x")])).is_none());
    assert_eq!(workspaces.luaurc_of(&root).unwrap().aliases.len(), 1);
    let old = workspaces.set_luaurc_for_workspace(&root, luaurc(&[])).unwrap();
    assert_eq!(old.aliases.len(), 1);
    assert_eq!(written(workspaces.workspace_path_for_path(&file).unwrap()), "root/work");
    assert!(workspaces.workspace_path_for_path(&absolute(&["works"])).is_none());
    assert!(workspaces.remove_luaurc_for_workspace(&root).is_some());
    assert!(workspaces.remove_luaurc_for_workspace(&root).is_none());
    workspaces.remove(&root);
    assert!(workspaces.workspace_for_path(&file).is_none());
}

#[test]
fn configuration_at_hand_comes_first() {
    let file = absolute(&["work", "main.rsml"]);
    let mut workspaces = Workspaces::new();
    workspaces.insert(absolute(&["work"]), Workspace::new(Some(luaurc(&[("a", "/x")]))));
    let other = luaurc(&[("b", "/y"), ("c", "/z")]);
    let known = workspaces.luaurc_for_path(Status::Known(&other), &file).unwrap();
    assert_eq!(known.aliases.len(), 2);
    let found = workspaces.luaurc_for_path(Status::Unknown, &file).unwrap();
    assert_eq!(found.aliases.len(), 1);
    assert!(workspaces.luaurc_for_path(Status::Absent, &file).is_none());
    assert!(workspaces.luaurc_for_path(Status::Unknown, &absolute(&["x"])).is_none());
}

#[test]
fn changed_configuration_names_its_dependants() {
    let root = absolute(&["work"]);
    let file = absolute(&["work", "main.rsml"]);
    let mut workspaces = Workspaces::new();
    assert!(reload_luaurc(&mut workspaces, &root, luaurc(&[])).is_none());
    let start = luaurc(&[("same", "/s"), ("moved", "/1")]);
    workspaces.insert(absolute(&["work"]), Workspace::new(Some(start)));
    workspaces.add_dependant(&file, "same".to_string(), "/work/a".to_string());
    workspaces.add_dependant(&file, "moved".to_string(), "/work/b".to_string());
    workspaces.add_dependant(&absolute(&["x"]), "moved".to_string(), "/x".to_string());
    let fresh = luaurc(&[("same", "/s"), ("moved", "/2")]);
    assert_eq!(reload_luaurc(&mut workspaces, &root, fresh), Some(strings(&["/work/b"])));
    assert!(workspaces.forget_document(&file, "/work/b"));
    assert!(!workspaces.forget_document(&absolute(&["x"]), "/work/a"));
    assert_eq!(remove_luaurc(&mut workspaces, &root), Some(strings(&["/work/a"])));
    assert!(workspaces.luaurc_of(&root).is_none());
    assert!(remove_luaurc(&mut workspaces, &root).is_none());
}

#[test]
fn deleted_files_are_all_removed() {
    let mut documents = Documents::new();
    let mut workspaces = Workspaces::new();
    workspaces.insert(absolute(&["bare"]), Workspace::new(None));
    workspaces.insert(absolute(&["work"]), Workspace::new(Some(luaurc(&[("a", "/x")]))));
    let file = absolute(&["work", "2"]);
    workspaces.add_dependant(&file, "a".to_string(), "/work/2".to_string());
    for path in ["/bare/1", "/work/2", "/work/3"] {
        documents.insert(path.to_string(), document(&[]));
    }
    let files = vec![
        ("/bare/1".to_string(), absolute(&["bare", "1"])),
        ("/work/2".to_string(), absolute(&["work", "2"])),
    ];
    delete_files(&mut documents, &mut workspaces, &files);
    assert!(documents.get("/bare/1").is_none());
    assert!(documents.get("/work/2").is_none());
    assert!(documents.get("/work/3").is_some());
    let left = workspaces.luaurc_of(&absolute(&["work"])).unwrap();
    assert!(left.dependants.of_alias("a").is_empty());
    let roots: Vec<String> = workspaces.roots().iter().map(|root| written(root)).collect();
    assert_eq!(roots.len(), 2);
    assert!(roots.contains(&"root/bare".to_string()));
}

#[test]
fn alias_of_a_derive_stands_first() {
    assert_eq!(derive_alias(&vec![normal("@ui"), normal("main")]), Some("ui".to_string()));
    assert_eq!(
        derive_alias(&vec![Component::CurDir, normal("@ui")]),
        Some("ui".to_string())
    );
    assert!(derive_alias(&vec![normal("ui"), normal("@main")]).is_none());
    assert!(derive_alias(&Vec::new()).is_none());
}

#[test]
fn configuration_is_shared_within_a_workspace() {
    let a = absolute(&["a"]);
    let b = absolute(&["b"]);
    assert!(shares_luaurc(Some(&a), Some(&absolute(&["a"]))));
    assert!(!shares_luaurc(Some(&a), Some(&b)));
    assert!(!shares_luaurc(Some(&a), None));
    assert!(shares_luaurc(None, None));
}

#[test]
fn status_lends_its_value_out() {
    let mut value = 1;
    let mut status = Status::Known(&mut value);
    if let Status::Known(lent) = status.as_deref_mut() {
        *lent += 1;
    }
    assert!(matches!(status, Status::Known(_)));
    assert_eq!(value, 2);
    let mut unknown: Status<&mut u32> = Status::Unknown;
    assert!(matches!(unknown.as_deref_mut(), Status::Unknown));
    let mut absent: Status<&mut u32> = Status::Absent;
    assert!(matches!(absent.as_deref_mut(), Status::Absent));
}

// Files

#[test]
fn configurations_are_known_by_their_names() {
    for name in ["luaurc", ".luaurc", "luaurc.json", ".luaurc.bak", "a.luaurc"] {
        assert!(is_luaurc_file(name), "{} is a configuration", name);
    }
    for name in ["", "a", "aluaurc", "luaurcs.x", "x.luaurc.y", "..luaurc.z"] {
        assert!(!is_luaurc_file(name), "{} is no configuration", name);
    }
    assert!(is_style_sheet("a.rsml"));
    assert!(!is_style_sheet(".rsml"));
    assert!(!is_style_sheet("rsml"));
}

#[test]
fn changes_of_configurations_are_acted_on() {
    let name = Some(".luaurc");
    assert_eq!(watch_action(FileChange::Created, true, name, true), WatchAction::Create);
    assert_eq!(watch_action(FileChange::Changed, true, name, true), WatchAction::Reload);
    assert_eq!(watch_action(FileChange::Deleted, true, name, true), WatchAction::Remove);
    assert_eq!(watch_action(FileChange::Other, true, name, true), WatchAction::Ignore);
    assert_eq!(watch_action(FileChange::Created, false, name, true), WatchAction::Stop);
    assert_eq!(watch_action(FileChange::Created, true, name, false), WatchAction::Stop);
    assert_eq!(watch_action(FileChange::Created, true, None, true), WatchAction::Stop);
    assert_eq!(watch_action(FileChange::Created, true, Some("a.rsml"), true), WatchAction::Stop);
}

#[test]
fn addresses_of_files_lead_to_paths() {
    assert_eq!(path_of_uri("file:///a/b.rsml"), Some("/a/b.rsml"));
    assert_eq!(path_of_uri("http://a"), None);
}

// Tokens

#[test]
fn block_ends_with_its_own_bracket() {
    let text: Vec<char> = "[=[ a ]] ]==] b ]=] c".chars().collect();
    assert_eq!(multiline_string_block(&text, 3, 3, true), (Ok(1), 19));
    let text: Vec<char> = "[[ a ]=]".chars().collect();
    assert_eq!(multiline_string_block(&text, 2, 2, true), (Err(0), 8));
    let text: Vec<char> = "[[ # ]]\n]] x".chars().collect();
    assert_eq!(multiline_string_block(&text, 2, 2, true), (Ok(0), 10));
    assert_eq!(multiline_string_block(&text, 2, 2, false), (Ok(0), 7));
}

#[test]
fn guarded_unwrap_takes_values_out() {
    assert_eq!(Some(1).guarded_unwrap_inner(), Some(1));
    assert_eq!((&None::<u32>).guarded_unwrap_inner(), None);
    let mut value = Some(1);
    if let Some(inner) = (&mut value).guarded_unwrap_inner() {
        *inner = 2;
    }
    assert_eq!(value, Some(2));
    assert_eq!(Ok::<u32, u32>(3).guarded_unwrap_inner(), Some(3));
    assert_eq!((&Err::<u32, u32>(3)).guarded_unwrap_inner(), None);
}

// Binaries

#[test]
fn releases_are_named_after_their_platform() {
    let release = Release::new(Os::Windows, Architecture::X8664, "1.2.3").unwrap();
    assert_eq!(release.binary_name, "rsml-lsp-windows-x86_64.exe");
    assert_eq!(release.shared_path, "../shared/servers/rsml-lsp-windows-x86_64.exe");
    assert_eq!(release.archive_name, "rsml-lsp-server-windows-x86_64.zip");
    assert_eq!(
        release.download_url,
        "https://github.com/rbx-rsml/rsml-lsp/releases/download/lsp-v1.2.3/rsml-lsp-server-windows-x86_64.zip"
    );
    assert_eq!(release.binary_path, "rsml-lsp-1.2.3/rsml-lsp-windows-x86_64.exe");
    assert!(release.is_stale("rsml-lsp-1.2.2"));
    assert!(!release.is_stale("rsml-lsp-1.2.3"));
    assert!(!release.is_stale("other"));
    assert!(release.download_error_text("offline").starts_with(
        "failed to download rsml-lsp-server-windows-x86_64.zip: offline\n\nInstall manually"
    ));
    assert!(release.download_error_text("").ends_with(
        "{\n        \"path\": \"~/.local/bin/rsml-lsp-windows-x86_64.exe\"\n      }\n    }\n  }\n}"
    ));
    assert!(Release::new(Os::Linux, Architecture::Aarch64, "1").is_none());
    assert!(Release::new(Os::Mac, Architecture::X86, "1").is_none());
}

#[test]
fn binary_is_taken_from_the_nearest_place() {
    let release = Release::new(Os::Linux, Architecture::X8664, "1").unwrap();
    let from = |cached, installed, shared, released| {
        choose_binary(cached, installed, shared, released, &release)
    };
    assert!(matches!(from(Some("/c"), Some("/i"), true, true), Binary::Cached(p) if p == "/c"));
    assert!(matches!(from(None, Some("/i"), true, true), Binary::Installed(p) if p == "/i"));
    assert!(matches!(from(None, None, true, true), Binary::Shared(p) if p == release.shared_path));
    assert!(matches!(from(None, None, false, true), Binary::Released { download: false, .. }));
    assert!(matches!(from(None, None, false, false), Binary::Released { download: true, .. }));
}
