use rime_dict_studio::deployer::Platform;
use rime_dict_studio::dictionary::{
    check_group_path, check_read_path, dictionary_path, header_of, imported_tables, is_header_end,
    tables_from_yaml,
};

#[test]
fn parses_only_active_import_tables() {
    let content = "---\nimport_tables:\n  - main # active\n  # - disabled\n  - 'extra'\nother: value\n...\n";
    assert_eq!(imported_tables(content).unwrap(), vec!["main", "extra"]);
    assert_eq!(
        imported_tables("---\nimport_tables: [main, extra]\n...\n").unwrap(),
        vec!["main", "extra"]
    );
    assert_eq!(
        imported_tables("---\ndescription: \"...\"\nimport_tables: [main]\n...\n").unwrap(),
        vec!["main"]
    );
}

#[test]
fn rejects_an_invalid_yaml_header() {
    assert!(imported_tables("---\nimport_tables: [broken\n...\n").is_err());
}

#[test]
fn an_invalid_header_error_names_the_header() {
    let error = imported_tables("---\nimport_tables: [broken\n...\n").unwrap_err();
    assert!(error.starts_with("invalid-yaml-header: "));
    assert!(error.len() > "invalid-yaml-header: ".len());
}

#[test]
fn only_string_items_are_tables() {
    assert_eq!(
        imported_tables("---\nimport_tables: [main, 7, {a: b}, extra]\n...\n").unwrap(),
        vec!["main", "extra"]
    );
}

#[test]
fn a_header_without_imports_imports_nothing() {
    assert!(imported_tables("---\nname: luna\n...\n").unwrap().is_empty());
    assert!(imported_tables("").unwrap().is_empty());
    assert!(imported_tables("---\nimport_tables: main\n...\n").unwrap().is_empty());
    assert!(imported_tables("- a\n- b\n").unwrap().is_empty());
}

#[test]
fn the_body_after_the_header_is_not_parsed() {
    let content = "---\nimport_tables: [main]\n...\n\u{7532}\ta\t: [ not yaml\n";
    assert_eq!(imported_tables(content).unwrap(), vec!["main"]);
}

#[test]
fn the_header_stops_at_the_first_end_line() {
    assert_eq!(header_of("a: 1\r\nb: 2\n  ...  \nc: 3\n"), "a: 1\nb: 2");
    assert_eq!(header_of("a: 1\nb: 2\n"), "a: 1\nb: 2");
    assert_eq!(header_of("...\nb: 2\n"), "");
    assert_eq!(header_of("x\r"), "x\r");
}

#[test]
fn end_lines_are_trimmed() {
    assert!(is_header_end("..."));
    assert!(is_header_end("  ...\t"));
    assert!(is_header_end("\u{3000}...\u{a0}"));
    assert!(!is_header_end(".. ."));
    assert!(!is_header_end("...."));
}

#[test]
fn imported_tables_are_dictionary_files_beside_the_importer() {
    assert_eq!(dictionary_path(Platform::Linux, "/rime", "main"), "/rime/main.dict.yaml");
    assert_eq!(dictionary_path(Platform::Linux, "/rime/", "main"), "/rime/main.dict.yaml");
    assert_eq!(
        dictionary_path(Platform::Linux, "/rime", "extra.dict.yaml"),
        "/rime/extra.dict.yaml"
    );
    assert_eq!(dictionary_path(Platform::Linux, "/rime", "/abs/x"), "/abs/x.dict.yaml");
    assert_eq!(dictionary_path(Platform::Windows, "C:\\Rime", "main"), "C:\\Rime\\main.dict.yaml");
    assert_eq!(dictionary_path(Platform::Linux, "", "main"), "main.dict.yaml");
}

#[test]
fn only_dictionary_files_can_be_opened() {
    assert_eq!(check_read_path("/rime/luna.dict.yaml"), Ok(()));
    assert_eq!(
        check_read_path("/rime/luna.yaml"),
        Err("\u{53ea}\u{80fd}\u{6253}\u{5f00} .dict.yaml \u{6587}\u{4ef6}".to_string())
    );
    assert_eq!(check_group_path("/rime/luna.dict.yaml"), Ok(()));
    assert_eq!(
        check_group_path("/rime/luna.txt"),
        Err("invalid-dictionary-extension".to_string())
    );
}

#[test]
fn parsed_headers_give_their_string_items() {
    assert_eq!(
        tables_from_yaml(Ok(Some(vec![Some("main".into()), None, Some("extra".into())]))),
        Ok(vec!["main".to_string(), "extra".to_string()])
    );
    assert_eq!(tables_from_yaml(Ok(None)), Ok(vec![]));
    assert_eq!(
        tables_from_yaml(Err("bad".into())),
        Err("invalid-yaml-header: bad".to_string())
    );
}
