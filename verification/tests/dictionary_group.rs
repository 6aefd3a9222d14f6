use rime_dict_studio::deployer::Platform;
use rime_dict_studio::dictionary::{
    check_group_path, dictionary_path, discover_group_roots, imported_tables, DictionaryGroup,
    GroupAction, GroupDefinition, GroupEvent, GroupLoad,
};
use rime_dict_studio::paths::{dictionary_file_name, parent};
use std::collections::BTreeMap;

/// A directory of dictionary files held in memory; every path is already resolved.
struct Disk {
    files: BTreeMap<String, String>,
}

impl Disk {
    fn canonicalize(&self, path: &str) -> Result<String, String> {
        if self.files.contains_key(path) {
            Ok(path.to_string())
        } else {
            Err("No such file or directory (os error 2)".to_string())
        }
    }
}

/// Opens the group of `path` the way the application does, against `disk`.
fn read_dictionary_group(disk: &Disk, path: &str) -> Result<DictionaryGroup, String> {
    check_group_path(path)?;
    let root = disk.canonicalize(path)?;
    let scan = parent(Platform::Linux, &root).map(|directory| {
        disk.files
            .iter()
            .filter(|(name, _)| parent(Platform::Linux, name).as_deref() == Some(directory.as_str()))
            .filter(|(name, _)| dictionary_file_name(Platform::Linux, name))
            .filter_map(|(name, content)| {
                let imports = imported_tables(content).ok()?;
                Some(GroupDefinition {
                    path: name.clone(),
                    imports: imports
                        .iter()
                        .map(|table| dictionary_path(Platform::Linux, &directory, table))
                        .filter_map(|path| disk.canonicalize(&path).ok())
                        .collect(),
                })
            })
            .collect::<Vec<_>>()
    });
    let roots = discover_group_roots(Platform::Linux, &root, &scan);
    let (mut load, mut action) = GroupLoad::start(Platform::Linux, root, roots);
    loop {
        let event = match action {
            GroupAction::Canonicalize { path } => GroupEvent::Canonicalized {
                result: disk.canonicalize(&path),
            },
            GroupAction::Read { path } => GroupEvent::Read {
                result: disk.files.get(&path).cloned().ok_or_else(|| "unreadable".to_string()),
            },
            GroupAction::CheckFile { path } => GroupEvent::Checked {
                is_file: disk.files.contains_key(&path),
            },
            GroupAction::Finish { result } => return result,
        };
        assert!(load.expects_event(&event));
        action = load.advance(event);
    }
}

fn disk(files: &[(&str, &str)]) -> Disk {
    Disk {
        files: files
            .iter()
            .map(|(path, content)| (path.to_string(), content.to_string()))
            .collect(),
    }
}

#[test]
fn reads_recursive_group_once_and_warns_for_missing_imports() {
    let disk = disk(&[
        (
            "/dicts/root.dict.yaml",
            "---\nimport_tables:\n  - child\n  - absent\n...\n\u{7532}\ta\n",
        ),
        ("/dicts/child.dict.yaml", "---\nimport_tables:\n  - root\n...\n\u{4e59}\tb\n"),
    ]);
    let group = read_dictionary_group(&disk, "/dicts/root.dict.yaml").unwrap();
    assert_eq!(group.files.len(), 2);
    assert_eq!(group.warnings.len(), 1);
    assert_eq!(group.files[0].path, "/dicts/root.dict.yaml");
    assert_eq!(group.files[1].path, "/dicts/child.dict.yaml");
    assert_eq!(group.warnings[0], "/dicts/absent.dict.yaml");
}

#[test]
fn discovers_the_group_when_an_imported_child_is_selected() {
    let disk = disk(&[
        ("/dicts/root.dict.yaml", "---\nimport_tables: [child, sibling]\n...\n\u{6839}\tr\n"),
        ("/dicts/child.dict.yaml", "---\nname: child\n...\n\u{5b50}\tc\n"),
        ("/dicts/sibling.dict.yaml", "---\nname: sibling\n...\n\u{65c1}\ts\n"),
    ]);

    let group = read_dictionary_group(&disk, "/dicts/child.dict.yaml").unwrap();

    assert_eq!(group.root_path, "/dicts/child.dict.yaml");
    assert_eq!(group.files.len(), 3);
    let paths: Vec<&str> = group.files.iter().map(|file| file.path.as_str()).collect();
    assert_eq!(
        paths,
        vec!["/dicts/root.dict.yaml", "/dicts/child.dict.yaml", "/dicts/sibling.dict.yaml"]
    );
}

#[test]
fn group_roots_are_the_members_that_no_member_imports() {
    let defs = vec![
        GroupDefinition {
            path: "/d/b.dict.yaml".into(),
            imports: vec!["/d/leaf.dict.yaml".into()],
        },
        GroupDefinition {
            path: "/d/a.dict.yaml".into(),
            imports: vec!["/d/mid.dict.yaml".into()],
        },
        GroupDefinition {
            path: "/d/mid.dict.yaml".into(),
            imports: vec!["/d/leaf.dict.yaml".into()],
        },
        GroupDefinition { path: "/d/leaf.dict.yaml".into(), imports: vec![] },
        GroupDefinition { path: "/d/other.dict.yaml".into(), imports: vec![] },
    ];
    let roots = discover_group_roots(Platform::Linux, &"/d/leaf.dict.yaml".to_string(), &Some(defs));
    assert_eq!(roots, vec!["/d/a.dict.yaml", "/d/b.dict.yaml"]);
}

#[test]
fn a_selected_dictionary_without_importers_is_its_own_root() {
    let defs = vec![GroupDefinition {
        path: "/d/x.dict.yaml".into(),
        imports: vec![],
    }];
    let selected = "/d/x.dict.yaml".to_string();
    assert_eq!(discover_group_roots(Platform::Linux, &selected, &Some(defs)), vec![selected.clone()]);
    assert_eq!(discover_group_roots(Platform::Linux, &selected, &None), vec![selected]);
}

#[test]
fn a_cycle_without_roots_starts_at_the_selected_dictionary() {
    let defs = vec![
        GroupDefinition {
            path: "/d/a.dict.yaml".into(),
            imports: vec!["/d/b.dict.yaml".into()],
        },
        GroupDefinition {
            path: "/d/b.dict.yaml".into(),
            imports: vec!["/d/a.dict.yaml".into()],
        },
    ];
    let selected = "/d/b.dict.yaml".to_string();
    assert_eq!(discover_group_roots(Platform::Linux, &selected, &Some(defs)), vec![selected]);
}

#[test]
fn roots_come_in_path_component_order() {
    let defs = vec![
        GroupDefinition {
            path: "/d/a-c.dict.yaml".into(),
            imports: vec!["/d/z.dict.yaml".into()],
        },
        GroupDefinition {
            path: "/d/a/b.dict.yaml".into(),
            imports: vec!["/d/z.dict.yaml".into()],
        },
    ];
    let roots = discover_group_roots(Platform::Linux, &"/d/z.dict.yaml".to_string(), &Some(defs));
    assert_eq!(roots, vec!["/d/a/b.dict.yaml", "/d/a-c.dict.yaml"]);
}

#[test]
fn a_header_error_fails_the_group() {
    let disk = disk(&[("/dicts/root.dict.yaml", "---\nimport_tables: [broken\n...\n")]);
    let error = read_dictionary_group(&disk, "/dicts/root.dict.yaml").err().unwrap();
    assert!(error.starts_with("invalid-yaml-header: "));
}

#[test]
fn an_unresolvable_path_fails_the_group() {
    let disk = disk(&[]);
    assert_eq!(
        read_dictionary_group(&disk, "/dicts/none.dict.yaml").err(),
        Some("No such file or directory (os error 2)".to_string())
    );
    assert_eq!(
        read_dictionary_group(&disk, "/dicts/none.txt").err(),
        Some("invalid-dictionary-extension".to_string())
    );
}

#[test]
fn a_successful_load_holds_every_import_that_exists() {
    let disk = disk(&[
        ("/d/root.dict.yaml", "---\nimport_tables: [a, b]\n...\n"),
        ("/d/a.dict.yaml", "---\nimport_tables: [c]\n...\n"),
        ("/d/c.dict.yaml", "---\nimport_tables: [root, a]\n...\n"),
        ("/d/other.dict.yaml", "---\nname: other\n...\n"),
    ]);
    let group = read_dictionary_group(&disk, "/d/root.dict.yaml").unwrap();
    let paths: Vec<&str> = group.files.iter().map(|file| file.path.as_str()).collect();
    assert_eq!(paths, vec!["/d/root.dict.yaml", "/d/a.dict.yaml", "/d/c.dict.yaml"]);
    assert_eq!(group.warnings, vec!["/d/b.dict.yaml"]);
    for file in &group.files {
        assert_eq!(disk.files[&file.path], file.content);
    }
}
