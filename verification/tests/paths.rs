use rime_dict_studio::deployer::Platform;
use rime_dict_studio::paths::{
    dictionary_file_name, file_name_of, join, parent, path_less, paths_equal,
};

#[test]
fn joining_follows_path_join() {
    assert_eq!(join(Platform::Linux, "/a", "b"), "/a/b");
    assert_eq!(join(Platform::Linux, "/a/", "b"), "/a/b");
    assert_eq!(join(Platform::Linux, "/a", "/b"), "/b");
    assert_eq!(join(Platform::Linux, "", "b"), "b");
    assert_eq!(join(Platform::Linux, "a", ""), "a/");
    assert_eq!(join(Platform::Windows, "C:\\a", "b"), "C:\\a\\b");
    assert_eq!(join(Platform::Windows, "C:", "b"), "C:b");
    assert_eq!(join(Platform::Windows, "C:\\a", "D:\\b"), "D:\\b");
}

#[test]
fn parents_follow_path_parent() {
    assert_eq!(parent(Platform::Linux, "/a/b.dict.yaml").as_deref(), Some("/a"));
    assert_eq!(parent(Platform::Linux, "/a").as_deref(), Some("/"));
    assert_eq!(parent(Platform::Linux, "/"), None);
    assert_eq!(parent(Platform::Linux, ""), None);
    assert_eq!(parent(Platform::Linux, "a").as_deref(), Some(""));
    assert_eq!(parent(Platform::Linux, "/a//b/").as_deref(), Some("/a"));
    assert_eq!(parent(Platform::Windows, "C:\\a\\b").as_deref(), Some("C:\\a"));
}

#[test]
fn file_names_follow_path_file_name() {
    assert_eq!(file_name_of(Platform::Linux, "/a/b.txt").as_deref(), Some("b.txt"));
    assert_eq!(file_name_of(Platform::Linux, "/a/b/.").as_deref(), Some("b"));
    assert_eq!(file_name_of(Platform::Linux, "/a/.."), None);
    assert_eq!(file_name_of(Platform::Linux, "/"), None);
    assert!(dictionary_file_name(Platform::Linux, "/r/x.dict.yaml"));
    assert!(!dictionary_file_name(Platform::Linux, "/r/x.yaml"));
}

#[test]
fn equal_paths_have_equal_components() {
    assert!(paths_equal(Platform::Linux, "/a//b/./c", "/a/b/c/"));
    assert!(!paths_equal(Platform::Linux, "/a/b", "a/b"));
    assert!(paths_equal(Platform::Windows, "C:\\a\\b", "C:/a/b"));
    assert!(!paths_equal(Platform::Linux, "/a\\b", "/a/b"));
}

#[test]
fn paths_are_ordered_by_components() {
    assert!(path_less(Platform::Linux, "/a/b", "/a-c"));
    assert!(!path_less(Platform::Linux, "/a-c", "/a/b"));
    assert!(path_less(Platform::Linux, "/a", "/a/b"));
    assert!(!path_less(Platform::Linux, "/a", "/a"));
}

#[test]
fn windows_prefixes_follow_std_path() {
    let w = Platform::Windows;
    assert_eq!(parent(w, r"\\?\C:\dir\file.dict.yaml").as_deref(), Some(r"\\?\C:\dir"));
    assert_eq!(parent(w, r"\\?\C:\dir").as_deref(), Some(r"\\?\C:\"));
    assert_eq!(parent(w, r"\\?\C:\"), None);
    assert_eq!(parent(w, r"\\?\C:"), None);
    assert_eq!(parent(w, r"\\server\share\dir\f").as_deref(), Some(r"\\server\share\dir"));
    assert_eq!(parent(w, r"\\server\share"), None);
    assert_eq!(parent(w, r"\\?\UNC\srv\sh\a").as_deref(), Some(r"\\?\UNC\srv\sh\"));
    assert_eq!(file_name_of(w, r"\\?\UNC\srv\sh\a.dict.yaml").as_deref(), Some("a.dict.yaml"));
    assert_eq!(file_name_of(w, r"\\.\pipe\x").as_deref(), Some("x"));
    assert!(dictionary_file_name(w, r"\\?\C:\r\x.dict.yaml"));
    assert_eq!(join(w, r"\\?\C:\dir", "x.dict.yaml"), r"\\?\C:\dir\x.dict.yaml");
    assert_eq!(join(w, r"\\?\C:\dir\", "x.dict.yaml"), r"\\?\C:\dir\x.dict.yaml");
    assert_eq!(join(w, r"\\?\C:\dir", "sub/x.dict.yaml"), r"\\?\C:\dir\sub\x.dict.yaml");
    assert_eq!(join(w, r"\\?\C:\dir", r"..\x"), r"\\?\C:\x");
    assert_eq!(join(w, r"\\?\C:\dir", r".\x"), r"\\?\C:\dir\x");
    assert_eq!(join(w, r"\\?\C:\dir", r"\b"), r"\\?\C:\b");
    assert_eq!(join(w, r"C:\a", r"\b"), r"C:\b");
    assert_eq!(join(w, r"\\server\share\a", r"\b"), r"\\server\share\b");
    assert!(paths_equal(w, r"\\?\C:\a\b", r"\\?\C:\a\\b"));
    assert!(!paths_equal(w, r"\\?\C:\a/b", r"\\?\C:\a\b"));
    assert!(paths_equal(w, r"C:/a/b", r"C:\a\b"));
    assert!(!paths_equal(w, r"\\?\C:\a", r"C:\a"));
    assert_eq!(parent(w, "1:\\a").as_deref(), Some("1:"));
}

#[test]
fn windows_prefixes_compare_by_their_parsed_form() {
    let w = Platform::Windows;
    assert!(paths_equal(w, r"c:\d\a.dict.yaml", r"C:\d\a.dict.yaml"));
    assert!(paths_equal(w, r"\\?\c:\a", r"\\?\C:\a"));
    assert!(paths_equal(w, r"//srv/sh/a", r"\\srv\sh\a"));
    assert!(!paths_equal(w, r"\\srv\sh\a", r"\\srv\SH\a"));
    assert!(path_less(w, r"\\?\C:\a", r"C:\a"));
    assert!(path_less(w, r"\\srv\sh\a", r"C:\a"));
    assert!(path_less(w, r"C:\b", r"d:\a"));
    assert!(!path_less(w, r"d:\a", r"C:\b"));
    assert!(path_less(w, r"\\a\b\x", r"\\a!\b\x"));
    assert!(!path_less(w, r"c:\a", r"C:\a"));
    assert!(!path_less(w, r"C:\a", r"c:\a"));
}
