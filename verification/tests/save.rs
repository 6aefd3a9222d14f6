use rime_dict_studio::deployer::Platform;
use rime_dict_studio::save::{
    backup_path, safe_save, safe_save_many, DictionaryWrite, SaveAction, SaveEvent, SaveStep,
};
use std::collections::BTreeMap;

type Disk = BTreeMap<String, Vec<u8>>;

/// Saves one dictionary the way the application does, against `disk`.
fn save_one(disk: &mut Disk, path: &str, content: &str) -> Result<(), String> {
    let steps = safe_save(Platform::Linux, path, content.to_string(), disk.contains_key(path))?;
    for step in steps {
        match step {
            SaveStep::CopyFile { from, to } => {
                let bytes = disk.get(&from).cloned().ok_or("missing")?;
                disk.insert(to, bytes);
            }
            SaveStep::WriteText { path, text } => {
                disk.insert(path, text.into_bytes());
            }
        }
    }
    Ok(())
}

/// Saves a group the way the application does, against `disk`, writing through `writer`.
fn save_many<F>(disk: &mut Disk, writes: Vec<DictionaryWrite>, mut writer: F) -> Result<(), String>
where
    F: FnMut(&mut Disk, &str, &[u8]) -> Result<(), String>,
{
    let (mut save, mut action) = safe_save_many(Platform::Linux, writes);
    loop {
        let event = match action {
            SaveAction::CheckTarget { path } => SaveEvent::TargetChecked {
                is_file: disk.contains_key(&path),
            },
            SaveAction::ReadOriginal { path } => SaveEvent::OriginalRead {
                result: disk.get(&path).cloned().ok_or_else(|| "unreadable".to_string()),
            },
            SaveAction::WriteBytes { path, bytes } => SaveEvent::Written {
                outcome: writer(disk, &path, &bytes),
            },
            SaveAction::WriteText { path, text } => SaveEvent::Written {
                outcome: writer(disk, &path, text.as_bytes()),
            },
            SaveAction::Finish { result } => return result,
        };
        assert!(save.expects_event(&event));
        action = save.advance(event);
    }
}

fn write_atomic(disk: &mut Disk, path: &str, content: &[u8]) -> Result<(), String> {
    disk.insert(path.to_string(), content.to_vec());
    Ok(())
}

fn text(disk: &Disk, path: &str) -> String {
    String::from_utf8(disk[path].clone()).unwrap()
}

#[test]
fn safe_save_overwrites_one_rolling_backup() {
    let mut disk = Disk::new();
    let path = "/dicts/sample.dict.yaml";
    disk.insert(path.into(), b"first".to_vec());
    save_one(&mut disk, path, "second").unwrap();
    assert_eq!(text(&disk, path), "second");
    assert_eq!(text(&disk, &format!("{}.backup", path)), "first");
    save_one(&mut disk, path, "third").unwrap();
    assert_eq!(text(&disk, &format!("{}.backup", path)), "second");
    assert_eq!(disk.len(), 2);
}

#[test]
fn safe_save_refuses_other_targets() {
    let mut disk = Disk::new();
    disk.insert("/dicts/notes.txt".into(), b"x".to_vec());
    let refusal = "\u{76ee}\u{6807}\u{5fc5}\u{987b}\u{662f}\u{73b0}\u{6709}\u{7684} .dict.yaml \u{6587}\u{4ef6}";
    assert_eq!(save_one(&mut disk, "/dicts/notes.txt", "y"), Err(refusal.to_string()));
    assert_eq!(save_one(&mut disk, "/dicts/none.dict.yaml", "y"), Err(refusal.to_string()));
    assert_eq!(disk.len(), 1);
    assert_eq!(backup_path("/a/b.dict.yaml"), "/a/b.dict.yaml.backup");
}

fn writes(first: &str, second: &str) -> Vec<DictionaryWrite> {
    vec![
        DictionaryWrite { path: first.into(), content: "first-new".into() },
        DictionaryWrite { path: second.into(), content: "second-new".into() },
    ]
}

#[test]
fn safely_saves_multiple_files_with_rolling_backups() {
    let mut disk = Disk::new();
    let first = "/dicts/first.dict.yaml";
    let second = "/dicts/second.dict.yaml";
    disk.insert(first.into(), b"first-old".to_vec());
    disk.insert(second.into(), b"second-old".to_vec());
    save_many(&mut disk, writes(first, second), write_atomic).unwrap();
    assert_eq!(text(&disk, first), "first-new");
    assert_eq!(text(&disk, second), "second-new");
    assert_eq!(text(&disk, &format!("{}.backup", first)), "first-old");
    assert_eq!(text(&disk, &format!("{}.backup", second)), "second-old");
}

#[test]
fn rolls_back_an_earlier_file_when_a_later_write_fails() {
    let mut disk = Disk::new();
    let first = "/dicts/first.dict.yaml";
    let second = "/dicts/second.dict.yaml";
    disk.insert(first.into(), b"first-old".to_vec());
    disk.insert(second.into(), b"second-old".to_vec());
    let result = save_many(&mut disk, writes(first, second), |disk, path, content| {
        if path == second && content == b"second-new" {
            return Err("simulated-write-error".into());
        }
        write_atomic(disk, path, content)
    });
    assert!(result.is_err());
    assert_eq!(text(&disk, first), "first-old");
    assert_eq!(text(&disk, second), "second-old");
    assert_eq!(result, Err("simulated-write-error".to_string()));
}

#[test]
fn reports_the_files_that_could_not_be_rolled_back() {
    let mut disk = Disk::new();
    let first = "/dicts/first.dict.yaml";
    let second = "/dicts/second.dict.yaml";
    disk.insert(first.into(), b"first-old".to_vec());
    disk.insert(second.into(), b"second-old".to_vec());
    let result = save_many(&mut disk, writes(first, second), |disk, path, content| {
        if path == second && content == b"second-new" {
            return Err("disk-full".into());
        }
        if path == first && content == b"first-old" {
            return Err("read-only".into());
        }
        write_atomic(disk, path, content)
    });
    assert_eq!(
        result,
        Err("disk-full; rollback-failed: /dicts/first.dict.yaml: read-only".to_string())
    );
}

#[test]
fn a_failed_backup_stops_before_any_target_is_written() {
    let mut disk = Disk::new();
    let first = "/dicts/first.dict.yaml";
    let second = "/dicts/second.dict.yaml";
    disk.insert(first.into(), b"first-old".to_vec());
    disk.insert(second.into(), b"second-old".to_vec());
    let result = save_many(&mut disk, writes(first, second), |disk, path, content| {
        if path.ends_with(".backup") && path.starts_with(second) {
            return Err("no-space".into());
        }
        write_atomic(disk, path, content)
    });
    assert_eq!(result, Err("no-space".to_string()));
    assert_eq!(text(&disk, first), "first-old");
    assert_eq!(text(&disk, second), "second-old");
}

#[test]
fn duplicate_or_invalid_targets_write_nothing() {
    let mut disk = Disk::new();
    let first = "/dicts/first.dict.yaml";
    disk.insert(first.into(), b"first-old".to_vec());
    let result = save_many(&mut disk, writes(first, "/dicts//first.dict.yaml"), write_atomic);
    assert_eq!(result, Err("invalid-or-duplicate-dictionary-path".to_string()));
    let result = save_many(&mut disk, writes(first, "/dicts/none.dict.yaml"), write_atomic);
    assert_eq!(result, Err("invalid-or-duplicate-dictionary-path".to_string()));
    assert_eq!(disk.len(), 1);
    assert_eq!(save_many(&mut disk, vec![], write_atomic), Ok(()));
}

#[test]
fn a_group_save_writes_only_its_targets_and_their_backups() {
    let mut disk = Disk::new();
    disk.insert("/d/first.dict.yaml".into(), b"first-old".to_vec());
    disk.insert("/d/second.dict.yaml".into(), b"second-old".to_vec());
    disk.insert("/d/other.dict.yaml".into(), b"other".to_vec());
    let mut written: Vec<(String, Vec<u8>)> = Vec::new();
    save_many(&mut disk, writes("/d/first.dict.yaml", "/d/second.dict.yaml"), |disk, path, bytes| {
        written.push((path.to_string(), bytes.to_vec()));
        write_atomic(disk, path, bytes)
    })
    .unwrap();
    let expected: Vec<(String, Vec<u8>)> = vec![
        ("/d/first.dict.yaml.backup".into(), b"first-old".to_vec()),
        ("/d/second.dict.yaml.backup".into(), b"second-old".to_vec()),
        ("/d/first.dict.yaml".into(), b"first-new".to_vec()),
        ("/d/second.dict.yaml".into(), b"second-new".to_vec()),
    ];
    assert_eq!(written, expected);
    assert_eq!(text(&disk, "/d/other.dict.yaml"), "other");
}

#[test]
fn windows_drive_letters_name_one_target() {
    let writes = vec![
        DictionaryWrite { path: r"c:\d\a.dict.yaml".into(), content: "x".into() },
        DictionaryWrite { path: r"C:\d\a.dict.yaml".into(), content: "y".into() },
    ];
    let (mut save, mut action) = safe_save_many(Platform::Windows, writes);
    let mut checked = 0;
    let result = loop {
        let event = match action {
            SaveAction::CheckTarget { .. } => {
                checked += 1;
                SaveEvent::TargetChecked { is_file: true }
            }
            SaveAction::ReadOriginal { .. } => SaveEvent::OriginalRead { result: Ok(b"old".to_vec()) },
            SaveAction::WriteBytes { .. } | SaveAction::WriteText { .. } => {
                panic!("nothing may be written")
            }
            SaveAction::Finish { result } => break result,
        };
        action = save.advance(event);
    };
    assert_eq!(checked, 2);
    assert_eq!(result, Err("invalid-or-duplicate-dictionary-path".to_string()));
}
