use rime_dict_studio::deployer::{
    advance, current_platform, deployment_state, squirrel_candidates, deployer_queries, detect_deployer, run_deployer,
    run_deployer_with_timeout, unavailable_state, version_numbers, DeployAction, DeployEvent,
    DeployPhase, DeploymentCandidate, DeploymentConfig, DeploymentContext, DirectoryListing,
    FileFacts, Platform,
};
use std::collections::BTreeMap;

/// A file system held in memory: files, directories, and the entries of directories.
#[derive(Default)]
struct Machine {
    files: Vec<String>,
    directories: Vec<String>,
    entries: BTreeMap<String, Vec<String>>,
}

/// Runs the deployer search the way the application does: ask, list, ask again, probe.
fn detect(context: &DeploymentContext, machine: &Machine) -> Option<DeploymentCandidate> {
    let empty = FileFacts { files: vec![], directories: vec![], listings: vec![] };
    let first = deployer_queries(context, &empty);
    let listings = first
        .listings
        .iter()
        .filter_map(|directory| {
            machine.entries.get(directory).map(|names| DirectoryListing {
                directory: directory.clone(),
                names: names.clone(),
            })
        })
        .collect::<Vec<_>>();
    let listed = FileFacts { files: vec![], directories: vec![], listings };
    let second = deployer_queries(context, &listed);
    let facts = FileFacts {
        files: second.files.into_iter().filter(|path| machine.files.contains(path)).collect(),
        directories: second
            .directories
            .into_iter()
            .filter(|path| machine.directories.contains(path))
            .collect(),
        listings: listed.listings,
    };
    detect_deployer(context, &facts)
}

#[test]
fn detects_squirrel_and_preserves_the_selected_dictionary_as_context() {
    let squirrel = "/tmp/t/Squirrel".to_string();
    let machine = Machine { files: vec![squirrel.clone()], ..Default::default() };
    let context = DeploymentContext {
        platform: Platform::Macos,
        program_roots: vec![],
        path_entries: vec![],
        user_data_dir: "/tmp/t/Rime".into(),
        macos_candidates: vec![squirrel.clone()],
    };

    let deployer = detect(&context, &machine).unwrap();

    assert_eq!(deployer.executable, squirrel);
    assert_eq!(deployer.arguments, vec!["--reload"]);
    assert!(!deployer.experimental);
    assert_eq!(deployer.working_directory.as_deref(), Some("/tmp/t"));
    assert_eq!(deployer.label, "squirrel");
}

#[test]
fn detects_weasel_in_the_latest_standard_install_directory() {
    let root = "C:\\t".to_string();
    let older = "C:\\t\\Rime\\weasel-0.9.0".to_string();
    let latest = "C:\\t\\Rime\\weasel-0.17.4".to_string();
    let mut machine = Machine::default();
    machine.entries.insert(
        "C:\\t\\Rime".into(),
        vec!["weasel-0.9.0".into(), "weasel-0.17.4".into()],
    );
    machine.files.push(format!("{older}\\WeaselDeployer.exe"));
    machine.files.push(format!("{latest}\\WeaselDeployer.exe"));
    let context = DeploymentContext {
        platform: Platform::Windows,
        program_roots: vec![root],
        path_entries: vec![],
        user_data_dir: "C:\\t\\Rime".into(),
        macos_candidates: vec![],
    };

    let deployer = detect(&context, &machine).unwrap();

    assert_eq!(deployer.executable, format!("{latest}\\WeaselDeployer.exe"));
    assert_eq!(deployer.arguments, vec!["/deploy"]);
    assert_eq!(deployer.working_directory, Some(latest));
}

#[test]
fn detects_linux_deployer_as_experimental() {
    let directory = "/tmp/l".to_string();
    let user_data_dir = "/tmp/l/rime".to_string();
    let machine = Machine { files: vec!["/tmp/l/rime_deployer".into()], ..Default::default() };
    let context = DeploymentContext {
        platform: Platform::Linux,
        program_roots: vec![],
        path_entries: vec![directory],
        user_data_dir: user_data_dir.clone(),
        macos_candidates: vec![],
    };

    let deployer = detect(&context, &machine).unwrap();

    assert!(deployer.experimental);
    assert_eq!(deployer.arguments.first().map(String::as_str), Some("--build"));
    assert_eq!(deployer.arguments.get(1).map(String::as_str), Some(user_data_dir.as_str()));
    assert_eq!(
        deployer.arguments,
        vec!["--build", "/tmp/l/rime", "/tmp/l/rime", "/tmp/l/rime/build"]
    );
    assert_eq!(deployer.working_directory.as_deref(), Some("/tmp/l/rime"));
}

#[test]
fn the_shared_rime_data_is_used_when_it_exists() {
    let machine = Machine {
        files: vec!["/usr/bin/rime_deployer".into()],
        directories: vec!["/usr/share/rime-data".into()],
        ..Default::default()
    };
    let context = DeploymentContext {
        platform: Platform::Linux,
        program_roots: vec![],
        path_entries: vec!["/opt/none".into(), "/usr/bin".into()],
        user_data_dir: "/home/u/.config/ibus/rime".into(),
        macos_candidates: vec![],
    };
    let deployer = detect(&context, &machine).unwrap();
    assert_eq!(deployer.executable, "/usr/bin/rime_deployer");
    assert_eq!(deployer.arguments[2], "/usr/share/rime-data");
    assert_eq!(deployer.label, "librime");
}

#[test]
fn equal_weasel_versions_prefer_the_later_listing() {
    let mut machine = Machine::default();
    machine.entries.insert("C:\\a\\Rime".into(), vec!["weasel-1.0".into()]);
    machine.entries.insert("C:\\b\\Rime".into(), vec!["weasel-01.0".into(), "notes".into()]);
    machine.files.push("C:\\a\\Rime\\weasel-1.0\\WeaselDeployer.exe".into());
    machine.files.push("C:\\b\\Rime\\weasel-01.0\\WeaselDeployer.exe".into());
    let context = DeploymentContext {
        platform: Platform::Windows,
        program_roots: vec!["C:\\a".into(), "C:\\b".into()],
        path_entries: vec![],
        user_data_dir: String::new(),
        macos_candidates: vec![],
    };
    let deployer = detect(&context, &machine).unwrap();
    assert_eq!(deployer.working_directory.as_deref(), Some("C:\\b\\Rime\\weasel-01.0"));
}

#[test]
fn nothing_is_found_without_a_deployer() {
    let machine = Machine::default();
    for platform in [Platform::Macos, Platform::Windows, Platform::Linux, Platform::Unsupported] {
        let context = DeploymentContext {
            platform,
            program_roots: vec!["C:\\p".into()],
            path_entries: vec!["/usr/bin".into()],
            user_data_dir: "/u".into(),
            macos_candidates: vec!["/Library/Squirrel".into()],
        };
        assert!(detect(&context, &machine).is_none());
    }
}

#[test]
fn version_numbers_are_the_digit_runs() {
    assert_eq!(version_numbers("weasel-0.17.4"), vec![0, 17, 4]);
    assert_eq!(version_numbers("weasel-0.9.0"), vec![0, 9, 0]);
    assert_eq!(version_numbers("weasel-"), Vec::<u32>::new());
    assert_eq!(version_numbers("a12b007c"), vec![12, 7]);
    assert_eq!(version_numbers("9999999999.1"), vec![1]);
    assert_eq!(version_numbers("4294967295.4294967296"), vec![4294967295]);
}

#[test]
fn platforms_come_from_the_system_name() {
    assert_eq!(current_platform("windows"), Platform::Windows);
    assert_eq!(current_platform("macos"), Platform::Macos);
    assert_eq!(current_platform("linux"), Platform::Linux);
    assert_eq!(current_platform("freebsd"), Platform::Unsupported);
}

#[test]
fn custom_deployers_and_states() {
    let candidate = DeploymentCandidate::from_custom(DeploymentConfig {
        executable: "/custom/deployer".into(),
        arguments: vec!["--deploy".into()],
        working_directory: Some("/custom".into()),
    });
    assert_eq!(candidate.label, "custom");
    assert!(candidate.custom);
    assert!(!candidate.experimental);
    let state = candidate.state(true);
    assert!(state.available);
    assert_eq!(state.executable.as_deref(), Some("/custom/deployer"));
    assert_eq!(state.arguments, vec!["--deploy"]);
    assert_eq!(state.working_directory.as_deref(), Some("/custom"));
    assert!(!candidate.state(false).available);
    let none = unavailable_state();
    assert!(!none.available);
    assert_eq!(none.label, "unavailable");
    assert!(none.executable.is_none());
}

fn shell(script: &str) -> DeploymentCandidate {
    DeploymentCandidate {
        executable: "/bin/sh".into(),
        arguments: vec!["-c".into(), script.into()],
        working_directory: None,
        label: "test".into(),
        experimental: false,
        custom: true,
    }
}

#[test]
fn reports_a_non_zero_exit_code() {
    let candidate = shell("exit 7");
    let (run, action) = run_deployer_with_timeout(&candidate, 1_000_000_000);
    assert!(matches!(action, DeployAction::CheckExecutable { ref path } if path == "/bin/sh"));
    let (run, action) = advance(run, &candidate, DeployEvent::Checked { is_file: true });
    match &action {
        DeployAction::Start { program, arguments, working_directory } => {
            assert_eq!(program, "/bin/sh");
            assert_eq!(arguments, &vec!["-c".to_string(), "exit 7".to_string()]);
            assert!(working_directory.is_none());
        }
        _ => panic!("expected the deployer to start"),
    }
    let (run, action) = advance(run, &candidate, DeployEvent::Started);
    assert!(matches!(action, DeployAction::Poll));
    let (run, action) = advance(run, &candidate, DeployEvent::Exited { success: false, code: Some(7) });
    assert_eq!(run.phase, DeployPhase::Finished);
    match action {
        DeployAction::Finish { result } => {
            assert_eq!(result, Err("deployer-exit-failed: 7".into()))
        }
        _ => panic!("expected the run to finish"),
    }
}

#[test]
fn terminates_a_timed_out_deployer() {
    let candidate = shell("sleep 1");
    let timeout = 10_000_000;
    let (run, _) = run_deployer_with_timeout(&candidate, timeout);
    let (run, _) = advance(run, &candidate, DeployEvent::Checked { is_file: true });
    let (run, _) = advance(run, &candidate, DeployEvent::Started);
    let (run, action) = advance(run, &candidate, DeployEvent::StillRunning { elapsed_nanos: 2_000_000 });
    assert!(matches!(action, DeployAction::Sleep { nanos: 10_000_000 }));
    let (run, action) = advance(run, &candidate, DeployEvent::StillRunning { elapsed_nanos: 12_000_000 });
    assert!(matches!(action, DeployAction::Stop));
    let (_, action) = advance(run, &candidate, DeployEvent::Stopped);
    match action {
        DeployAction::Finish { result } => assert_eq!(result, Err("deployer-timeout".into())),
        _ => panic!("expected the run to finish"),
    }
}

#[test]
fn deployer_runs_end_as_their_events_say() {
    let candidate = shell("true");
    let (run, _) = run_deployer(&candidate);
    assert_eq!(run.timeout_nanos, 120_000_000_000);
    let (_, action) = advance(run, &candidate, DeployEvent::Checked { is_file: false });
    assert!(matches!(action, DeployAction::Finish { result: Err(ref e) } if e == "deployer-not-found"));

    let (run, _) = run_deployer(&candidate);
    let (run, _) = advance(run, &candidate, DeployEvent::Checked { is_file: true });
    let (_, action) = advance(run, &candidate, DeployEvent::StartFailed { message: "denied".into() });
    assert!(matches!(action, DeployAction::Finish { result: Err(ref e) } if e == "deployer-start-failed: denied"));

    let (run, _) = run_deployer(&candidate);
    let (run, _) = advance(run, &candidate, DeployEvent::Checked { is_file: true });
    let (run, _) = advance(run, &candidate, DeployEvent::Started);
    let (run, action) = advance(run, &candidate, DeployEvent::StillRunning { elapsed_nanos: 5 });
    assert!(matches!(action, DeployAction::Sleep { nanos: 100_000_000 }));
    let (_, action) = advance(run, &candidate, DeployEvent::Exited { success: true, code: Some(0) });
    assert!(matches!(action, DeployAction::Finish { result: Ok(()) }));

    let (run, _) = run_deployer(&candidate);
    let (run, _) = advance(run, &candidate, DeployEvent::Checked { is_file: true });
    let (run, _) = advance(run, &candidate, DeployEvent::Started);
    let (_, action) = advance(run, &candidate, DeployEvent::Exited { success: false, code: None });
    assert!(matches!(action, DeployAction::Finish { result: Err(ref e) } if e == "deployer-exit-failed: -1"));

    let (run, _) = run_deployer(&candidate);
    let (run, _) = advance(run, &candidate, DeployEvent::Checked { is_file: true });
    let (run, _) = advance(run, &candidate, DeployEvent::Started);
    let (_, action) = advance(run, &candidate, DeployEvent::Exited { success: false, code: Some(i32::MIN) });
    assert!(matches!(action, DeployAction::Finish { result: Err(ref e) } if e == "deployer-exit-failed: -2147483648"));
}

#[test]
fn facts_outside_the_questions_do_not_change_the_deployer() {
    let context = DeploymentContext {
        platform: Platform::Linux,
        program_roots: vec![],
        path_entries: vec!["/opt/a".into(), "/usr/bin".into()],
        user_data_dir: "/home/u/rime".into(),
        macos_candidates: vec![],
    };
    let empty = FileFacts { files: vec![], directories: vec![], listings: vec![] };
    let queries = deployer_queries(&context, &empty);
    assert_eq!(queries.files, vec!["/opt/a/rime_deployer", "/usr/bin/rime_deployer"]);
    assert_eq!(queries.directories, vec!["/usr/share/rime-data"]);
    let answered = FileFacts {
        files: vec!["/usr/bin/rime_deployer".into()],
        directories: vec![],
        listings: vec![],
    };
    let with_more = FileFacts {
        files: vec!["/opt/b/rime_deployer".into(), "/usr/bin/rime_deployer".into()],
        directories: vec!["/usr/share/other".into()],
        listings: vec![DirectoryListing { directory: "/opt".into(), names: vec!["a".into()] }],
    };
    let first = detect_deployer(&context, &answered).unwrap();
    let second = detect_deployer(&context, &with_more).unwrap();
    assert_eq!(first.executable, second.executable);
    assert_eq!(first.arguments, second.arguments);
    assert_eq!(first.working_directory, second.working_directory);
    assert_eq!(first.executable, "/usr/bin/rime_deployer");
}

#[test]
fn the_state_shown_is_the_candidate_or_unavailable() {
    let candidate = DeploymentCandidate::from_custom(DeploymentConfig {
        executable: "/custom/deployer".into(),
        arguments: vec!["--deploy".into()],
        working_directory: None,
    });
    let shown = deployment_state(&Some(candidate), false);
    assert!(!shown.available);
    assert_eq!(shown.label, "custom");
    assert_eq!(shown.executable.as_deref(), Some("/custom/deployer"));
    assert_eq!(shown.arguments, vec!["--deploy"]);
    assert!(shown.working_directory.is_none());
    assert!(shown.custom);
    let none = deployment_state(&None, true);
    assert!(!none.available);
    assert_eq!(none.label, "unavailable");
    assert!(none.executable.is_none());
    assert!(none.arguments.is_empty());
}

#[test]
fn squirrel_is_looked_for_in_both_input_methods_directories() {
    assert_eq!(
        squirrel_candidates(Platform::Macos, "/Users/u"),
        vec![
            "/Library/Input Methods/Squirrel.app/Contents/MacOS/Squirrel",
            "/Users/u/Library/Input Methods/Squirrel.app/Contents/MacOS/Squirrel",
        ]
    );
}
