use rime_dict_studio::deployer::DeploymentConfig;
use rime_dict_studio::preferences::{check_deployment_config, configured_deployer, Preferences};
use std::path::PathBuf;

#[test]
fn remembering_a_file_keeps_the_custom_deployer() {
    let preferences = Preferences {
        file: None,
        deployer: Some(DeploymentConfig {
            executable: "/custom/deployer".into(),
            arguments: vec!["--deploy".into()],
            working_directory: None,
        }),
    };

    let updated = preferences.with_file("/rime/user.dict.yaml".into());

    assert_eq!(updated.file.as_deref(), Some("/rime/user.dict.yaml"));
    assert_eq!(
        PathBuf::from(updated.deployer.unwrap().executable),
        PathBuf::from("/custom/deployer")
    );
}

#[test]
fn default_preferences_remember_nothing() {
    let preferences = Preferences::default();
    assert!(preferences.file.is_none());
    assert!(preferences.deployer.is_none());
}

#[test]
fn a_deployer_config_needs_an_existing_executable_and_directory() {
    let config = DeploymentConfig {
        executable: "/custom/deployer".into(),
        arguments: vec![],
        working_directory: Some("/custom".into()),
    };
    assert_eq!(
        check_deployment_config(&config, false, true),
        Err("deployer-not-found".to_string())
    );
    assert_eq!(
        check_deployment_config(&config, true, false),
        Err("deployer-working-directory-not-found".to_string())
    );
    assert_eq!(check_deployment_config(&config, true, true), Ok(()));
    let without_directory = DeploymentConfig {
        executable: "/custom/deployer".into(),
        arguments: vec![],
        working_directory: None,
    };
    assert_eq!(check_deployment_config(&without_directory, true, false), Ok(()));
}

#[test]
fn a_configured_deployer_is_used_as_is() {
    let preferences = Preferences {
        file: Some("/rime/user.dict.yaml".into()),
        deployer: Some(DeploymentConfig {
            executable: "/custom/deployer".into(),
            arguments: vec!["--deploy".into(), "now".into()],
            working_directory: Some("/custom".into()),
        }),
    };
    let candidate = configured_deployer(preferences).unwrap();
    assert_eq!(candidate.executable, "/custom/deployer");
    assert_eq!(candidate.arguments, vec!["--deploy", "now"]);
    assert_eq!(candidate.working_directory.as_deref(), Some("/custom"));
    assert_eq!(candidate.label, "custom");
    assert!(candidate.custom);
    assert!(configured_deployer(Preferences::default()).is_none());
}
