//! What the application remembers between runs.
use vstd::prelude::*;
use crate::deployer::{DeploymentCandidate, DeploymentConfig};

verus! {

/// The remembered dictionary file and the deployer that the user configured.
pub struct Preferences {
    pub file: Option<String>,
    pub deployer: Option<DeploymentConfig>,
}

impl Preferences {
    /// These preferences with `file` as the remembered dictionary; the deployer stays.
    pub fn with_file(self, file: String) -> (r: Self)
        ensures
            r.file == Some(file),
            r.deployer == self.deployer,
    {
        let mut preferences = self;
        preferences.file = Some(file);
        preferences
    }
}

impl Default for Preferences {
    /// No remembered dictionary and no configured deployer.
    fn default() -> (r: Self)
        ensures
            r.file is None,
            r.deployer is None,
    {
        Preferences { file: None, deployer: None }
    }
}

/// The deployer to use when the preferences configure one: that deployer, labelled custom.
/// `None` means that the deployer is to be searched for.
pub fn configured_deployer(preferences: Preferences) -> (r: Option<DeploymentCandidate>)
    ensures
        match preferences.deployer {
            None => r is None,
            Some(config) => r matches Some(candidate) && candidate.executable == config.executable
                && candidate.arguments == config.arguments && candidate.working_directory
                == config.working_directory && candidate.label@ == "custom"@ && !candidate.experimental
                && candidate.custom,
        },
{
    match preferences.deployer {
        Some(config) => Some(DeploymentCandidate::from_custom(config)),
        None => None,
    }
}

/// Checks a deployer configuration before it is remembered: its executable must be a file
/// (`deployer-not-found` otherwise) and its working directory, when it has one, a directory
/// (`deployer-working-directory-not-found` otherwise). The caller looks both up.
pub fn check_deployment_config(config: &DeploymentConfig, executable_is_file: bool, working_directory_is_dir: bool) -> (r: Result<(), String>)
    ensures
        !executable_is_file ==> (r matches Err(e) && e@ == "deployer-not-found"@),
        executable_is_file && config.working_directory is Some && !working_directory_is_dir ==> (
        r matches Err(e) && e@ == "deployer-working-directory-not-found"@),
        executable_is_file && (config.working_directory is None || working_directory_is_dir) ==> r is Ok,
{
    proof {
        reveal_strlit("deployer-not-found");
        reveal_strlit("deployer-working-directory-not-found");
    }
    if !executable_is_file {
        return Err(String::from_str("deployer-not-found"));
    }
    if config.working_directory.is_some() && !working_directory_is_dir {
        return Err(String::from_str("deployer-working-directory-not-found"));
    }
    Ok(())
}

} // verus!
