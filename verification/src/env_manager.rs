//! The settings that the program takes from its environment.

use vstd::prelude::*;

verus! {

/// The settings of one run.
#[derive(Debug)]
pub struct Env {
    pub gitlab_token: String,
    pub config_file_path: String,
}

/// The configuration file that is read where none is named.
pub open spec fn default_config_file_path() -> Seq<char> {
    "config.yml"@
}

impl Env {
    /// The settings, given what the environment holds: the path of the
    /// configuration file, if one is set, and the access token.
    pub fn get(config_file_path: Option<String>, gitlab_token: String) -> (env: Env)
        ensures
            env.gitlab_token@ == gitlab_token@,
            env.config_file_path@ == match config_file_path {
                Some(path) => path@,
                None => default_config_file_path(),
            },
    {
        let config_file_path = match config_file_path {
            Some(path) => path,
            None => "config.yml".to_owned(),
        };
        Env { gitlab_token, config_file_path }
    }
}

} // verus!
