//! The persistence steps as functions of plain values. Resolving the
//! per-user directory, creating it, and reading or writing the file are
//! filesystem work and stay with the surrounding application; everything
//! the operations decide or compute stands here, with its contract.

use vstd::prelude::*;
use vstd::string::StringExecFns;
use crate::config::Config;
use crate::config::ConfigError;
use crate::decode::decode_config;
use crate::decode::spec_decode;
use crate::encode::encode_config;
use crate::encode::spec_encoded;

verus! {

/// The fixed name of the stored file inside the configuration directory.
pub fn config_file_name() -> (s: String)
    ensures
        s@ == "gitlab_config.json"@,
{
    String::from_str("gitlab_config.json")
}

/// What a save must do once the directory is known: write `contents` to
/// the file `file_name` inside it, fully replacing any prior content.
#[derive(Debug)]
pub struct SavePlan {
    pub file_name: String,
    pub contents: String,
}

/// The save decision. `dir_available` says whether the platform supplied a
/// per-user configuration directory. Without one the save fails with
/// `DirectoryUnavailable` and nothing is to be written; with one the save
/// succeeds and the plan carries the fixed file name and exactly the
/// encoded text of the configuration. Encoding is total, so no other
/// outcome exists.
pub fn save_plan(dir_available: bool, c: &Config) -> (r: Result<SavePlan, ConfigError>)
    ensures
        !dir_available ==> (r matches Err(e) && e == ConfigError::DirectoryUnavailable),
        dir_available ==> (r matches Ok(p) && p.file_name@ == "gitlab_config.json"@
            && p.contents@ == spec_encoded(c@)),
{
    if !dir_available {
        return Err(ConfigError::DirectoryUnavailable);
    }
    Ok(SavePlan { file_name: config_file_name(), contents: encode_config(c) })
}

/// The load outcome. `dir_available` says whether the platform supplied a
/// configuration directory; `read` what reading the file gave, `None`
/// where it could not be read, which covers the file not existing yet.
/// Exactly as the operation's steps demand: no directory gives
/// `DirectoryUnavailable`, a failed read gives `IoError` and never a
/// decode failure, and text that was read decodes to its configuration or
/// to `DecodeError`.
pub fn load_outcome(dir_available: bool, read: Option<&str>) -> (r: Result<Config, ConfigError>)
    ensures
        !dir_available ==> (r matches Err(e) && e == ConfigError::DirectoryUnavailable),
        dir_available && read is None ==> (r matches Err(e) && e == ConfigError::IoError),
        read matches Some(text) ==> dir_available ==> ((spec_decode(text@) matches Some(cv)
            ==> (r matches Ok(c) && c@ == cv)) && (spec_decode(text@) is None ==> (r matches Err(
            e,
        ) && e == ConfigError::DecodeError))),
{
    if !dir_available {
        return Err(ConfigError::DirectoryUnavailable);
    }
    match read {
        None => Err(ConfigError::IoError),
        Some(text) => decode_config(text),
    }
}

} // verus!
