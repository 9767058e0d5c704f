//! The configuration value that is persisted, and the error taxonomy of the
//! persistence operations.

use vstd::prelude::*;
use vstd::string::StringExecFns;

verus! {

/// The persisted configuration: a service endpoint and an access credential.
/// Both fields must be present in the stored form; neither has a default.
#[derive(Debug, Clone, PartialEq, Eq)]
pub struct Config {
    pub url: String,
    pub token: String,
}

/// The mathematical value of a `Config`: the two fields as character
/// sequences.
pub ghost struct ConfigView {
    pub url: Seq<char>,
    pub token: Seq<char>,
}

impl View for Config {
    type V = ConfigView;

    open spec fn view(&self) -> ConfigView {
        ConfigView { url: self.url@, token: self.token@ }
    }
}

/// Why a persistence operation failed. Every failure of save or load is one
/// of these; the caller turns it into a human-readable message at the outer
/// boundary.
#[derive(Debug, Clone, Copy, PartialEq, Eq, Structural)]
pub enum ConfigError {
    /// The platform could not supply a per-user configuration directory.
    DirectoryUnavailable,
    /// Directory creation, file write or file read failed; on load this also
    /// covers the file not existing yet.
    IoError,
    /// The configuration could not be encoded. The encoder in this crate is
    /// total, so no operation here ever returns it; it is kept because the
    /// error taxonomy of the operations names it.
    EncodeError,
    /// The stored text is not a JSON object carrying string fields `url` and
    /// `token`.
    DecodeError,
}

impl ConfigError {
    /// The human-readable text handed across the outer boundary; the
    /// taxonomy itself is not exposed there.
    pub fn message(&self) -> (s: String)
        ensures
            self is DirectoryUnavailable ==> s@ == "Failed to get app config directory"@,
            self is IoError ==> s@ == "could not read or write the configuration file"@,
            self is EncodeError ==> s@ == "could not encode the configuration"@,
            self is DecodeError ==> s@ == "the stored configuration is not valid"@,
    {
        match self {
            ConfigError::DirectoryUnavailable => String::from_str(
                "Failed to get app config directory",
            ),
            ConfigError::IoError => String::from_str(
                "could not read or write the configuration file",
            ),
            ConfigError::EncodeError => String::from_str("could not encode the configuration"),
            ConfigError::DecodeError => String::from_str("the stored configuration is not valid"),
        }
    }
}

impl Config {
    /// Builds a configuration from its two fields.
    pub fn new(url: String, token: String) -> (c: Config)
        ensures
            c@.url == url@,
            c@.token == token@,
    {
        Config { url, token }
    }
}

} // verus!
