//! Run configuration: a query, a file path, and a matching policy.
//!
//! The surrounding program collects the raw positional arguments and the
//! case-insensitivity flag; [`Config::build`] decides whether they form a
//! complete configuration, and which argument is missing when they do not.

use vstd::prelude::*;

verus! {

/// Why a configuration could not be built.
#[derive(PartialEq, Eq, Structural, Clone, Copy, Debug)]
pub enum ConfigError {
    /// No query argument was supplied.
    MissingQuery,
    /// No file path argument was supplied.
    MissingFilePath,
}

impl ConfigError {
    /// A fixed message describing the error, suitable for a user.
    pub fn message(&self) -> (r: &'static str)
        ensures
            *self == ConfigError::MissingQuery ==> r@ == "Didn't get a query string"@,
            *self == ConfigError::MissingFilePath ==> r@ == "Didn't get a file path"@,
    {
        match self {
            ConfigError::MissingQuery => "Didn't get a query string",
            ConfigError::MissingFilePath => "Didn't get a file path",
        }
    }
}

/// What one run of the program searches for, where, and how.
#[derive(Debug)]
pub struct Config {
    /// The substring to search for.
    pub query: String,
    /// The file whose contents are to be searched.
    pub file_path: String,
    /// Whether matching folds case.
    pub ignore_case: bool,
}

impl Config {
    /// Builds a configuration from the two positional arguments, in order,
    /// and the case-insensitivity flag. Fails exactly when an argument is
    /// missing, naming the first missing one.
    pub fn build(query: Option<String>, file_path: Option<String>, ignore_case: bool) -> (r:
        Result<Config, ConfigError>)
        ensures
            query is None <==> r == Err::<Config, ConfigError>(ConfigError::MissingQuery),
            query is Some && file_path is None <==> r == Err::<Config, ConfigError>(
                ConfigError::MissingFilePath,
            ),
            query is Some && file_path is Some <==> r is Ok,
            r is Ok ==> {
                &&& r->Ok_0.query == query->0
                &&& r->Ok_0.file_path == file_path->0
                &&& r->Ok_0.ignore_case == ignore_case
            },
    {
        let q = match query {
            Some(q) => q,
            None => {
                return Err(ConfigError::MissingQuery);
            },
        };
        let p = match file_path {
            Some(p) => p,
            None => {
                return Err(ConfigError::MissingFilePath);
            },
        };
        Ok(Config { query: q, file_path: p, ignore_case })
    }
}

} // verus!
