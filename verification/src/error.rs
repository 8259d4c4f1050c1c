//! What can be wrong with a run's configuration.

use crate::pattern::{error_text, pattern_error_text};
use vstd::prelude::*;
use vstd::string::*;

verus! {

/// A fault in the configuration of a run. Each is found before anything is
/// read or rendered.
#[derive(Debug)]
pub enum ConfigError {
    /// No file exists at the given path.
    MissingFile(String),
    /// The chunk size is zero.
    NonPositiveChunkSize,
    /// The pattern does not compile.
    InvalidPattern(regex::Error),
}

impl ConfigError {
    /// The text of the message that tells a user of this fault.
    pub open spec fn message_text(&self) -> Seq<char> {
        match self {
            ConfigError::MissingFile(path) => "file '"@ + path@ + "' does not exist"@,
            ConfigError::NonPositiveChunkSize => "chunks arg must be greater than zero"@,
            ConfigError::InvalidPattern(error) => pattern_error_text(*error),
        }
    }

    /// The message that tells a user of this fault.
    pub fn message(&self) -> (text: String)
        ensures
            text@ == self.message_text(),
    {
        match self {
            ConfigError::MissingFile(path) => {
                let mut text = String::from_str("file '");
                text.append(path.as_str());
                text.append("' does not exist");
                text
            },
            ConfigError::NonPositiveChunkSize => String::from_str(
                "chunks arg must be greater than zero",
            ),
            ConfigError::InvalidPattern(error) => error_text(error),
        }
    }
}

} // verus!
