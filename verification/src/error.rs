//! The ways in which a command can fail.

use vstd::prelude::*;
use vstd::string::*;

verus! {

/// Why a command did not succeed.
#[derive(Debug)]
pub enum AppError {
    /// The platform names no directory for the bookmark file.
    DataDirectoryUnavailable,
    /// A file could not be read or written; the text is the system's report.
    Io(String),
    /// The interactive selection failed; the text is its report.
    Picker(String),
    /// A path given for removal is not absolute.
    InvalidPath,
    /// A path given for removal is not among the bookmarks.
    NotFound(String),
}

impl AppError {
    /// The line shown to the user for this error.
    pub open spec fn text(self) -> Seq<char> {
        match self {
            AppError::DataDirectoryUnavailable => "Could not determine home/config directory"@,
            AppError::Io(report) => report@,
            AppError::Picker(report) => report@,
            AppError::InvalidPath => "Path must be absolute"@,
            AppError::NotFound(path) => "Not found: "@ + path@,
        }
    }

    /// Writes the line shown to the user for this error.
    pub fn message(&self) -> (line: String)
        ensures
            line@ == self.text(),
    {
        match self {
            AppError::DataDirectoryUnavailable => String::from_str(
                "Could not determine home/config directory",
            ),
            AppError::Io(report) => report.clone(),
            AppError::Picker(report) => report.clone(),
            AppError::InvalidPath => String::from_str("Path must be absolute"),
            AppError::NotFound(path) => {
                let mut line = String::from_str("Not found: ");
                line.append(path.as_str());
                line
            },
        }
    }
}

} // verus!
