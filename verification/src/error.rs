//! Errors reported by the tool.
use vstd::prelude::*;

verus! {

/// Why a run of the tool failed.
#[derive(Debug, Clone, PartialEq, Eq)]
pub enum SameError {
    /// No file to analyze was found.
    NoFilesFound,
    /// A glob pattern could not be parsed.
    InvalidGlob { pattern: String, message: String },
    /// A file could not be read.
    FileRead { path: String, message: String },
}

/// The text shown for an error.
pub open spec fn error_text(e: SameError) -> Seq<char> {
    match e {
        SameError::NoFilesFound => "No files found to analyze"@,
        SameError::InvalidGlob { pattern, message } => "Invalid glob pattern '"@ + pattern@ + "': "@
            + message@,
        SameError::FileRead { path, message } => "Failed to read file '"@ + path@ + "': "@
            + message@,
    }
}

impl SameError {
    /// The text shown for this error.
    pub fn message(&self) -> (s: String)
        ensures
            s@ == error_text(*self),
    {
        let mut s = String::new();
        match self {
            SameError::NoFilesFound => {
                s.append("No files found to analyze");
            },
            SameError::InvalidGlob { pattern, message } => {
                s.append("Invalid glob pattern '");
                s.append(pattern.as_str());
                s.append("': ");
                s.append(message.as_str());
            },
            SameError::FileRead { path, message } => {
                s.append("Failed to read file '");
                s.append(path.as_str());
                s.append("': ");
                s.append(message.as_str());
            },
        }
        assert(s@ =~= error_text(*self));
        s
    }
}

} // verus!
