//! Why a configuration failed to load.

use vstd::prelude::*;
use vstd::string::StringExecFns;

verus! {

/// The cause of a failed load.
#[derive(Debug, PartialEq, Eq)]
pub enum LoadError {
    /// The file's extension names no format that can be read. Holds the
    /// file's path.
    UnsupportedFileType(String),
    /// The text is not well-formed. Holds the parser's message.
    Malformed(String),
    /// An included file does not exist. Holds its path.
    MissingInclude(String),
    /// A file could not be read. Holds the cause.
    Unreadable(String),
    /// The document holds an alias, which is not supported.
    Alias,
}

/// The model of a [`LoadError`].
pub enum Failure {
    UnsupportedFileType(Seq<char>),
    Malformed(Seq<char>),
    MissingInclude(Seq<char>),
    Unreadable(Seq<char>),
    Alias,
}

impl View for LoadError {
    type V = Failure;

    open spec fn view(&self) -> Failure {
        match self {
            LoadError::UnsupportedFileType(path) => Failure::UnsupportedFileType(path@),
            LoadError::Malformed(message) => Failure::Malformed(message@),
            LoadError::MissingInclude(path) => Failure::MissingInclude(path@),
            LoadError::Unreadable(cause) => Failure::Unreadable(cause@),
            LoadError::Alias => Failure::Alias,
        }
    }
}

impl Failure {
    /// The cause, in words.
    pub open spec fn message(self) -> Seq<char> {
        match self {
            Failure::UnsupportedFileType(_) => "Unkown filetype, supported: yml"@,
            Failure::Malformed(message) => message,
            Failure::MissingInclude(path) => "Included file not found: "@ + path,
            Failure::Unreadable(cause) => cause,
            Failure::Alias => "Aliases in yaml file not supported"@,
        }
    }
}

impl LoadError {
    /// The cause, in words.
    pub fn message(&self) -> (text: String)
        ensures
            text@ == self@.message(),
    {
        match self {
            LoadError::UnsupportedFileType(_) => "Unkown filetype, supported: yml".to_owned(),
            LoadError::Malformed(message) => message.clone(),
            LoadError::MissingInclude(path) => {
                let mut text = "Included file not found: ".to_owned();
                text.append(path.as_str());
                text
            },
            LoadError::Unreadable(cause) => cause.clone(),
            LoadError::Alias => "Aliases in yaml file not supported".to_owned(),
        }
    }
}

} // verus!
