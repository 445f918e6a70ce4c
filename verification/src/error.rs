//! Error kinds surfaced by sampling and configuration validation.

use vstd::prelude::*;

verus! {

/// Everything that can go wrong before a typing session starts.
///
/// `NoFiles` and `InsufficientWords` come out of corpus sampling;
/// the remaining variants belong to configuration validation.
#[derive(Debug, PartialEq, Eq, Structural)]
pub enum Error {
    PathMissing,
    NoFiles,
    InsufficientWords,
    ZeroWordCount,
    NeedsHelp,
    InvalidColor,
    InvalidFile,
    Version,
}

impl Error {
    /// A human-readable message for each error kind.
    pub fn to_string(self) -> (r: String)
        ensures
            self is PathMissing ==> r@ == "Provide a path to a Rust project"@,
            self is InvalidColor ==> r@ == "Color needs to be a u8 or a color string."@,
            self is InvalidFile ==> r@ == "File format was incorrect (possibly binary?)"@,
            self is NoFiles ==> r@ == "No code files found"@,
            self is InsufficientWords ==> r@ == "Not enough words to meet word count"@,
            self is ZeroWordCount ==> r@ == "Word count can not be zero"@,
            self is Version ==> r@ == "Version: 0.1.0"@,
            self is NeedsHelp ==> r@ == "Usage: tccst -t rs -w 5 path_to_project
    -t : extension of files to use for words. Defaults to rs for Rust.
    -w : number of words to type against. Defaults to 10.
    -s : strict mode. Input must be matched perfectly, otherwise game can't end! Space will not skip the entire word"@,
    {
        match self {
            Error::PathMissing => "Provide a path to a Rust project".to_owned(),
            Error::InvalidColor => "Color needs to be a u8 or a color string.".to_owned(),
            Error::InvalidFile => "File format was incorrect (possibly binary?)".to_owned(),
            Error::NoFiles => "No code files found".to_owned(),
            Error::InsufficientWords => "Not enough words to meet word count".to_owned(),
            Error::ZeroWordCount => "Word count can not be zero".to_owned(),
            Error::Version => "Version: 0.1.0".to_owned(),
            Error::NeedsHelp => "Usage: tccst -t rs -w 5 path_to_project
    -t : extension of files to use for words. Defaults to rs for Rust.
    -w : number of words to type against. Defaults to 10.
    -s : strict mode. Input must be matched perfectly, otherwise game can't end! Space will not skip the entire word".to_owned(),
        }
    }
}

} // verus!
