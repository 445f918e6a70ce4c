//! The validated session configuration that the core consumes.
//!
//! Command-line parsing, colors, and the optional minimum-accuracy display
//! threshold are the driver's business; only the fields the sampler and the
//! session logic read live here.

use vstd::prelude::*;

use crate::error::Error;

verus! {

/// Configuration for one sampling attempt and the sessions built from it.
#[derive(Debug)]
pub struct Config {
    /// Root of the directory tree to draw source files from.
    pub project_path: String,
    /// File extension (without a leading dot) that candidate files must have.
    pub file_extension: String,
    /// How many words one session presents; at least 1.
    pub word_count: usize,
    /// Strict mode: completion requires an exact match to the target.
    pub strict: bool,
    /// Whether a space typed mid-word skips the rest of the word.
    pub skip_word_on_space: bool,
}

impl Config {
    /// A well-formed configuration never asks for zero words.
    pub open spec fn wf(self) -> bool {
        self.word_count >= 1
    }

    /// Builds a configuration, rejecting a zero word count.
    pub fn new(
        project_path: String,
        file_extension: String,
        word_count: usize,
        strict: bool,
        skip_word_on_space: bool,
    ) -> (r: Result<Config, Error>)
        ensures
            word_count == 0 <==> r is Err,
            r is Err ==> r->Err_0 == Error::ZeroWordCount,
            r is Ok ==> r->Ok_0 == (Config {
                project_path,
                file_extension,
                word_count,
                strict,
                skip_word_on_space,
            }),
            r is Ok ==> r->Ok_0.wf(),
    {
        if word_count == 0 {
            Err(Error::ZeroWordCount)
        } else {
            Ok(Config { project_path, file_extension, word_count, strict, skip_word_on_space })
        }
    }
}

} // verus!
