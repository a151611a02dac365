//! The options that a converter front end hands to the library: which
//! grammar the input files use and which form the output takes.  Reading
//! the command line and the files themselves belongs to the caller.

use vstd::prelude::*;

verus! {

/// The grammar of the input files.
#[derive(Debug, Clone, Copy, PartialEq, Eq, Structural)]
pub enum InputFormat {
    /// Membership files: radical to kanji
    Radk,
    /// Decomposition files: kanji to radicals
    Krad,
}

/// The form of the rendered output.
#[derive(Debug, Clone, Copy, PartialEq, Eq, Structural)]
pub enum OutputFormat {
    /// Plain Unicode text, one record per line
    Unicode,
    /// An embeddable table of record literals
    Rust,
}

/// A whole converter invocation: input format, output format, the input
/// paths, and the output path.
#[derive(Debug, Clone, PartialEq, Eq)]
pub struct Opts {
    pub input_format: InputFormat,
    pub output_format: OutputFormat,
    pub inputs: Vec<String>,
    pub output: String,
}

} // verus!
