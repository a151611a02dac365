//! The row types of the embeddable tables that the `Rust` output format
//! renders: static decomposition and membership records, in a form that a
//! program can compile in directly.

use vstd::prelude::*;

verus! {

/// The constituent radicals for a kanji.
pub struct Decomposition {
    /// The kanji
    pub kanji: &'static str,
    /// The radicals contained in the kanji
    pub radicals: &'static [&'static str],
}

/// The kanji that contain a radical.
pub struct Membership {
    /// The radical
    pub radical: &'static str,
    /// The kanjis that contain the radical
    pub kanji: &'static [&'static str],
    /// The number of strokes to draw the radical
    pub strokes: u8,
}

} // verus!
