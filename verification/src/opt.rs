//! The options of one run, as plain data; how they are gathered from the
//! command line is the caller's business.

use vstd::prelude::*;

verus! {

/// The style in which results are printed.
#[derive(Clone, Copy, Debug, PartialEq, Eq, Structural)]
pub enum Style {
    Json,
    Line,
    Caret,
}

/// One run's options: rule locations, output style, split factor, unicode
/// flag, and text locations.
#[derive(Clone, Debug)]
pub struct Opt {
    pub lints: Vec<String>,
    pub style: Style,
    pub split: usize,
    pub unicode: bool,
    pub files: Vec<String>,
}

} // verus!
