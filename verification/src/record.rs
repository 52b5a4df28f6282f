//! The record that the search produces for each hit.

use vstd::prelude::*;

verus! {

/// The mathematical value of a [`Match`].
pub struct MatchView {
    pub file_path: Seq<char>,
    pub line_number: nat,
    pub line_content: Seq<char>,
}

/// One hit: the file it was found in, the 1-based number of the line, and the
/// line's text exactly as it was read (neither folded nor trimmed).
#[derive(Debug, Clone, PartialEq, Eq)]
pub struct Match {
    pub file_path: String,
    pub line_number: usize,
    pub line_content: String,
}

impl View for Match {
    type V = MatchView;

    open spec fn view(&self) -> MatchView {
        MatchView {
            file_path: self.file_path@,
            line_number: self.line_number as nat,
            line_content: self.line_content@,
        }
    }
}

impl DeepView for Match {
    type V = MatchView;

    open spec fn deep_view(&self) -> MatchView {
        self@
    }
}

impl MatchView {
    /// Line numbers start at 1.
    pub open spec fn well_formed(self) -> bool {
        self.line_number >= 1
    }
}

} // verus!
