//! Picking one record of a result by its 1-based number.

use vstd::prelude::*;
use crate::record::Match;

verus! {

/// The record that a 1-based `selection` names. `0` selects nothing, and so
/// does a number beyond the last record.
pub fn select_match(matches: &Vec<Match>, selection: usize) -> (picked: Option<&Match>)
    ensures
        picked is Some <==> 1 <= selection <= matches.len(),
        picked matches Some(record) ==> *record == matches[selection - 1],
{
    if selection > 0 && selection <= matches.len() {
        Some(&matches[selection - 1])
    } else {
        None
    }
}

} // verus!
