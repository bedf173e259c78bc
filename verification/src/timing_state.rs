//! Reading the physical occurrence behind a timing-state class name.
use vstd::prelude::*;

use crate::text::{after_prefix, parse_usize, parsed_usize, strip_prefix_text};

verus! {

/// The anchor of a class named `physical.<n>`, when the rest is a `usize`.
pub open spec fn anchor_of(text: Seq<char>) -> Option<usize> {
    match after_prefix(text, "physical."@) {
        Some(rest) => parsed_usize(rest),
        None => None,
    }
}

/// The physical anchor that a class name stands for, if it names one.
pub fn physical_anchor(text: &str) -> (r: Option<usize>)
    ensures
        r == anchor_of(text@),
{
    match strip_prefix_text(text, "physical.") {
        Some(rest) => parse_usize(rest.as_str()),
        None => None,
    }
}

} // verus!
