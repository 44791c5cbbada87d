//! Labels: the free-text display name of a tag.

use vstd::prelude::*;

use crate::text;
use crate::text::{spec_text_valid, str_bytes};

verus! {

/// Check if the given label is valid.
///
/// A label is valid when it equals its own ASCII-whitespace-trimmed form and
/// does not start with a slash.  An empty label is valid.
pub fn is_valid(label: &str) -> (r: bool)
    ensures
        r == spec_text_valid(str_bytes(label@)),
{
    text::str_text_valid(label)
}

/// Check if the given label is empty.
pub fn is_empty(label: &str) -> (r: bool)
    ensures
        r == (str_bytes(label@).len() == 0),
{
    proof {
        text::lemma_str_bytes_empty(label@);
    }
    label.is_empty()
}

} // verus!
