//! A lightweight, textual tagging system for embedding structured tags
//! (a label, a facet and key/value properties) inside free-form text fields.
//!
//! A [`Tag`] is encoded as a single, whitespace-free, URL-shaped token
//! (`facet?name=value&...#label` with percent-encoding) and decoded back.
//! [`DecodedTags`] scans a whole text field for a trailing run of tag tokens,
//! re-encodes it, and brings a tag collection into a canonical order.

use vstd::prelude::*;

pub mod codec;
pub mod facet;
pub mod label;
pub mod order;
pub mod percent;
pub mod props;
pub mod scan;
mod tag;
pub mod text;

pub use codec::{DecodeError, ParseErrorKind};
pub use props::Property;
pub use scan::DecodedTags;
pub use tag::{spec_tag_valid, Tag, TagView};

verus! {

} // verus!
