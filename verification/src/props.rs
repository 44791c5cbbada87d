//! Named properties: ordered name/value pairs attached to a tag.

use vstd::prelude::*;

use crate::text;
use crate::text::{spec_text_valid, str_bytes};

verus! {

/// Check if the given property name is valid.
///
/// A name is valid when it equals its own ASCII-whitespace-trimmed form and
/// does not start with a slash.  An empty name passes this textual rule,
/// though a property with an empty name is itself invalid.
pub fn is_name_valid(name: &str) -> (r: bool)
    ensures
        r == spec_text_valid(str_bytes(name@)),
{
    text::str_text_valid(name)
}

/// Check if the given property name is empty.
pub fn is_name_empty(name: &str) -> (r: bool)
    ensures
        r == (str_bytes(name@).len() == 0),
{
    proof {
        text::lemma_str_bytes_empty(name@);
    }
    name.is_empty()
}

/// The mathematical model of a property: the UTF-8 bytes of its name and of
/// its value.
pub ghost struct PropView {
    pub name: Seq<u8>,
    pub value: Seq<u8>,
}

/// A property with a non-empty name is valid; its value is unconstrained.
pub open spec fn spec_prop_valid(p: PropView) -> bool {
    p.name.len() > 0
}

/// A named property
#[derive(Debug, Clone, Eq)]
pub struct Property {
    /// The name
    pub name: String,

    /// The value
    pub value: String,
}

impl View for Property {
    type V = PropView;

    open spec fn view(&self) -> PropView {
        PropView { name: str_bytes(self.name@), value: str_bytes(self.value@) }
    }
}

impl DeepView for Property {
    type V = PropView;

    open spec fn deep_view(&self) -> PropView {
        self.view()
    }
}

impl Property {
    /// Check for a non-empty name.
    pub fn has_name(&self) -> (r: bool)
        ensures
            r == (self@.name.len() > 0),
    {
        proof {
            text::lemma_str_bytes_empty(self.name@);
        }
        !self.name.as_str().is_empty()
    }

    /// Return the name.
    pub fn name(&self) -> (r: &String)
        ensures
            r == &self.name,
    {
        &self.name
    }

    /// Return the value.
    pub fn value(&self) -> (r: &String)
        ensures
            r == &self.value,
    {
        &self.value
    }

    /// Check if the property is valid, that is: its name is non-empty.
    pub fn is_valid(&self) -> (r: bool)
        ensures
            r == spec_prop_valid(self@),
    {
        self.has_name()
    }
}

} // verus!
