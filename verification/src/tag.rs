//! The tag model: a label, a facet and an ordered list of properties.

use vstd::prelude::*;

use crate::facet;
use crate::facet::spec_has_date_like_suffix;
use crate::props::{PropView, Property};
use crate::text;
use crate::text::str_bytes;

verus! {

/// The mathematical model of a tag: the UTF-8 bytes of its label and facet,
/// and the models of its properties in order.
pub ghost struct TagView {
    pub label: Seq<u8>,
    pub facet: Seq<u8>,
    pub props: Seq<PropView>,
}

/// A tag is valid when it has a non-empty label, or a non-empty facet that
/// comes with at least one property or is itself date-like.
pub open spec fn spec_tag_valid(t: TagView) -> bool {
    ||| t.label.len() > 0
    ||| (t.facet.len() > 0 && (t.props.len() > 0 || spec_has_date_like_suffix(t.facet)))
}

/// A tag
#[derive(Debug, Clone, Eq)]
pub struct Tag {
    /// The label
    pub label: String,

    /// The facet
    pub facet: String,

    /// The properties
    pub props: Vec<Property>,
}

impl View for Tag {
    type V = TagView;

    open spec fn view(&self) -> TagView {
        TagView {
            label: str_bytes(self.label@),
            facet: str_bytes(self.facet@),
            props: Seq::new(self.props@.len(), |i: int| self.props@[i]@),
        }
    }
}

impl Tag {
    /// Check for a non-empty label.
    pub fn has_label(&self) -> (r: bool)
        ensures
            r == (self@.label.len() > 0),
    {
        proof {
            text::lemma_str_bytes_empty(self.label@);
        }
        !self.label.as_str().is_empty()
    }

    /// Return the label.
    pub fn label(&self) -> (r: &String)
        ensures
            r == &self.label,
    {
        &self.label
    }

    /// Check for a non-empty facet.
    pub fn has_facet(&self) -> (r: bool)
        ensures
            r == (self@.facet.len() > 0),
    {
        proof {
            text::lemma_str_bytes_empty(self.facet@);
        }
        !self.facet.as_str().is_empty()
    }

    /// Return the facet.
    pub fn facet(&self) -> (r: &String)
        ensures
            r == &self.facet,
    {
        &self.facet
    }

    /// Check for non-empty properties.
    pub fn has_props(&self) -> (r: bool)
        ensures
            r == (self@.props.len() > 0),
    {
        self.props.len() > 0
    }

    /// Return the properties.
    pub fn props(&self) -> (r: &Vec<Property>)
        ensures
            r == &self.props,
    {
        &self.props
    }

    /// Check if the tag is valid.
    pub fn is_valid(&self) -> (r: bool)
        ensures
            r == spec_tag_valid(self@),
    {
        if self.has_label() {
            true
        } else if self.has_facet() {
            if self.has_props() {
                true
            } else {
                facet::has_date_like_suffix(self.facet.as_str())
            }
        } else {
            false
        }
    }
}

impl Default for Tag {
    /// The empty tag: no label, no facet, no properties.  It is not valid.
    fn default() -> (r: Self)
        ensures
            r@.label == Seq::<u8>::empty(),
            r@.facet == Seq::<u8>::empty(),
            r@.props == Seq::<PropView>::empty(),
    {
        let r = Tag { label: String::new(), facet: String::new(), props: Vec::new() };
        proof {
            text::lemma_str_bytes_empty(r.label@);
            assert(r@.label =~= Seq::<u8>::empty());
            assert(r@.facet =~= Seq::<u8>::empty());
            assert(r@.props =~= Seq::<PropView>::empty());
        }
        r
    }
}

impl PartialEq for Property {
    fn eq(&self, other: &Self) -> (r: bool) {
        let name_eq = self.name == other.name;
        let value_eq = self.value == other.value;
        proof {
            if str_bytes(self.name@) == str_bytes(other.name@) {
                text::lemma_str_bytes_injective(self.name@, other.name@);
            }
            if str_bytes(self.value@) == str_bytes(other.value@) {
                text::lemma_str_bytes_injective(self.value@, other.value@);
            }
        }
        name_eq && value_eq
    }
}

impl vstd::std_specs::cmp::PartialEqSpecImpl for Property {
    open spec fn obeys_eq_spec() -> bool {
        true
    }

    open spec fn eq_spec(&self, other: &Self) -> bool {
        self@ == other@
    }
}

/// Compare two property lists field by field.
pub(crate) fn props_eq(a: &Vec<Property>, b: &Vec<Property>) -> (r: bool)
    ensures
        r == (a.deep_view() =~= b.deep_view()),
{
    if a.len() != b.len() {
        proof {
            assert(a.deep_view().len() != b.deep_view().len());
        }
        return false;
    }
    let n = a.len();
    let mut i: usize = 0;
    while i < n
        invariant
            0 <= i <= n,
            n == a@.len(),
            n == b@.len(),
            forall|j: int| 0 <= j < i ==> a@[j]@ == b@[j]@,
        decreases n - i,
    {
        let pa = &a[i];
        let pb = &b[i];
        if !(pa == pb) {
            proof {
                assert(a.deep_view()[i as int] == a@[i as int]@);
                assert(b.deep_view()[i as int] == b@[i as int]@);
            }
            return false;
        }
        i = i + 1;
    }
    proof {
        assert forall|j: int| 0 <= j < a.deep_view().len() implies a.deep_view()[j]
            == b.deep_view()[j] by {
            assert(a.deep_view()[j] == a@[j]@);
            assert(b.deep_view()[j] == b@[j]@);
        }
    }
    true
}

impl PartialEq for Tag {
    fn eq(&self, other: &Self) -> (r: bool) {
        let label_eq = self.label == other.label;
        let facet_eq = self.facet == other.facet;
        proof {
            if str_bytes(self.label@) == str_bytes(other.label@) {
                text::lemma_str_bytes_injective(self.label@, other.label@);
            }
            if str_bytes(self.facet@) == str_bytes(other.facet@) {
                text::lemma_str_bytes_injective(self.facet@, other.facet@);
            }
            assert(self@.props =~= self.props.deep_view());
            assert(other@.props =~= other.props.deep_view());
        }
        label_eq && facet_eq && props_eq(&self.props, &other.props)
    }
}

impl vstd::std_specs::cmp::PartialEqSpecImpl for Tag {
    open spec fn obeys_eq_spec() -> bool {
        true
    }

    open spec fn eq_spec(&self, other: &Self) -> bool {
        self@ == other@
    }
}

} // verus!
