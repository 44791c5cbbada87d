//! The token codec: encoding one tag as a single token string and decoding
//! such a token back into a tag.
//!
//! The token grammar is
//! `facet ['?' name '=' value {'&' name '=' value}] ['#' label]`, each
//! segment percent-encoded against its own encode set.  The whole token is
//! free of whitespace and never starts with a slash or a scheme-like prefix.

use vstd::prelude::*;
use vstd::string::StringExecFns;
use vstd::utf8::{encode_scalar, encode_utf8, valid_utf8};

use crate::percent;
use crate::percent::{in_set, spec_pct_encode, EncSet};
use crate::props::{PropView, Property};
use crate::tag::{spec_tag_valid, Tag, TagView};
use crate::text;
use crate::text::str_bytes;

verus! {

broadcast use vstd::utf8::group_utf8_lib;

/// The encoded form of one property: encoded name, `=`, encoded value.
pub open spec fn spec_encode_prop(p: PropView) -> Seq<u8> {
    spec_pct_encode(p.name, EncSet::Props) + seq![0x3du8] + spec_pct_encode(p.value, EncSet::Props)
}

/// The encoded forms of the properties, joined with `&`.
pub open spec fn spec_encode_props(ps: Seq<PropView>) -> Seq<u8>
    decreases ps.len(),
{
    if ps.len() == 0 {
        Seq::empty()
    } else if ps.len() == 1 {
        spec_encode_prop(ps[0])
    } else {
        spec_encode_prop(ps[0]) + seq![0x26u8] + spec_encode_props(ps.drop_first())
    }
}

/// The encoded form of a tag: the encoded facet, then `?` and the joined
/// properties if there are any, then `#` and the encoded label if there is
/// one.
pub open spec fn spec_encode_tag(t: TagView) -> Seq<u8> {
    spec_pct_encode(t.facet, EncSet::Facet) + (if t.props.len() > 0 {
        seq![0x3fu8] + spec_encode_props(t.props)
    } else {
        Seq::empty()
    }) + (if t.label.len() > 0 {
        seq![0x23u8] + spec_pct_encode(t.label, EncSet::Label)
    } else {
        Seq::empty()
    })
}

/// Appending one more property appends `&` and its encoded form.
pub proof fn lemma_encode_props_snoc(ps: Seq<PropView>, p: PropView)
    requires
        ps.len() >= 1,
    ensures
        spec_encode_props(ps.push(p)) == spec_encode_props(ps) + seq![0x26u8] + spec_encode_prop(p),
    decreases ps.len(),
{
    if ps.len() == 1 {
        assert(ps.push(p).drop_first() =~= seq![p]);
        assert(ps.push(p)[0] == ps[0]);
        assert(spec_encode_props(seq![p]) == spec_encode_prop(p));
        assert(spec_encode_props(ps.push(p)) =~= spec_encode_props(ps) + seq![0x26u8]
            + spec_encode_prop(p));
    } else {
        lemma_encode_props_snoc(ps.drop_first(), p);
        assert(ps.push(p).drop_first() =~= ps.drop_first().push(p));
        assert(ps.push(p)[0] == ps[0]);
        assert(spec_encode_props(ps.push(p)) =~= spec_encode_props(ps) + seq![0x26u8]
            + spec_encode_prop(p));
    }
}

/// Percent-encoding the UTF-8 bytes of a character sequence yields valid
/// UTF-8: escapes are ASCII, and the bytes of multi-byte characters are
/// never escaped, so they stay intact.
proof fn lemma_pct_encode_utf8_chars(chars: Seq<char>, set: EncSet)
    ensures
        valid_utf8(spec_pct_encode(encode_utf8(chars), set)),
    decreases chars.len(),
{
    if chars.len() == 0 {
        assert(encode_utf8(chars) =~= Seq::<u8>::empty());
        assert(spec_pct_encode(Seq::<u8>::empty(), set) =~= Seq::<u8>::empty());
        assert(valid_utf8(Seq::<u8>::empty()));
    } else {
        let c = chars[0] as u32;
        let head = encode_scalar(c);
        let rest = encode_utf8(chars.drop_first());
        assert(encode_utf8(chars) == head + rest);
        percent::lemma_pct_encode_concat(head, rest, set);
        lemma_pct_encode_utf8_chars(chars.drop_first(), set);
        let head_enc = spec_pct_encode(head, set);
        if vstd::utf8::has_width_1_encoding(c) {
            assert(forall|x: u32| x <= 0x7f ==> #[trigger] (x & 0x7f) == x) by (bit_vector);
            let b = vstd::utf8::leading_byte_width_1(c);
            assert(b < 0x80);
            assert(head =~= seq![b]);
            assert(spec_pct_encode(Seq::<u8>::empty(), set) =~= Seq::<u8>::empty());
            assert(seq![b].drop_first() =~= Seq::<u8>::empty());
            if in_set(set, b) {
                assert(spec_pct_encode(seq![b], set) =~= percent::pct_byte(b));
                assert(head_enc =~= percent::pct_byte(b));
            } else {
                assert(spec_pct_encode(seq![b], set) =~= seq![b]);
                assert(head_enc =~= seq![b]);
            }
            assert forall|i: int| 0 <= i < head_enc.len() implies #[trigger] head_enc[i]
                < 0x80 by {}
            text::lemma_ascii_bytes_valid_utf8(head_enc);
        } else {
            assert(forall|y: u8| #[trigger] (0x80u8 | y) >= 0x80) by (bit_vector);
            assert(forall|y: u8| #[trigger] (0xC0u8 | y) >= 0x80) by (bit_vector);
            assert(forall|y: u8| #[trigger] (0xE0u8 | y) >= 0x80) by (bit_vector);
            assert(forall|y: u8| #[trigger] (0xF0u8 | y) >= 0x80) by (bit_vector);
            assert(forall|i: int| 0 <= i < head.len() ==> #[trigger] head[i] >= 0x80);
            assert forall|i: int| 0 <= i < head.len() implies !in_set(
                set,
                #[trigger] head[i],
            ) by {}
            percent::lemma_pct_encode_identity(head, set);
            assert(seq![chars[0]].drop_first() =~= Seq::<char>::empty());
            assert(encode_utf8(Seq::<char>::empty()) =~= Seq::<u8>::empty());
            assert(encode_utf8(seq![chars[0]]) =~= head);
            assert(valid_utf8(encode_utf8(seq![chars[0]])));
        }
        vstd::utf8::valid_utf8_concat(head_enc, spec_pct_encode(rest, set));
    }
}

/// Percent-encoding valid UTF-8 bytes yields valid UTF-8.
pub proof fn lemma_pct_encode_valid_utf8(s: Seq<u8>, set: EncSet)
    requires
        valid_utf8(s),
    ensures
        valid_utf8(spec_pct_encode(s, set)),
{
    let chars = vstd::utf8::decode_utf8(s);
    vstd::utf8::decode_utf8_encode_utf8(s);
    lemma_pct_encode_utf8_chars(chars, set);
}

/// The joined encoded properties are valid UTF-8 when every name and value
/// is.
proof fn lemma_encode_props_valid_utf8(ps: Seq<PropView>)
    requires
        forall|i: int|
            0 <= i < ps.len() ==> valid_utf8(#[trigger] ps[i].name) && valid_utf8(ps[i].value),
    ensures
        valid_utf8(spec_encode_props(ps)),
    decreases ps.len(),
{
    if ps.len() == 0 {
        assert(valid_utf8(Seq::<u8>::empty()));
    } else {
        lemma_pct_encode_valid_utf8(ps[0].name, EncSet::Props);
        lemma_pct_encode_valid_utf8(ps[0].value, EncSet::Props);
        assert(forall|i: int| 0 <= i < seq![0x3du8].len() ==> #[trigger] seq![0x3du8][i] < 0x80);
        text::lemma_ascii_bytes_valid_utf8(seq![0x3du8]);
        vstd::utf8::valid_utf8_concat(spec_pct_encode(ps[0].name, EncSet::Props), seq![0x3du8]);
        vstd::utf8::valid_utf8_concat(
            spec_pct_encode(ps[0].name, EncSet::Props) + seq![0x3du8],
            spec_pct_encode(ps[0].value, EncSet::Props),
        );
        if ps.len() == 1 {
        } else {
            assert forall|i: int| 0 <= i < ps.drop_first().len() implies valid_utf8(
                #[trigger] ps.drop_first()[i].name,
            ) && valid_utf8(ps.drop_first()[i].value) by {
                assert(ps.drop_first()[i] == ps[i + 1]);
            }
            lemma_encode_props_valid_utf8(ps.drop_first());
            assert(forall|i: int|
                0 <= i < seq![0x26u8].len() ==> #[trigger] seq![0x26u8][i] < 0x80);
            text::lemma_ascii_bytes_valid_utf8(seq![0x26u8]);
            vstd::utf8::valid_utf8_concat(spec_encode_prop(ps[0]), seq![0x26u8]);
            vstd::utf8::valid_utf8_concat(
                spec_encode_prop(ps[0]) + seq![0x26u8],
                spec_encode_props(ps.drop_first()),
            );
        }
    }
}

/// The encoded token of a tag whose fields are valid UTF-8 is valid UTF-8.
pub proof fn lemma_encode_tag_valid_utf8(t: TagView)
    requires
        valid_utf8(t.label),
        valid_utf8(t.facet),
        forall|i: int|
            0 <= i < t.props.len() ==> valid_utf8(#[trigger] t.props[i].name) && valid_utf8(
                t.props[i].value,
            ),
    ensures
        valid_utf8(spec_encode_tag(t)),
{
    lemma_pct_encode_valid_utf8(t.facet, EncSet::Facet);
    let props_part = if t.props.len() > 0 {
        seq![0x3fu8] + spec_encode_props(t.props)
    } else {
        Seq::<u8>::empty()
    };
    let label_part = if t.label.len() > 0 {
        seq![0x23u8] + spec_pct_encode(t.label, EncSet::Label)
    } else {
        Seq::<u8>::empty()
    };
    if t.props.len() > 0 {
        lemma_encode_props_valid_utf8(t.props);
        assert(forall|i: int| 0 <= i < seq![0x3fu8].len() ==> #[trigger] seq![0x3fu8][i] < 0x80);
        text::lemma_ascii_bytes_valid_utf8(seq![0x3fu8]);
        vstd::utf8::valid_utf8_concat(seq![0x3fu8], spec_encode_props(t.props));
    } else {
        assert(valid_utf8(props_part));
    }
    if t.label.len() > 0 {
        lemma_pct_encode_valid_utf8(t.label, EncSet::Label);
        assert(forall|i: int| 0 <= i < seq![0x23u8].len() ==> #[trigger] seq![0x23u8][i] < 0x80);
        text::lemma_ascii_bytes_valid_utf8(seq![0x23u8]);
        vstd::utf8::valid_utf8_concat(seq![0x23u8], spec_pct_encode(t.label, EncSet::Label));
    } else {
        assert(valid_utf8(label_part));
    }
    vstd::utf8::valid_utf8_concat(spec_pct_encode(t.facet, EncSet::Facet), props_part);
    vstd::utf8::valid_utf8_concat(spec_pct_encode(t.facet, EncSet::Facet) + props_part, label_part);
}

/// Append the encoded token of a tag to a byte buffer.
pub(crate) fn encode_tag_push(out: &mut Vec<u8>, t: &Tag)
    ensures
        final(out)@ == old(out)@ + spec_encode_tag(t@),
{
    percent::pct_encode_push(out, t.facet.as_str().as_bytes(), EncSet::Facet);
    let n_props = t.props.len();
    if n_props > 0 {
        out.push(0x3f);
        let mut i: usize = 0;
        while i < n_props
            invariant
                1 <= n_props == t.props@.len(),
                0 <= i <= n_props,
                i == 0 ==> out@ == old(out)@ + spec_pct_encode(t@.facet, EncSet::Facet) + seq![
                    0x3fu8,
                ],
                i > 0 ==> out@ == old(out)@ + spec_pct_encode(t@.facet, EncSet::Facet) + seq![
                    0x3fu8,
                ] + spec_encode_props(t@.props.subrange(0, i as int)),
            decreases n_props - i,
        {
            if i > 0 {
                out.push(0x26);
            }
            let prop = &t.props[i];
            percent::pct_encode_push(out, prop.name.as_str().as_bytes(), EncSet::Props);
            out.push(0x3d);
            percent::pct_encode_push(out, prop.value.as_str().as_bytes(), EncSet::Props);
            proof {
                assert(t@.props[i as int] == t.props@[i as int]@);
                if i == 0 {
                    assert(t@.props.subrange(0, 1) =~= seq![t@.props[0]]);
                    assert(spec_encode_props(seq![t@.props[0]]) == spec_encode_prop(t@.props[0]));
                    assert(out@ =~= old(out)@ + spec_pct_encode(t@.facet, EncSet::Facet) + seq![
                        0x3fu8,
                    ] + spec_encode_props(t@.props.subrange(0, 1)));
                } else {
                    lemma_encode_props_snoc(t@.props.subrange(0, i as int), t@.props[i as int]);
                    assert(t@.props.subrange(0, i as int).push(t@.props[i as int])
                        =~= t@.props.subrange(0, i + 1 as int));
                    assert(out@ =~= old(out)@ + spec_pct_encode(t@.facet, EncSet::Facet) + seq![
                        0x3fu8,
                    ] + spec_encode_props(t@.props.subrange(0, i + 1 as int)));
                }
            }
            i = i + 1;
        }
        proof {
            assert(t@.props.subrange(0, n_props as int) =~= t@.props);
        }
    }
    let ghost mid: Seq<u8> = old(out)@ + spec_pct_encode(t@.facet, EncSet::Facet) + (if t@.props.len()
        > 0 {
        seq![0x3fu8] + spec_encode_props(t@.props)
    } else {
        Seq::<u8>::empty()
    });
    proof {
        assert(out@ =~= mid);
    }
    if !t.label.as_str().is_empty() {
        out.push(0x23);
        percent::pct_encode_push(out, t.label.as_str().as_bytes(), EncSet::Label);
        proof {
            text::lemma_str_bytes_empty(t.label@);
            assert(out@ =~= mid + seq![0x23u8] + spec_pct_encode(t@.label, EncSet::Label));
            assert(out@ =~= old(out)@ + spec_encode_tag(t@));
        }
    } else {
        proof {
            text::lemma_str_bytes_empty(t.label@);
            assert(t@.label.len() == 0);
            assert(out@ =~= old(out)@ + spec_encode_tag(t@));
        }
    }
}

/// The reason a token failed to parse.
#[derive(Debug, Clone, Copy, PartialEq, Eq, Structural)]
pub enum ParseErrorKind {
    /// The token has leading or trailing whitespace.
    SurroundingWhitespace,
    /// The token is empty.
    EmptyInput,
    /// The token starts with a slash.
    LeadingSlash,
    /// The token starts with a scheme-like prefix ending in `:`.
    SchemeLikePrefix,
    /// A percent-decoded segment is not valid UTF-8.
    InvalidUtf8,
    /// The decoded label has surrounding whitespace or a leading slash.
    InvalidLabel,
    /// The decoded facet has surrounding whitespace or a leading slash.
    InvalidFacet,
    /// The decoded facet carries a whitespace-preceded date-like suffix.
    InvalidDateLikeSuffix,
    /// A property segment has no `=`.
    PropertyWithoutValue,
    /// A property segment has more than one `=`.
    MalformedProperty,
    /// The decoded property name has surrounding whitespace or a leading
    /// slash.
    InvalidPropertyName,
}

/// A decoding error
#[derive(Debug, Clone, Copy, PartialEq, Eq, Structural)]
pub enum DecodeError {
    /// Every field decoded, but the assembled tag is not valid.
    InvalidTag,
    /// The token is not well formed.
    Parse(ParseErrorKind),
}

/// An ASCII letter.
pub open spec fn is_alpha_byte(b: u8) -> bool {
    (0x41 <= b && b <= 0x5a) || (0x61 <= b && b <= 0x7a)
}

/// A byte that may follow the first letter of a scheme-like prefix.
pub open spec fn is_scheme_byte(b: u8) -> bool {
    is_alpha_byte(b) || crate::facet::is_digit(b) || b == 0x2b || b == 0x2d || b == 0x2e
}

/// A token has a scheme-like prefix when it starts with a letter followed
/// by letters, digits, `+`, `-` or `.` up to a `:`.  Such a token is
/// rejected: it reads as an absolute reference, not as a bare tag token.
pub open spec fn spec_has_scheme_prefix(s: Seq<u8>) -> bool {
    exists|i: int|
        1 <= i < s.len() && #[trigger] s[i] == 0x3a && is_alpha_byte(s[0]) && (forall|j: int|
            1 <= j < i ==> is_scheme_byte(#[trigger] s[j]))
}

fn byte_is_scheme(b: u8) -> (r: bool)
    ensures
        r == is_scheme_byte(b),
{
    (0x41 <= b && b <= 0x5a) || (0x61 <= b && b <= 0x7a) || (0x30 <= b && b <= 0x39) || b == 0x2b
        || b == 0x2d || b == 0x2e
}

fn has_scheme_prefix(s: &[u8]) -> (r: bool)
    ensures
        r == spec_has_scheme_prefix(s@),
{
    let n: usize = s.len();
    if n == 0 {
        return false;
    }
    let b0: u8 = *vstd::slice::slice_index_get(s, 0);
    if !((0x41 <= b0 && b0 <= 0x5a) || (0x61 <= b0 && b0 <= 0x7a)) {
        return false;
    }
    let mut i: usize = 1;
    while i < n
        invariant
            1 <= i <= n,
            n == s@.len(),
            is_alpha_byte(s@[0]),
            forall|j: int| 1 <= j < i ==> is_scheme_byte(#[trigger] s@[j]),
        decreases n - i,
    {
        let b: u8 = *vstd::slice::slice_index_get(s, i);
        if b == 0x3a {
            return true;
        }
        if !byte_is_scheme(b) {
            proof {
                assert forall|k: int|
                    1 <= k < s@.len() && #[trigger] s@[k] == 0x3a implies !(forall|j: int|
                    1 <= j < k ==> is_scheme_byte(#[trigger] s@[j])) by {
                    if k <= i {
                        assert(s@[k] != 0x3a);
                    } else {
                        assert(!is_scheme_byte(s@[i as int]));
                    }
                }
            }
            return false;
        }
        i = i + 1;
    }
    proof {
        assert forall|k: int|
            1 <= k < s@.len() && #[trigger] s@[k] == 0x3a implies false by {
            assert(is_scheme_byte(s@[k]));
        }
    }
    false
}

/// Split a byte sequence on a separator byte.  The separator itself is
/// dropped; an input without the separator yields one segment, and empty
/// segments are kept.
pub open spec fn split_on(s: Seq<u8>, b: u8) -> Seq<Seq<u8>>
    decreases s.len(),
{
    let p = crate::text::first_pos(s, b);
    if !(0 <= p < s.len()) {
        seq![s]
    } else {
        seq![s.subrange(0, p)] + split_on(s.subrange(p + 1, s.len() as int), b)
    }
}

/// Decode one property segment: exactly one `=` splits the encoded name
/// from the encoded value; both are percent-decoded and must be UTF-8, and
/// the name must obey the text rule.
pub open spec fn spec_decode_prop(seg: Seq<u8>) -> Result<PropView, ParseErrorKind> {
    let e = crate::text::first_pos(seg, 0x3d);
    if e == seg.len() {
        Err(ParseErrorKind::PropertyWithoutValue)
    } else {
        let name_enc = seg.subrange(0, e);
        let rest = seg.subrange(e + 1, seg.len() as int);
        if crate::text::first_pos(rest, 0x3d) != rest.len() {
            Err(ParseErrorKind::MalformedProperty)
        } else {
            let name = crate::percent::spec_pct_decode(name_enc);
            let value = crate::percent::spec_pct_decode(rest);
            if !valid_utf8(name) {
                Err(ParseErrorKind::InvalidUtf8)
            } else if !crate::text::spec_text_valid(name) {
                Err(ParseErrorKind::InvalidPropertyName)
            } else if !valid_utf8(value) {
                Err(ParseErrorKind::InvalidUtf8)
            } else {
                Ok(PropView { name, value })
            }
        }
    }
}

/// Decode a list of property segments left to right; the first error wins.
pub open spec fn spec_decode_props(segs: Seq<Seq<u8>>) -> Result<Seq<PropView>, ParseErrorKind>
    decreases segs.len(),
{
    if segs.len() == 0 {
        Ok(Seq::empty())
    } else {
        match spec_decode_prop(segs[0]) {
            Err(e) => Err(e),
            Ok(p) => match spec_decode_props(segs.drop_first()) {
                Err(e) => Err(e),
                Ok(ps) => Ok(seq![p] + ps),
            },
        }
    }
}

/// Decode one token into a tag.
///
/// The token must be non-empty, carry no surrounding whitespace, not start
/// with a slash or a scheme-like prefix.  The first `#` separates the
/// label; the first `?` before it separates the properties from the facet.
/// Each segment is percent-decoded; the facet and label must obey the text
/// rule, the facet must not carry a whitespace-preceded date-like suffix,
/// and the assembled tag must be valid.
pub open spec fn spec_decode_token(t: Seq<u8>) -> Result<TagView, DecodeError> {
    if t.len() > 0 && (crate::text::is_ws_byte(t[0]) || crate::text::is_ws_byte(t[t.len() - 1])) {
        Err(DecodeError::Parse(ParseErrorKind::SurroundingWhitespace))
    } else if t.len() == 0 {
        Err(DecodeError::Parse(ParseErrorKind::EmptyInput))
    } else if t[0] == 0x2f {
        Err(DecodeError::Parse(ParseErrorKind::LeadingSlash))
    } else if spec_has_scheme_prefix(t) {
        Err(DecodeError::Parse(ParseErrorKind::SchemeLikePrefix))
    } else {
        let h = crate::text::first_pos(t, 0x23);
        let label_enc = if h < t.len() {
            t.subrange(h + 1, t.len() as int)
        } else {
            Seq::<u8>::empty()
        };
        let head = t.subrange(0, h);
        let q = crate::text::first_pos(head, 0x3f);
        let facet_enc = head.subrange(0, q);
        let props_enc = if q < head.len() {
            head.subrange(q + 1, head.len() as int)
        } else {
            Seq::<u8>::empty()
        };
        let label = crate::percent::spec_pct_decode(label_enc);
        let facet = crate::percent::spec_pct_decode(facet_enc);
        if !valid_utf8(label) {
            Err(DecodeError::Parse(ParseErrorKind::InvalidUtf8))
        } else if !crate::text::spec_text_valid(label) {
            Err(DecodeError::Parse(ParseErrorKind::InvalidLabel))
        } else if !valid_utf8(facet) {
            Err(DecodeError::Parse(ParseErrorKind::InvalidUtf8))
        } else if !crate::text::spec_text_valid(facet) {
            Err(DecodeError::Parse(ParseErrorKind::InvalidFacet))
        } else if crate::facet::spec_has_invalid_date_like_suffix(facet) {
            Err(DecodeError::Parse(ParseErrorKind::InvalidDateLikeSuffix))
        } else {
            let props_res = if props_enc.len() == 0 {
                Ok(Seq::<PropView>::empty())
            } else {
                spec_decode_props(split_on(props_enc, 0x26))
            };
            match props_res {
                Err(k) => Err(DecodeError::Parse(k)),
                Ok(props) => {
                    let tv = TagView { label, facet, props };
                    if !spec_tag_valid(tv) {
                        Err(DecodeError::InvalidTag)
                    } else {
                        Ok(tv)
                    }
                },
            }
        }
    }
}

fn decode_prop_segment(seg: &[u8]) -> (r: Result<Property, ParseErrorKind>)
    ensures
        ({
            let d = spec_decode_prop(seg@);
            &&& (r is Ok <==> d is Ok)
            &&& (r is Ok ==> r->Ok_0@ == d->Ok_0)
            &&& (r is Err ==> r->Err_0 == d->Err_0)
        }),
{
    let seg_len: usize = seg.len();
    let e = crate::text::find_byte(seg, 0x3d);
    proof {
        crate::text::lemma_first_pos(seg@, 0x3d);
    }
    if e == seg_len {
        return Err(ParseErrorKind::PropertyWithoutValue);
    }
    let name_enc: &[u8] = vstd::slice::slice_subrange(seg, 0, e);
    let rest: &[u8] = vstd::slice::slice_subrange(seg, e + 1, seg_len);
    let e2 = crate::text::find_byte(rest, 0x3d);
    if e2 != rest.len() {
        return Err(ParseErrorKind::MalformedProperty);
    }
    let name_bytes = percent::pct_decode_bytes(name_enc);
    let ghost name_model = name_bytes@;
    let name_s = match text::string_from_utf8(name_bytes) {
        None => {
            return Err(ParseErrorKind::InvalidUtf8);
        },
        Some(x) => x,
    };
    if !text::str_text_valid(name_s.as_str()) {
        return Err(ParseErrorKind::InvalidPropertyName);
    }
    let value_bytes = percent::pct_decode_bytes(rest);
    let ghost value_model = value_bytes@;
    let value_s = match text::string_from_utf8(value_bytes) {
        None => {
            return Err(ParseErrorKind::InvalidUtf8);
        },
        Some(x) => x,
    };
    Ok(Property { name: name_s, value: value_s })
}

fn decode_props_bytes(s: &[u8]) -> (r: Result<Vec<Property>, ParseErrorKind>)
    ensures
        ({
            let d = spec_decode_props(split_on(s@, 0x26));
            &&& (r is Ok <==> d is Ok)
            &&& (r is Ok ==> r->Ok_0.deep_view() == d->Ok_0)
            &&& (r is Err ==> r->Err_0 == d->Err_0)
        }),
{
    let n: usize = s.len();
    let mut props: Vec<Property> = Vec::new();
    let mut start: usize = 0;
    proof {
        assert(s@.subrange(0, n as int) =~= s@);
        let d0 = spec_decode_props(split_on(s@, 0x26));
        if d0 is Ok {
            assert(props.deep_view() =~= Seq::<PropView>::empty());
            assert(props.deep_view() + d0->Ok_0 =~= d0->Ok_0);
        }
    }
    loop
        invariant
            0 <= start <= n,
            n == s@.len(),
            spec_decode_props(split_on(s@, 0x26)) == (match spec_decode_props(
                split_on(s@.subrange(start as int, n as int), 0x26),
            ) {
                Ok(ps) => Ok::<Seq<PropView>, ParseErrorKind>(props.deep_view() + ps),
                Err(e) => Err::<Seq<PropView>, ParseErrorKind>(e),
            }),
        decreases n - start,
    {
        let rem: &[u8] = vstd::slice::slice_subrange(s, start, n);
        let p = crate::text::find_byte(rem, 0x26);
        proof {
            crate::text::lemma_first_pos(rem@, 0x26);
        }
        let seg: &[u8] = vstd::slice::slice_subrange(rem, 0, p);
        let ghost rem_segs = split_on(rem@, 0x26);
        proof {
            if p == rem@.len() {
                assert(seg@ =~= rem@);
                assert(rem_segs == seq![rem@]);
            } else {
                assert(rem_segs == seq![rem@.subrange(0, p as int)] + split_on(
                    rem@.subrange(p + 1, rem@.len() as int),
                    0x26,
                ));
            }
            assert(rem_segs.len() >= 1);
            assert(rem_segs[0] == seg@);
        }
        match decode_prop_segment(seg) {
            Err(k) => {
                proof {
                    assert(spec_decode_props(rem_segs) == Err::<Seq<PropView>, ParseErrorKind>(k));
                }
                return Err(k);
            },
            Ok(prop) => {
                let ghost prop_model = prop@;
                let ghost old_dv = props.deep_view();
                props.push(prop);
                proof {
                    assert(props.deep_view() =~= old_dv + seq![prop_model]);
                }
                if p == rem.len() {
                    proof {
                        assert(rem_segs.drop_first() =~= Seq::<Seq<u8>>::empty());
                        assert(spec_decode_props(Seq::<Seq<u8>>::empty()) == Ok::<
                            Seq<PropView>,
                            ParseErrorKind,
                        >(Seq::empty()));
                        assert(spec_decode_props(rem_segs) == Ok::<Seq<PropView>, ParseErrorKind>(
                            seq![prop_model] + Seq::empty(),
                        ));
                        assert(seq![prop_model] + Seq::<PropView>::empty() =~= seq![prop_model]);
                        assert(old_dv + seq![prop_model] =~= props.deep_view());
                    }
                    return Ok(props);
                }
                proof {
                    let new_rem = s@.subrange(start + p + 1, n as int);
                    assert(new_rem =~= rem@.subrange(p + 1, rem@.len() as int));
                    assert(rem_segs.drop_first() =~= split_on(new_rem, 0x26));
                    let new_d = spec_decode_props(split_on(new_rem, 0x26));
                    if new_d is Ok {
                        let ps = new_d->Ok_0;
                        assert(spec_decode_props(rem_segs) == Ok::<Seq<PropView>, ParseErrorKind>(
                            seq![prop_model] + ps,
                        ));
                        assert(old_dv + (seq![prop_model] + ps) =~= props.deep_view() + ps);
                    }
                }
                start = start + p + 1;
            },
        }
    }
}

/// A byte that the props set escapes and that is neither an escape byte
/// nor a separator never occurs in the joined encoded properties.
proof fn lemma_encode_props_excludes(ps: Seq<PropView>, c: u8)
    requires
        in_set(EncSet::Props, c),
        !percent::is_hex(c),
        c != 0x25,
        c != 0x26,
        c != 0x3d,
    ensures
        forall|i: int|
            0 <= i < spec_encode_props(ps).len() ==> #[trigger] spec_encode_props(ps)[i] != c,
    decreases ps.len(),
{
    if ps.len() > 0 {
        percent::lemma_pct_encode_excludes(ps[0].name, EncSet::Props, c);
        percent::lemma_pct_encode_excludes(ps[0].value, EncSet::Props, c);
        let np = spec_pct_encode(ps[0].name, EncSet::Props);
        let vp = spec_pct_encode(ps[0].value, EncSet::Props);
        let ep = spec_encode_prop(ps[0]);
        assert forall|i: int| 0 <= i < ep.len() implies #[trigger] ep[i] != c by {
            if i < np.len() {
                assert(ep[i] == np[i]);
            } else if i == np.len() {
                assert(ep[i] == 0x3d);
            } else {
                assert(ep[i] == vp[i - np.len() - 1]);
            }
        }
        if ps.len() == 1 {
            assert(spec_encode_props(ps) == ep);
        } else {
            lemma_encode_props_excludes(ps.drop_first(), c);
            let rest = spec_encode_props(ps.drop_first());
            let whole = spec_encode_props(ps);
            assert(whole == ep + seq![0x26u8] + rest);
            assert forall|i: int| 0 <= i < whole.len() implies #[trigger] whole[i] != c by {
                if i < ep.len() {
                    assert(whole[i] == ep[i]);
                } else if i == ep.len() {
                    assert(whole[i] == 0x26);
                } else {
                    assert(whole[i] == rest[i - ep.len() - 1]);
                }
            }
        }
    }
}

/// No whitespace byte occurs in the joined encoded properties.
proof fn lemma_encode_props_no_ws(ps: Seq<PropView>)
    ensures
        forall|i: int|
            0 <= i < spec_encode_props(ps).len() ==> !crate::text::is_ws_byte(
                #[trigger] spec_encode_props(ps)[i],
            ),
    decreases ps.len(),
{
    if ps.len() > 0 {
        percent::lemma_pct_encode_no_ws(ps[0].name, EncSet::Props);
        percent::lemma_pct_encode_no_ws(ps[0].value, EncSet::Props);
        let np = spec_pct_encode(ps[0].name, EncSet::Props);
        let vp = spec_pct_encode(ps[0].value, EncSet::Props);
        let ep = spec_encode_prop(ps[0]);
        assert forall|i: int| 0 <= i < ep.len() implies !crate::text::is_ws_byte(
            #[trigger] ep[i],
        ) by {
            if i < np.len() {
                assert(ep[i] == np[i]);
            } else if i == np.len() {
                assert(ep[i] == 0x3d);
            } else {
                assert(ep[i] == vp[i - np.len() - 1]);
            }
        }
        if ps.len() == 1 {
            assert(spec_encode_props(ps) == ep);
        } else {
            lemma_encode_props_no_ws(ps.drop_first());
            let rest = spec_encode_props(ps.drop_first());
            let whole = spec_encode_props(ps);
            assert(whole == ep + seq![0x26u8] + rest);
            assert forall|i: int| 0 <= i < whole.len() implies !crate::text::is_ws_byte(
                #[trigger] whole[i],
            ) by {
                if i < ep.len() {
                    assert(whole[i] == ep[i]);
                } else if i == ep.len() {
                    assert(whole[i] == 0x26);
                } else {
                    assert(whole[i] == rest[i - ep.len() - 1]);
                }
            }
        }
    }
}

/// No whitespace byte occurs anywhere in an encoded token.
pub proof fn lemma_encode_tag_no_ws(t: TagView)
    ensures
        forall|i: int|
            0 <= i < spec_encode_tag(t).len() ==> !crate::text::is_ws_byte(
                #[trigger] spec_encode_tag(t)[i],
            ),
{
    percent::lemma_pct_encode_no_ws(t.facet, EncSet::Facet);
    percent::lemma_pct_encode_no_ws(t.label, EncSet::Label);
    lemma_encode_props_no_ws(t.props);
    let ef = spec_pct_encode(t.facet, EncSet::Facet);
    let pp = if t.props.len() > 0 {
        seq![0x3fu8] + spec_encode_props(t.props)
    } else {
        Seq::<u8>::empty()
    };
    let lp = if t.label.len() > 0 {
        seq![0x23u8] + spec_pct_encode(t.label, EncSet::Label)
    } else {
        Seq::<u8>::empty()
    };
    let tok = spec_encode_tag(t);
    assert(tok == ef + pp + lp);
    assert forall|i: int| 0 <= i < tok.len() implies !crate::text::is_ws_byte(
        #[trigger] tok[i],
    ) by {
        if i < ef.len() {
            assert(tok[i] == ef[i]);
        } else if i < ef.len() + pp.len() {
            assert(tok[i] == pp[i - ef.len()]);
            if i == ef.len() {
                assert(pp[0] == 0x3f);
            } else {
                assert(pp[i - ef.len()] == spec_encode_props(t.props)[i - ef.len() - 1]);
            }
        } else {
            assert(tok[i] == lp[i - ef.len() - pp.len()]);
            if i == ef.len() + pp.len() {
                assert(lp[0] == 0x23);
            } else {
                assert(lp[i - ef.len() - pp.len()] == spec_pct_encode(t.label, EncSet::Label)[i
                    - ef.len() - pp.len() - 1]);
            }
        }
    }
}

/// A colon is reachable when it occurs after nothing but scheme bytes,
/// scanning from the start.
spec fn colon_reachable(s: Seq<u8>) -> bool {
    exists|i: int|
        0 <= i < s.len() && #[trigger] s[i] == 0x3a && (forall|j: int|
            0 <= j < i ==> is_scheme_byte(#[trigger] s[j]))
}

proof fn lemma_colon_reachable_shift(s: Seq<u8>)
    requires
        s.len() > 0,
    ensures
        s[0] == 0x3a ==> colon_reachable(s),
        s[0] != 0x3a && is_scheme_byte(s[0]) ==> (colon_reachable(s) <==> colon_reachable(
            s.drop_first(),
        )),
        s[0] != 0x3a && !is_scheme_byte(s[0]) ==> !colon_reachable(s),
{
    if s[0] == 0x3a {
        assert(s[0] == 0x3a && (forall|j: int| 0 <= j < 0 ==> is_scheme_byte(#[trigger] s[j])));
    } else if is_scheme_byte(s[0]) {
        let rest = s.drop_first();
        if colon_reachable(s) {
            let i = choose|i: int|
                0 <= i < s.len() && #[trigger] s[i] == 0x3a && (forall|j: int|
                    0 <= j < i ==> is_scheme_byte(#[trigger] s[j]));
            assert(i != 0);
            assert(rest[i - 1] == s[i]);
            assert forall|j: int| 0 <= j < i - 1 implies is_scheme_byte(#[trigger] rest[j]) by {
                assert(rest[j] == s[j + 1]);
            }
            assert(colon_reachable(rest));
        }
        if colon_reachable(rest) {
            let i = choose|i: int|
                0 <= i < rest.len() && #[trigger] rest[i] == 0x3a && (forall|j: int|
                    0 <= j < i ==> is_scheme_byte(#[trigger] rest[j]));
            assert(s[i + 1] == rest[i]);
            assert forall|j: int| 0 <= j < i + 1 implies is_scheme_byte(#[trigger] s[j]) by {
                if j > 0 {
                    assert(s[j] == rest[j - 1]);
                }
            }
            assert(colon_reachable(s));
        }
    } else {
        if colon_reachable(s) {
            let i = choose|i: int|
                0 <= i < s.len() && #[trigger] s[i] == 0x3a && (forall|j: int|
                    0 <= j < i ==> is_scheme_byte(#[trigger] s[j]));
            assert(i != 0);
            assert(is_scheme_byte(s[0]));
            assert(false);
        }
    }
}

proof fn lemma_scheme_prefix_as_reachable(s: Seq<u8>)
    ensures
        spec_has_scheme_prefix(s) == (s.len() > 0 && is_alpha_byte(s[0]) && colon_reachable(
            s.drop_first(),
        )),
{
    if s.len() > 0 && is_alpha_byte(s[0]) {
        let rest = s.drop_first();
        if spec_has_scheme_prefix(s) {
            let i = choose|i: int|
                1 <= i < s.len() && #[trigger] s[i] == 0x3a && is_alpha_byte(s[0]) && (forall|
                    j: int,
                |
                    1 <= j < i ==> is_scheme_byte(#[trigger] s[j]));
            assert(rest[i - 1] == s[i]);
            assert forall|j: int| 0 <= j < i - 1 implies is_scheme_byte(#[trigger] rest[j]) by {
                assert(rest[j] == s[j + 1]);
            }
            assert(colon_reachable(rest));
        }
        if colon_reachable(rest) {
            let i = choose|i: int|
                0 <= i < rest.len() && #[trigger] rest[i] == 0x3a && (forall|j: int|
                    0 <= j < i ==> is_scheme_byte(#[trigger] rest[j]));
            assert(s[i + 1] == rest[i]);
            assert forall|j: int| 1 <= j < i + 1 implies is_scheme_byte(#[trigger] s[j]) by {
                assert(s[j] == rest[j - 1]);
            }
            assert(spec_has_scheme_prefix(s));
        }
    } else {
        if spec_has_scheme_prefix(s) {
            assert(false);
        }
    }
}

/// Reaching a colon through the encoding of `f` followed by a delimiter is
/// the same as reaching one in `f` itself: scheme bytes and the colon are
/// never escaped, escapes start with `%`, and the delimiter stops the scan.
proof fn lemma_colon_reachable_encode(f: Seq<u8>, set: EncSet, rest: Seq<u8>)
    requires
        rest.len() > 0 ==> (rest[0] == 0x3f || rest[0] == 0x23),
    ensures
        colon_reachable(spec_pct_encode(f, set) + rest) == colon_reachable(f),
    decreases f.len(),
{
    let whole = spec_pct_encode(f, set) + rest;
    if f.len() == 0 {
        assert(spec_pct_encode(f, set) =~= Seq::<u8>::empty());
        assert(whole =~= rest);
        if rest.len() > 0 {
            lemma_colon_reachable_shift(rest);
        }
        if colon_reachable(f) {
            assert(false);
        }
        if colon_reachable(rest) {
            assert(false);
        }
    } else {
        let b = f[0];
        lemma_colon_reachable_shift(f);
        if in_set(set, b) {
            assert(b != 0x3a);
            assert(!is_scheme_byte(b));
            assert(whole =~= percent::pct_byte(b) + (spec_pct_encode(f.drop_first(), set) + rest));
            assert(whole[0] == 0x25);
            lemma_colon_reachable_shift(whole);
            assert(!colon_reachable(whole));
            assert(!colon_reachable(f));
        } else {
            assert(whole =~= seq![b] + (spec_pct_encode(f.drop_first(), set) + rest));
            assert(whole[0] == b);
            lemma_colon_reachable_shift(whole);
            if b == 0x3a {
                assert(colon_reachable(whole));
                assert(colon_reachable(f));
            } else if is_scheme_byte(b) {
                lemma_colon_reachable_encode(f.drop_first(), set, rest);
                assert(whole.drop_first() =~= spec_pct_encode(f.drop_first(), set) + rest);
                assert(f.drop_first() =~= f.drop_first());
            } else {
                assert(!colon_reachable(whole));
                assert(!colon_reachable(f));
            }
        }
    }
}

/// No `&` occurs in the encoded form of one property.
proof fn lemma_encode_prop_no_amp(p: PropView)
    ensures
        forall|i: int|
            0 <= i < spec_encode_prop(p).len() ==> #[trigger] spec_encode_prop(p)[i] != 0x26,
{
    percent::lemma_pct_encode_excludes(p.name, EncSet::Props, 0x26);
    percent::lemma_pct_encode_excludes(p.value, EncSet::Props, 0x26);
    let np = spec_pct_encode(p.name, EncSet::Props);
    let vp = spec_pct_encode(p.value, EncSet::Props);
    let ep = spec_encode_prop(p);
    assert forall|i: int| 0 <= i < ep.len() implies #[trigger] ep[i] != 0x26 by {
        if i < np.len() {
            assert(ep[i] == np[i]);
        } else if i == np.len() {
            assert(ep[i] == 0x3d);
        } else {
            assert(ep[i] == vp[i - np.len() - 1]);
        }
    }
}

/// Decoding the encoded form of one well-formed property gives it back.
proof fn lemma_decode_encode_one_prop(p: PropView)
    requires
        valid_utf8(p.name),
        valid_utf8(p.value),
        crate::text::spec_text_valid(p.name),
    ensures
        spec_decode_prop(spec_encode_prop(p)) == Ok::<PropView, ParseErrorKind>(p),
{
    let np = spec_pct_encode(p.name, EncSet::Props);
    let vp = spec_pct_encode(p.value, EncSet::Props);
    let seg = spec_encode_prop(p);
    percent::lemma_pct_encode_excludes(p.name, EncSet::Props, 0x3d);
    percent::lemma_pct_encode_excludes(p.value, EncSet::Props, 0x3d);
    assert(seg =~= np + (seq![0x3du8] + vp));
    crate::text::lemma_first_pos_concat(np, seq![0x3du8] + vp, 0x3d);
    assert((seq![0x3du8] + vp)[0] == 0x3d);
    crate::text::lemma_first_pos_is(seq![0x3du8] + vp, 0x3d, 0);
    let e = crate::text::first_pos(seg, 0x3d);
    assert(e == np.len());
    assert(seg.subrange(0, e) =~= np);
    assert(seg.subrange(e + 1, seg.len() as int) =~= vp);
    crate::text::lemma_first_pos_is(vp, 0x3d, vp.len() as int);
    percent::lemma_pct_roundtrip(p.name, EncSet::Props);
    percent::lemma_pct_roundtrip(p.value, EncSet::Props);
    assert(spec_decode_prop(seg) == Ok::<PropView, ParseErrorKind>(
        PropView { name: p.name, value: p.value },
    ));
    assert(PropView { name: p.name, value: p.value } == p);
}

/// Splitting and decoding the joined encoded properties gives them back.
proof fn lemma_decode_encode_props(ps: Seq<PropView>)
    requires
        ps.len() >= 1,
        forall|i: int|
            0 <= i < ps.len() ==> valid_utf8(#[trigger] ps[i].name) && valid_utf8(ps[i].value)
                && crate::text::spec_text_valid(ps[i].name),
    ensures
        spec_decode_props(split_on(spec_encode_props(ps), 0x26)) == Ok::<
            Seq<PropView>,
            ParseErrorKind,
        >(ps),
    decreases ps.len(),
{
    lemma_encode_prop_no_amp(ps[0]);
    let ep = spec_encode_prop(ps[0]);
    if ps.len() == 1 {
        let seg = spec_encode_props(ps);
        assert(seg == ep);
        crate::text::lemma_first_pos_is(seg, 0x26, seg.len() as int);
        assert(split_on(seg, 0x26) == seq![seg]);
        lemma_decode_encode_one_prop(ps[0]);
        assert(seq![seg].drop_first() =~= Seq::<Seq<u8>>::empty());
        assert(spec_decode_props(Seq::<Seq<u8>>::empty()) == Ok::<Seq<PropView>, ParseErrorKind>(
            Seq::empty(),
        ));
        assert(spec_decode_props(seq![seg]) == Ok::<Seq<PropView>, ParseErrorKind>(
            seq![ps[0]] + Seq::empty(),
        ));
        assert(seq![ps[0]] + Seq::<PropView>::empty() =~= ps);
    } else {
        let rest = spec_encode_props(ps.drop_first());
        let whole = spec_encode_props(ps);
        assert(whole == ep + seq![0x26u8] + rest);
        assert(whole =~= ep + (seq![0x26u8] + rest));
        crate::text::lemma_first_pos_concat(ep, seq![0x26u8] + rest, 0x26);
        assert((seq![0x26u8] + rest)[0] == 0x26);
        crate::text::lemma_first_pos_is(seq![0x26u8] + rest, 0x26, 0);
        let pcut = crate::text::first_pos(whole, 0x26);
        assert(pcut == ep.len());
        assert(whole.subrange(0, pcut) =~= ep);
        assert(whole.subrange(pcut + 1, whole.len() as int) =~= rest);
        assert forall|i: int| 0 <= i < ps.drop_first().len() implies valid_utf8(
            #[trigger] ps.drop_first()[i].name,
        ) && valid_utf8(ps.drop_first()[i].value) && crate::text::spec_text_valid(
            ps.drop_first()[i].name,
        ) by {
            assert(ps.drop_first()[i] == ps[i + 1]);
            assert(valid_utf8(ps[i + 1].name));
            assert(valid_utf8(ps[i + 1].value));
            assert(crate::text::spec_text_valid(ps[i + 1].name));
        }
        lemma_decode_encode_props(ps.drop_first());
        lemma_decode_encode_one_prop(ps[0]);
        let segs = split_on(whole, 0x26);
        assert(segs == seq![ep] + split_on(rest, 0x26));
        assert(segs[0] == ep);
        assert(segs.drop_first() =~= split_on(rest, 0x26));
        assert(spec_decode_props(segs) == Ok::<Seq<PropView>, ParseErrorKind>(
            seq![ps[0]] + ps.drop_first(),
        ));
        assert(seq![ps[0]] + ps.drop_first() =~= ps);
    }
}

/// The facts the decoder establishes of every tag it returns: its fields
/// are valid UTF-8 and obey the text rule, the facet carries no
/// whitespace-preceded date-like suffix, and the tag as a whole is valid.
pub open spec fn spec_tag_decoded_fields(t: TagView) -> bool {
    &&& valid_utf8(t.label)
    &&& valid_utf8(t.facet)
    &&& crate::text::spec_text_valid(t.label)
    &&& crate::text::spec_text_valid(t.facet)
    &&& !crate::facet::spec_has_invalid_date_like_suffix(t.facet)
    &&& (forall|i: int|
        0 <= i < t.props.len() ==> valid_utf8(#[trigger] t.props[i].name) && valid_utf8(
            t.props[i].value,
        ) && crate::text::spec_text_valid(t.props[i].name))
    &&& spec_tag_valid(t)
}

/// A tag can round-trip through the codec: the decoder's field facts hold
/// of it and its facet has no scheme-like prefix.
pub open spec fn spec_tag_encodable(t: TagView) -> bool {
    &&& spec_tag_decoded_fields(t)
    &&& !spec_has_scheme_prefix(t.facet)
}

/// Every property list the decoder accepts consists of properties whose
/// names and values are valid UTF-8 and whose names obey the text rule.
proof fn lemma_decode_props_ok_fields(segs: Seq<Seq<u8>>)
    requires
        spec_decode_props(segs) is Ok,
    ensures
        forall|i: int|
            0 <= i < spec_decode_props(segs)->Ok_0.len() ==> valid_utf8(
                #[trigger] spec_decode_props(segs)->Ok_0[i].name,
            ) && valid_utf8(spec_decode_props(segs)->Ok_0[i].value)
                && crate::text::spec_text_valid(spec_decode_props(segs)->Ok_0[i].name),
    decreases segs.len(),
{
    if segs.len() > 0 {
        let ps = spec_decode_props(segs)->Ok_0;
        let head = spec_decode_prop(segs[0])->Ok_0;
        let rest = spec_decode_props(segs.drop_first())->Ok_0;
        lemma_decode_props_ok_fields(segs.drop_first());
        assert(ps == seq![head] + rest);
        assert forall|i: int| 0 <= i < ps.len() implies valid_utf8(#[trigger] ps[i].name)
            && valid_utf8(ps[i].value) && crate::text::spec_text_valid(ps[i].name) by {
            if i == 0 {
                assert(ps[i] == head);
            } else {
                assert(ps[i] == rest[i - 1]);
            }
        }
    }
}

/// Every tag the decoder returns satisfies its field facts.
pub proof fn lemma_decode_token_ok_fields(t: Seq<u8>)
    requires
        spec_decode_token(t) is Ok,
    ensures
        spec_tag_decoded_fields(spec_decode_token(t)->Ok_0),
{
    let h = crate::text::first_pos(t, 0x23);
    let head = t.subrange(0, h);
    let q = crate::text::first_pos(head, 0x3f);
    let props_enc = if q < head.len() {
        head.subrange(q + 1, head.len() as int)
    } else {
        Seq::<u8>::empty()
    };
    if props_enc.len() > 0 {
        lemma_decode_props_ok_fields(split_on(props_enc, 0x26));
    }
}

/// The encoded token of a valid tag is never empty.
pub proof fn lemma_encode_tag_nonempty(t: TagView)
    requires
        spec_tag_valid(t),
    ensures
        spec_encode_tag(t).len() > 0,
{
    percent::lemma_pct_encode_empty(t.facet, EncSet::Facet);
    percent::lemma_pct_encode_empty(t.label, EncSet::Label);
}

/// Round trip: decoding the encoded token of an encodable tag gives the
/// tag back, exactly.
pub proof fn lemma_decode_encode_roundtrip(t: TagView)
    requires
        spec_tag_encodable(t),
    ensures
        spec_decode_token(spec_encode_tag(t)) == Ok::<TagView, DecodeError>(t),
{
    let ef = spec_pct_encode(t.facet, EncSet::Facet);
    let jp = spec_encode_props(t.props);
    let pp = if t.props.len() > 0 {
        seq![0x3fu8] + jp
    } else {
        Seq::<u8>::empty()
    };
    let el = spec_pct_encode(t.label, EncSet::Label);
    let lp = if t.label.len() > 0 {
        seq![0x23u8] + el
    } else {
        Seq::<u8>::empty()
    };
    let tok = spec_encode_tag(t);
    assert(tok == ef + pp + lp);
    percent::lemma_pct_encode_empty(t.facet, EncSet::Facet);
    percent::lemma_pct_encode_empty(t.label, EncSet::Label);
    assert(tok.len() > 0);
    lemma_encode_tag_no_ws(t);
    assert(!crate::text::is_ws_byte(tok[0]));
    assert(!crate::text::is_ws_byte(tok[tok.len() - 1]));
    // The first byte: `%`, the facet's own first byte, or a delimiter.
    if t.facet.len() > 0 {
        assert(ef.len() > 0);
        assert(ef == (if in_set(EncSet::Facet, t.facet[0]) {
            percent::pct_byte(t.facet[0])
        } else {
            seq![t.facet[0]]
        }) + spec_pct_encode(t.facet.drop_first(), EncSet::Facet));
        if in_set(EncSet::Facet, t.facet[0]) {
            assert(ef[0] == 0x25);
        } else {
            assert(ef[0] == t.facet[0]);
        }
        assert(tok[0] == ef[0]);
        assert(tok[0] != 0x2f);
    } else {
        assert(ef.len() == 0);
        assert(ef =~= Seq::<u8>::empty());
        if t.props.len() > 0 {
            assert(tok[0] == pp[0]);
            assert(tok[0] == 0x3f);
        } else {
            assert(spec_tag_valid(t));
            assert(t.label.len() > 0);
            assert(tok[0] == lp[0]);
            assert(tok[0] == 0x23);
        }
        assert(tok[0] != 0x2f);
    }
    // No scheme-like prefix: the colon scan cannot cross an escape or a
    // delimiter, so it would have to succeed inside the facet itself.
    lemma_scheme_prefix_as_reachable(tok);
    let rest2 = pp + lp;
    assert(tok =~= ef + rest2);
    if rest2.len() > 0 {
        if t.props.len() > 0 {
            assert(rest2[0] == 0x3f);
        } else {
            assert(rest2[0] == lp[0]);
            assert(rest2[0] == 0x23);
        }
    }
    if t.facet.len() == 0 {
        assert(!is_alpha_byte(tok[0]));
        assert(!spec_has_scheme_prefix(tok));
    } else {
        if in_set(EncSet::Facet, t.facet[0]) {
            assert(tok[0] == 0x25);
            assert(!is_alpha_byte(tok[0]));
            assert(!spec_has_scheme_prefix(tok));
        } else if !is_alpha_byte(t.facet[0]) {
            assert(!is_alpha_byte(tok[0]));
            assert(!spec_has_scheme_prefix(tok));
        } else {
            assert(tok.drop_first() =~= spec_pct_encode(t.facet.drop_first(), EncSet::Facet)
                + rest2) by {
                assert(ef =~= seq![t.facet[0]] + spec_pct_encode(
                    t.facet.drop_first(),
                    EncSet::Facet,
                ));
            }
            lemma_colon_reachable_encode(t.facet.drop_first(), EncSet::Facet, rest2);
            lemma_scheme_prefix_as_reachable(t.facet);
            assert(!colon_reachable(t.facet.drop_first()));
            assert(!colon_reachable(tok.drop_first()));
            assert(!spec_has_scheme_prefix(tok));
        }
    }
    // The first `#` of the token is the label delimiter, or absent.
    percent::lemma_pct_encode_excludes(t.facet, EncSet::Facet, 0x23);
    lemma_encode_props_excludes(t.props, 0x23);
    let headp = ef + pp;
    assert forall|j: int| 0 <= j < headp.len() implies #[trigger] headp[j] != 0x23 by {
        if j < ef.len() {
            assert(headp[j] == ef[j]);
        } else {
            assert(headp[j] == pp[j - ef.len()]);
            if j == ef.len() {
                assert(pp[0] == 0x3f);
            } else {
                assert(pp[j - ef.len()] == jp[j - ef.len() - 1]);
            }
        }
    }
    let h = crate::text::first_pos(tok, 0x23);
    if t.label.len() > 0 {
        assert(tok =~= headp + lp);
        crate::text::lemma_first_pos_concat(headp, lp, 0x23);
        assert(lp[0] == 0x23);
        crate::text::lemma_first_pos_is(lp, 0x23, 0);
        assert(h == headp.len());
        assert(tok.subrange(h + 1, tok.len() as int) =~= el);
        assert(tok.subrange(0, h) =~= headp);
    } else {
        assert(lp =~= Seq::<u8>::empty());
        assert(tok =~= headp);
        crate::text::lemma_first_pos_is(tok, 0x23, tok.len() as int);
        assert(h == tok.len());
        assert(tok.subrange(0, h) =~= headp);
    }
    // The first `?` of the head is the property delimiter, or absent.
    percent::lemma_pct_encode_excludes(t.facet, EncSet::Facet, 0x3f);
    let q = crate::text::first_pos(headp, 0x3f);
    if t.props.len() > 0 {
        assert(headp =~= ef + pp);
        crate::text::lemma_first_pos_concat(ef, pp, 0x3f);
        assert(pp[0] == 0x3f);
        crate::text::lemma_first_pos_is(pp, 0x3f, 0);
        assert(q == ef.len());
        assert(headp.subrange(0, q) =~= ef);
        assert(headp.subrange(q + 1, headp.len() as int) =~= jp);
    } else {
        assert(pp =~= Seq::<u8>::empty());
        assert(headp =~= ef);
        crate::text::lemma_first_pos_is(headp, 0x3f, headp.len() as int);
        assert(q == headp.len());
        assert(headp.subrange(0, q) =~= ef);
    }
    // Each segment decodes back to the original field.
    percent::lemma_pct_roundtrip(t.label, EncSet::Label);
    percent::lemma_pct_roundtrip(t.facet, EncSet::Facet);
    if t.label.len() == 0 {
        assert(t.label =~= Seq::<u8>::empty());
        assert(percent::spec_pct_decode(Seq::<u8>::empty()) =~= Seq::<u8>::empty());
    }
    if t.props.len() > 0 {
        assert(jp.len() > 0) by {
            if t.props.len() == 1 {
                assert(jp == spec_encode_prop(t.props[0]));
            }
        }
        lemma_decode_encode_props(t.props);
    } else {
        assert(t.props =~= Seq::<PropView>::empty());
    }
    assert(TagView { label: t.label, facet: t.facet, props: t.props } == t);
}

/// Re-encoding the decoded form of an encoder-produced token reproduces
/// that token byte for byte.
pub proof fn lemma_encode_decode_roundtrip(t: TagView)
    requires
        spec_tag_encodable(t),
    ensures
        spec_encode_tag(spec_decode_token(spec_encode_tag(t))->Ok_0) == spec_encode_tag(t),
{
    lemma_decode_encode_roundtrip(t);
}

pub(crate) fn decode_token_bytes(s: &[u8]) -> (r: Result<Tag, DecodeError>)
    ensures
        ({
            let d = spec_decode_token(s@);
            &&& (r is Ok <==> d is Ok)
            &&& (r is Ok ==> r->Ok_0@ == d->Ok_0)
            &&& (r is Err ==> r->Err_0 == d->Err_0)
        }),
{
    let n: usize = s.len();
    if n > 0 {
        let first: u8 = *vstd::slice::slice_index_get(s, 0);
        let last: u8 = *vstd::slice::slice_index_get(s, n - 1);
        if text::byte_is_ws(first) || text::byte_is_ws(last) {
            return Err(DecodeError::Parse(ParseErrorKind::SurroundingWhitespace));
        }
    }
    if n == 0 {
        return Err(DecodeError::Parse(ParseErrorKind::EmptyInput));
    }
    let first: u8 = *vstd::slice::slice_index_get(s, 0);
    if first == 0x2f {
        return Err(DecodeError::Parse(ParseErrorKind::LeadingSlash));
    }
    if has_scheme_prefix(s) {
        return Err(DecodeError::Parse(ParseErrorKind::SchemeLikePrefix));
    }
    let h = crate::text::find_byte(s, 0x23);
    proof {
        crate::text::lemma_first_pos(s@, 0x23);
    }
    let label_enc: &[u8] = if h < n {
        vstd::slice::slice_subrange(s, h + 1, n)
    } else {
        vstd::slice::slice_subrange(s, n, n)
    };
    proof {
        if h >= n {
            assert(s@.subrange(n as int, n as int) =~= Seq::<u8>::empty());
        }
    }
    let head: &[u8] = vstd::slice::slice_subrange(s, 0, h);
    let q = crate::text::find_byte(head, 0x3f);
    proof {
        crate::text::lemma_first_pos(head@, 0x3f);
    }
    let facet_enc: &[u8] = vstd::slice::slice_subrange(head, 0, q);
    let head_len: usize = head.len();
    let props_enc: &[u8] = if q < head_len {
        vstd::slice::slice_subrange(head, q + 1, head_len)
    } else {
        vstd::slice::slice_subrange(head, head_len, head_len)
    };
    proof {
        if q >= head_len {
            assert(head@.subrange(head_len as int, head_len as int) =~= Seq::<u8>::empty());
        }
    }
    let label_bytes = percent::pct_decode_bytes(label_enc);
    let label_s = match text::string_from_utf8(label_bytes) {
        None => {
            return Err(DecodeError::Parse(ParseErrorKind::InvalidUtf8));
        },
        Some(x) => x,
    };
    if !text::str_text_valid(label_s.as_str()) {
        return Err(DecodeError::Parse(ParseErrorKind::InvalidLabel));
    }
    let facet_bytes = percent::pct_decode_bytes(facet_enc);
    let facet_s = match text::string_from_utf8(facet_bytes) {
        None => {
            return Err(DecodeError::Parse(ParseErrorKind::InvalidUtf8));
        },
        Some(x) => x,
    };
    if !text::str_text_valid(facet_s.as_str()) {
        return Err(DecodeError::Parse(ParseErrorKind::InvalidFacet));
    }
    if crate::facet::has_invalid_date_like_suffix(facet_s.as_str()) {
        return Err(DecodeError::Parse(ParseErrorKind::InvalidDateLikeSuffix));
    }
    let props: Vec<Property> = if props_enc.len() > 0 {
        match decode_props_bytes(props_enc) {
            Err(k) => {
                return Err(DecodeError::Parse(k));
            },
            Ok(ps) => ps,
        }
    } else {
        Vec::new()
    };
    let tag = Tag { label: label_s, facet: facet_s, props };
    proof {
        assert(tag@.props =~= tag.props.deep_view());
        if props_enc@.len() == 0 {
            assert(tag.props.deep_view() =~= Seq::<PropView>::empty());
        }
    }
    if !tag.is_valid() {
        return Err(DecodeError::InvalidTag);
    }
    Ok(tag)
}

impl Tag {
    /// Decode a tag from an encoded token.
    ///
    /// The token must not carry any leading or trailing whitespace:
    /// separating whitespace between tokens is discarded when tokenizing
    /// the surrounding text, not here.
    pub fn decode_str(encoded: &str) -> (r: Result<Tag, DecodeError>)
        ensures
            ({
                let d = spec_decode_token(str_bytes(encoded@));
                &&& (r is Ok <==> d is Ok)
                &&& (r is Ok ==> r->Ok_0@ == d->Ok_0)
                &&& (r is Err ==> r->Err_0 == d->Err_0)
            }),
    {
        decode_token_bytes(encoded.as_bytes())
    }
}

impl core::str::FromStr for Tag {
    type Err = DecodeError;

    /// Decode a tag token, tolerating leading and trailing whitespace
    /// around the token, other than [`Tag::decode_str`] which is strict:
    /// the result is the strict decoding of the whitespace-trimmed input.
    fn from_str(input: &str) -> (r: Result<Tag, DecodeError>)
        ensures
            ({
                let d = spec_decode_token(crate::text::spec_trim_ws(str_bytes(input@)));
                &&& (r is Ok <==> d is Ok)
                &&& (r is Ok ==> r->Ok_0@ == d->Ok_0)
                &&& (r is Err ==> r->Err_0 == d->Err_0)
            }),
    {
        let s: &[u8] = input.as_bytes();
        let n: usize = s.len();
        let mut lo: usize = 0;
        while lo < n && text::byte_is_ws(*vstd::slice::slice_index_get(s, lo))
            invariant
                0 <= lo <= n,
                n == s@.len(),
                forall|j: int| 0 <= j < lo ==> crate::text::is_ws_byte(#[trigger] s@[j]),
            decreases n - lo,
        {
            lo = lo + 1;
        }
        let mut hi: usize = n;
        while hi > lo && text::byte_is_ws(*vstd::slice::slice_index_get(s, hi - 1))
            invariant
                lo <= hi <= n,
                n == s@.len(),
                forall|j: int| 0 <= j < lo ==> crate::text::is_ws_byte(#[trigger] s@[j]),
                lo < n ==> !crate::text::is_ws_byte(s@[lo as int]),
                forall|j: int| hi <= j < n ==> crate::text::is_ws_byte(#[trigger] s@[j]),
            decreases hi,
        {
            hi = hi - 1;
        }
        proof {
            crate::text::lemma_trim_start_is(s@, lo as int);
            let started = s@.subrange(lo as int, n as int);
            assert forall|j: int| hi - lo <= j < started.len() implies crate::text::is_ws_byte(
                #[trigger] started[j],
            ) by {
                assert(started[j] == s@[j + lo]);
            }
            if hi > lo {
                assert(started[hi - lo - 1] == s@[hi - 1]);
            }
            crate::text::lemma_trim_end_is(started, hi as int - lo as int);
            assert(crate::text::spec_trim_ws(s@) == started.subrange(0, hi as int - lo as int));
            assert(started.subrange(0, hi as int - lo as int) =~= s@.subrange(lo as int, hi as int));
        }
        decode_token_bytes(vstd::slice::slice_subrange(s, lo, hi))
    }
}

impl Tag {
    /// Encode a tag as a token string.
    ///
    /// The tag must be valid.
    pub fn encode(&self) -> (r: String)
        requires
            spec_tag_valid(self@),
        ensures
            str_bytes(r@) == spec_encode_tag(self@),
    {
        let mut out: Vec<u8> = Vec::new();
        encode_tag_push(&mut out, self);
        proof {
            assert(valid_utf8(self@.label));
            assert(valid_utf8(self@.facet));
            assert forall|i: int| 0 <= i < self@.props.len() implies valid_utf8(
                #[trigger] self@.props[i].name,
            ) && valid_utf8(self@.props[i].value) by {
                assert(self@.props[i] == self.props@[i]@);
            }
            lemma_encode_tag_valid_utf8(self@);
            assert(out@ =~= spec_encode_tag(self@));
        }
        match text::string_from_utf8(out) {
            Some(s) => s,
            None => {
                proof {
                    assert(false);
                }
                String::new()
            },
        }
    }

    /// Encode a tag and append the token to the given buffer.
    ///
    /// The tag must be valid.
    pub fn encode_into(&self, write: &mut String)
        requires
            spec_tag_valid(self@),
        ensures
            str_bytes(final(write)@) == str_bytes(old(write)@) + spec_encode_tag(self@),
    {
        let encoded = self.encode();
        write.append(encoded.as_str());
        proof {
            text::lemma_encode_utf8_concat(old(write)@, encoded@);
        }
    }
}

} // verus!
