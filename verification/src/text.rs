//! The byte-level model of text shared by labels, facets and property names.
//!
//! All grammar rules of this crate are stated over the UTF-8 bytes of a
//! string, [`vstd::utf8::encode_utf8`] of its character view.  Only ASCII
//! whitespace and a few ASCII delimiters are special, and ASCII bytes never
//! occur inside a multi-byte UTF-8 character, so the byte-level rules agree
//! with the character-level reading.

use vstd::prelude::*;
use vstd::utf8::{encode_utf8, valid_utf8};

verus! {

/// ASCII whitespace: tab, line feed, vertical tab, form feed, carriage
/// return, or space.
pub open spec fn is_ws_byte(b: u8) -> bool {
    b == 0x20 || (0x09 <= b && b <= 0x0d)
}

/// The UTF-8 bytes of a string value, the model every contract speaks of.
pub open spec fn str_bytes(s: Seq<char>) -> Seq<u8> {
    encode_utf8(s)
}

/// A piece of text (a label, a facet or a property name) is well formed
/// when it equals its own ASCII-whitespace-trimmed form and does not start
/// with a slash.  The empty text is well formed.
pub open spec fn spec_text_valid(s: Seq<u8>) -> bool {
    s.len() > 0 ==> (!is_ws_byte(s[0]) && !is_ws_byte(s[s.len() - 1]) && s[0] != 0x2f)
}

/// True when every byte is ASCII whitespace; true of the empty sequence.
pub open spec fn all_ws(s: Seq<u8>) -> bool {
    forall|i: int| 0 <= i < s.len() ==> is_ws_byte(#[trigger] s[i])
}

pub(crate) fn byte_is_ws(b: u8) -> (r: bool)
    ensures
        r == is_ws_byte(b),
{
    b == 0x20 || (0x09 <= b && b <= 0x0d)
}

/// Check the shared text rule on the raw bytes of a string.
pub(crate) fn bytes_text_valid(s: &[u8]) -> (r: bool)
    ensures
        r == spec_text_valid(s@),
{
    if s.len() == 0 {
        true
    } else {
        let first: u8 = *vstd::slice::slice_index_get(s, 0);
        let last: u8 = *vstd::slice::slice_index_get(s, s.len() - 1);
        !byte_is_ws(first) && !byte_is_ws(last) && first != 0x2f
    }
}

/// Check the shared text rule on a string slice.
pub(crate) fn str_text_valid(s: &str) -> (r: bool)
    ensures
        r == spec_text_valid(str_bytes(s@)),
{
    let b: &[u8] = s.as_bytes();
    bytes_text_valid(b)
}

/// A string has no UTF-8 bytes exactly when it has no characters.
pub proof fn lemma_str_bytes_empty(s: Seq<char>)
    ensures
        (str_bytes(s).len() == 0) <==> (s.len() == 0),
{
    if s.len() > 0 {
        assert(encode_utf8(s) == vstd::utf8::encode_scalar(s[0] as u32) + encode_utf8(
            s.drop_first(),
        ));
        assert(vstd::utf8::encode_scalar(s[0] as u32).len() >= 1);
    }
}

/// Drop all trailing whitespace bytes.
pub open spec fn trim_end_ws(s: Seq<u8>) -> Seq<u8>
    decreases s.len(),
{
    if s.len() > 0 && is_ws_byte(s.last()) {
        trim_end_ws(s.drop_last())
    } else {
        s
    }
}

/// The trimmed sequence is the prefix of `s` of its own length, and it
/// does not end in whitespace.
pub proof fn lemma_trim_end(s: Seq<u8>)
    ensures
        trim_end_ws(s).len() <= s.len(),
        trim_end_ws(s) == s.subrange(0, trim_end_ws(s).len() as int),
        trim_end_ws(s).len() > 0 ==> !is_ws_byte(trim_end_ws(s).last()),
    decreases s.len(),
{
    if s.len() > 0 && is_ws_byte(s.last()) {
        lemma_trim_end(s.drop_last());
        let r = trim_end_ws(s);
        assert(s.drop_last() == s.subrange(0, s.len() - 1));
        assert(s.drop_last().subrange(0, r.len() as int) =~= s.subrange(0, r.len() as int));
    } else {
        assert(trim_end_ws(s) == s);
        assert(s =~= s.subrange(0, s.len() as int));
    }
}

/// The trimmed prefix, identified by its cut position: everything at and
/// after the cut is whitespace, and the byte before the cut is not.
pub proof fn lemma_trim_end_is(s: Seq<u8>, k: int)
    requires
        0 <= k <= s.len(),
        forall|j: int| k <= j < s.len() ==> is_ws_byte(#[trigger] s[j]),
        k > 0 ==> !is_ws_byte(s[k - 1]),
    ensures
        trim_end_ws(s) == s.subrange(0, k),
    decreases s.len(),
{
    if s.len() == k {
        if k > 0 {
            assert(s.last() == s[k - 1]);
        }
        assert(trim_end_ws(s) == s);
        assert(s =~= s.subrange(0, k));
    } else {
        assert(is_ws_byte(s.last()));
        assert forall|j: int|
            k <= j < s.drop_last().len() implies is_ws_byte(#[trigger] s.drop_last()[j]) by {
            assert(s.drop_last()[j] == s[j]);
        }
        if k > 0 {
            assert(s.drop_last()[k - 1] == s[k - 1]);
        }
        lemma_trim_end_is(s.drop_last(), k);
        assert(s.drop_last().subrange(0, k) =~= s.subrange(0, k));
    }
}

/// Drop all leading whitespace bytes.
pub open spec fn trim_start_ws(s: Seq<u8>) -> Seq<u8>
    decreases s.len(),
{
    if s.len() > 0 && is_ws_byte(s[0]) {
        trim_start_ws(s.drop_first())
    } else {
        s
    }
}

/// The start-trimmed suffix, identified by its cut position: everything
/// before the cut is whitespace, and the byte at the cut (if any) is not.
pub proof fn lemma_trim_start_is(s: Seq<u8>, k: int)
    requires
        0 <= k <= s.len(),
        forall|j: int| 0 <= j < k ==> is_ws_byte(#[trigger] s[j]),
        k < s.len() ==> !is_ws_byte(s[k]),
    ensures
        trim_start_ws(s) == s.subrange(k, s.len() as int),
    decreases s.len(),
{
    if s.len() > 0 && is_ws_byte(s[0]) {
        assert(k >= 1);
        assert forall|j: int| 0 <= j < k - 1 implies is_ws_byte(#[trigger] s.drop_first()[j]) by {
            assert(s.drop_first()[j] == s[j + 1]);
        }
        if k - 1 < s.drop_first().len() {
            assert(s.drop_first()[k - 1] == s[k]);
        }
        lemma_trim_start_is(s.drop_first(), k - 1);
        assert(s.drop_first().subrange(k - 1, s.drop_first().len() as int) =~= s.subrange(
            k,
            s.len() as int,
        ));
    } else {
        assert(k == 0);
        assert(trim_start_ws(s) == s);
        assert(s =~= s.subrange(0, s.len() as int));
    }
}

/// Drop whitespace bytes from both ends.
pub open spec fn spec_trim_ws(s: Seq<u8>) -> Seq<u8> {
    trim_end_ws(trim_start_ws(s))
}

/// The index of the first occurrence of `b` in `s`, or `s.len()` when `b`
/// does not occur.
pub open spec fn first_pos(s: Seq<u8>, b: u8) -> int
    decreases s.len(),
{
    if s.len() == 0 {
        0
    } else if s[0] == b {
        0
    } else {
        1 + first_pos(s.drop_first(), b)
    }
}

/// The defining properties of [`first_pos`]: it is in bounds, it points at
/// `b` when `b` occurs, and nothing before it is `b`.
pub proof fn lemma_first_pos(s: Seq<u8>, b: u8)
    ensures
        0 <= first_pos(s, b) <= s.len(),
        first_pos(s, b) < s.len() ==> s[first_pos(s, b)] == b,
        forall|j: int| 0 <= j < first_pos(s, b) ==> s[j] != b,
    decreases s.len(),
{
    if s.len() > 0 && s[0] != b {
        lemma_first_pos(s.drop_first(), b);
        assert forall|j: int| 0 <= j < first_pos(s, b) implies s[j] != b by {
            if j > 0 {
                assert(s.drop_first()[j - 1] == s[j]);
            }
        }
    }
}

/// `first_pos` is the unique position with its defining properties.
pub proof fn lemma_first_pos_is(s: Seq<u8>, b: u8, i: int)
    requires
        0 <= i <= s.len(),
        forall|j: int| 0 <= j < i ==> s[j] != b,
        i < s.len() ==> s[i] == b,
    ensures
        first_pos(s, b) == i,
{
    lemma_first_pos(s, b);
    let fp = first_pos(s, b);
    if fp < i {
        assert(s[fp] == b);
        assert(false);
    }
    if fp > i {
        assert(i < s.len());
        assert(s[i] != b);
        assert(false);
    }
}

/// In a concatenation whose left part is free of `b`, the first occurrence
/// of `b` is the left part's length plus the first occurrence on the right.
pub proof fn lemma_first_pos_concat(a: Seq<u8>, c: Seq<u8>, b: u8)
    requires
        forall|j: int| 0 <= j < a.len() ==> a[j] != b,
    ensures
        first_pos(a + c, b) == a.len() + first_pos(c, b),
{
    lemma_first_pos(c, b);
    let fp = first_pos(c, b);
    assert forall|j: int| 0 <= j < a.len() + fp implies (a + c)[j] != b by {
        if j < a.len() {
            assert((a + c)[j] == a[j]);
        } else {
            assert((a + c)[j] == c[j - a.len()]);
        }
    }
    if fp < c.len() {
        assert((a + c)[a.len() + fp] == c[fp]);
    }
    lemma_first_pos_is(a + c, b, a.len() + fp);
}

/// Find the first occurrence of a byte in a slice.
pub(crate) fn find_byte(s: &[u8], b: u8) -> (r: usize)
    ensures
        r == first_pos(s@, b),
{
    let n: usize = s.len();
    let mut i: usize = 0;
    while i < n
        invariant
            0 <= i <= n,
            n == s@.len(),
            forall|j: int| 0 <= j < i ==> s@[j] != b,
        decreases n - i,
    {
        let c: u8 = *vstd::slice::slice_index_get(s, i);
        if c == b {
            proof {
                lemma_first_pos_is(s@, b, i as int);
            }
            return i;
        }
        i = i + 1;
    }
    proof {
        lemma_first_pos_is(s@, b, n as int);
    }
    n
}

/// UTF-8 encoding is injective: equal byte encodings come from equal
/// character sequences.
pub proof fn lemma_str_bytes_injective(a: Seq<char>, b: Seq<char>)
    requires
        str_bytes(a) == str_bytes(b),
    ensures
        a == b,
{
    vstd::utf8::encode_utf8_decode_utf8(a);
    vstd::utf8::encode_utf8_decode_utf8(b);
}

/// A prefix of a valid UTF-8 sequence that is cut right after an ASCII
/// byte is itself valid UTF-8: an ASCII byte is a whole character, so the
/// cut falls on a character boundary.
pub proof fn lemma_ascii_prefix_valid_utf8(s: Seq<u8>, k: int)
    requires
        valid_utf8(s),
        0 < k <= s.len(),
        s[k - 1] < 0x80,
    ensures
        valid_utf8(s.subrange(0, k)),
{
    broadcast use vstd::utf8::group_utf8_lib;

    assert(!vstd::utf8::is_continuation_byte(s[k - 1]));
    assert(vstd::utf8::is_char_boundary(s, k - 1));
    vstd::utf8::valid_utf8_split(s, k - 1);
    let tail = s.subrange(k - 1, s.len() as int);
    assert(valid_utf8(tail));
    assert(tail.len() > 0);
    assert(tail[0] == s[k - 1]);
    assert(vstd::utf8::is_leading_byte_width_1(tail[0]));
    assert(vstd::utf8::length_of_first_scalar(tail) == 1);
    if k < s.len() {
        let tail2 = vstd::utf8::pop_first_scalar(tail);
        assert(valid_utf8(tail2));
        assert(tail2 =~= s.subrange(k, s.len() as int));
        assert(tail2.len() > 0);
        assert(tail2[0] == s[k]);
        assert(vstd::utf8::valid_first_scalar(tail2));
        assert(!vstd::utf8::is_continuation_byte(s[k]));
        assert(vstd::utf8::is_char_boundary(s, k));
    } else {
        assert(vstd::utf8::is_char_boundary(s, k));
    }
    vstd::utf8::valid_utf8_split(s, k);
}

/// UTF-8 encoding distributes over concatenation of character sequences.
pub proof fn lemma_encode_utf8_concat(a: Seq<char>, b: Seq<char>)
    ensures
        encode_utf8(a + b) == encode_utf8(a) + encode_utf8(b),
    decreases a.len(),
{
    if a.len() == 0 {
        assert(a + b =~= b);
        assert(encode_utf8(a) =~= Seq::<u8>::empty());
        assert(encode_utf8(a) + encode_utf8(b) =~= encode_utf8(b));
    } else {
        lemma_encode_utf8_concat(a.drop_first(), b);
        assert((a + b).drop_first() =~= a.drop_first() + b);
        assert((a + b)[0] == a[0]);
        assert(encode_utf8(a + b) =~= encode_utf8(a) + encode_utf8(b));
    }
}

/// A sequence of ASCII bytes is valid UTF-8.
pub proof fn lemma_ascii_bytes_valid_utf8(s: Seq<u8>)
    requires
        forall|i: int| 0 <= i < s.len() ==> #[trigger] s[i] < 0x80,
    ensures
        valid_utf8(s),
{
    assert forall|i: int| 0 <= i < s.len() implies vstd::utf8::is_leading_byte_width_1(
        #[trigger] s[i],
    ) by {}
    assert(s.subrange(0, 0) =~= Seq::<u8>::empty());
    assert(vstd::utf8::partial_valid_utf8(s, 0));
    vstd::utf8::partial_valid_utf8_extend_ascii_block(s, 0, s.len() as int);
    assert(s.subrange(0, s.len() as int) =~= s);
}

/// Relies on std's `String::from_utf8`: it succeeds exactly on valid UTF-8
/// input and the returned string holds exactly the given bytes.
#[verifier::external_body]
pub(crate) fn string_from_utf8(bytes: Vec<u8>) -> (r: Option<String>)
    ensures
        r is Some <==> valid_utf8(bytes@),
        r is Some ==> str_bytes(r->0@) == bytes@,
{
    String::from_utf8(bytes).ok()
}

} // verus!
