//! Percent-encoding: the byte-level escaping scheme of the token grammar.
//!
//! Each segment of an encoded token escapes a fixed set of ASCII bytes as
//! `%` plus two uppercase hex digits; all other bytes, including non-ASCII
//! UTF-8 bytes, pass through unchanged.  Decoding replaces every well-formed
//! `%XX` escape (either hex case) and passes everything else through.

use vstd::prelude::*;

use crate::text::is_ws_byte;

verus! {

/// The three encode sets of the token grammar: one for the facet segment,
/// one for property names and values, one for the label segment.
#[derive(Debug, Clone, Copy, PartialEq, Eq, Structural)]
pub enum EncSet {
    /// The facet segment's set.
    Facet,
    /// The property segment's set.
    Props,
    /// The label segment's set.
    Label,
}

/// An ASCII control byte (C0 controls or DEL).
pub open spec fn is_ctl(b: u8) -> bool {
    b < 0x20 || b == 0x7f
}

/// Membership in an encode set.  All three sets escape the control bytes,
/// `%`, space and the quoting characters `"` `<` `>`.  The facet set
/// additionally escapes `#` `` ` `` `?` `{` `}`, the props set `#` `&` `=`,
/// and the label set `` ` ``.
pub open spec fn in_set(set: EncSet, b: u8) -> bool {
    ||| is_ctl(b)
    ||| b == 0x25
    ||| b == 0x20
    ||| b == 0x22
    ||| b == 0x3c
    ||| b == 0x3e
    ||| (match set {
        EncSet::Facet => b == 0x23 || b == 0x60 || b == 0x3f || b == 0x7b || b == 0x7d,
        EncSet::Props => b == 0x23 || b == 0x26 || b == 0x3d,
        EncSet::Label => b == 0x60,
    })
}

/// The uppercase hex digit for a value below 16.
pub open spec fn hex_digit(n: u8) -> u8
    recommends
        n < 16,
{
    if n < 10 {
        (0x30 + n) as u8
    } else {
        (0x41 + n - 10) as u8
    }
}

/// The three-byte escape of one byte: `%` plus two uppercase hex digits.
pub open spec fn pct_byte(b: u8) -> Seq<u8> {
    seq![0x25u8, hex_digit(b / 16), hex_digit(b % 16)]
}

/// Percent-encode a byte sequence against an encode set.
pub open spec fn spec_pct_encode(s: Seq<u8>, set: EncSet) -> Seq<u8>
    decreases s.len(),
{
    if s.len() == 0 {
        Seq::empty()
    } else {
        (if in_set(set, s[0]) {
            pct_byte(s[0])
        } else {
            seq![s[0]]
        }) + spec_pct_encode(s.drop_first(), set)
    }
}

/// An ASCII hex digit of either case.
pub open spec fn is_hex(b: u8) -> bool {
    (0x30 <= b && b <= 0x39) || (0x41 <= b && b <= 0x46) || (0x61 <= b && b <= 0x66)
}

/// The value of a hex digit of either case.
pub open spec fn hex_val(b: u8) -> u8
    recommends
        is_hex(b),
{
    if 0x30 <= b && b <= 0x39 {
        (b - 0x30) as u8
    } else if 0x41 <= b && b <= 0x46 {
        (b - 0x41 + 10) as u8
    } else {
        (b - 0x61 + 10) as u8
    }
}

/// Percent-decode a byte sequence: replace every well-formed `%XX` escape
/// by its byte and pass every other byte through unchanged.
pub open spec fn spec_pct_decode(s: Seq<u8>) -> Seq<u8>
    decreases s.len(),
{
    if s.len() == 0 {
        Seq::empty()
    } else if s[0] == 0x25 && s.len() >= 3 && is_hex(s[1]) && is_hex(s[2]) {
        seq![(16 * hex_val(s[1]) + hex_val(s[2])) as u8] + spec_pct_decode(
            s.subrange(3, s.len() as int),
        )
    } else {
        seq![s[0]] + spec_pct_decode(s.drop_first())
    }
}

/// Encoding of a sequence extended by one byte.
pub proof fn lemma_pct_encode_snoc(s: Seq<u8>, b: u8, set: EncSet)
    ensures
        spec_pct_encode(s.push(b), set) == spec_pct_encode(s, set) + (if in_set(set, b) {
            pct_byte(b)
        } else {
            seq![b]
        }),
    decreases s.len(),
{
    let tail = if in_set(set, b) {
        pct_byte(b)
    } else {
        seq![b]
    };
    if s.len() == 0 {
        assert(s.push(b).drop_first() =~= Seq::<u8>::empty());
        assert(s.push(b)[0] == b);
        assert(spec_pct_encode(Seq::<u8>::empty(), set) == Seq::<u8>::empty());
        assert(spec_pct_encode(s.push(b), set) == tail + spec_pct_encode(
            s.push(b).drop_first(),
            set,
        ));
        assert(spec_pct_encode(s.push(b), set) =~= tail);
        assert(spec_pct_encode(s, set) + tail =~= tail);
    } else {
        lemma_pct_encode_snoc(s.drop_first(), b, set);
        assert(s.push(b).drop_first() =~= s.drop_first().push(b));
        assert(s.push(b)[0] == s[0]);
        assert(spec_pct_encode(s.push(b), set) =~= spec_pct_encode(s, set) + tail);
    }
}

/// Encoding distributes over concatenation.
pub proof fn lemma_pct_encode_concat(a: Seq<u8>, b: Seq<u8>, set: EncSet)
    ensures
        spec_pct_encode(a + b, set) == spec_pct_encode(a, set) + spec_pct_encode(b, set),
    decreases a.len(),
{
    if a.len() == 0 {
        assert(a + b =~= b);
        assert(spec_pct_encode(a, set) + spec_pct_encode(b, set) =~= spec_pct_encode(b, set));
    } else {
        lemma_pct_encode_concat(a.drop_first(), b, set);
        assert((a + b).drop_first() =~= a.drop_first() + b);
        assert((a + b)[0] == a[0]);
        assert(spec_pct_encode(a + b, set) =~= spec_pct_encode(a, set) + spec_pct_encode(b, set));
    }
}

/// An encoding is empty exactly when its input is empty.
pub proof fn lemma_pct_encode_empty(s: Seq<u8>, set: EncSet)
    ensures
        (spec_pct_encode(s, set).len() == 0) <==> (s.len() == 0),
{
    if s.len() > 0 {
        assert(spec_pct_encode(s, set).len() >= 1);
    }
}

/// A byte that its set escapes, and that is neither `%` nor a hex digit,
/// never occurs in an encoding.
pub proof fn lemma_pct_encode_excludes(s: Seq<u8>, set: EncSet, c: u8)
    requires
        in_set(set, c),
        !is_hex(c),
        c != 0x25,
    ensures
        forall|i: int|
            0 <= i < spec_pct_encode(s, set).len() ==> #[trigger] spec_pct_encode(s, set)[i] != c,
    decreases s.len(),
{
    if s.len() > 0 {
        lemma_pct_encode_excludes(s.drop_first(), set, c);
        let head = if in_set(set, s[0]) {
            pct_byte(s[0])
        } else {
            seq![s[0]]
        };
        let enc = spec_pct_encode(s, set);
        let rest = spec_pct_encode(s.drop_first(), set);
        assert(enc == head + rest);
        assert(forall|i: int| 0 <= i < head.len() ==> #[trigger] head[i] != c);
        assert forall|i: int| 0 <= i < enc.len() implies #[trigger] enc[i] != c by {
            if i < head.len() {
                assert(enc[i] == head[i]);
            } else {
                assert(enc[i] == rest[i - head.len()]);
            }
        }
    }
}

/// No whitespace byte ever occurs in an encoding: every whitespace byte is
/// in every set, and the escapes consist of `%` and hex digits only.
pub proof fn lemma_pct_encode_no_ws(s: Seq<u8>, set: EncSet)
    ensures
        forall|i: int|
            0 <= i < spec_pct_encode(s, set).len() ==> !is_ws_byte(
                #[trigger] spec_pct_encode(s, set)[i],
            ),
    decreases s.len(),
{
    if s.len() > 0 {
        lemma_pct_encode_no_ws(s.drop_first(), set);
        let head = if in_set(set, s[0]) {
            pct_byte(s[0])
        } else {
            seq![s[0]]
        };
        let enc = spec_pct_encode(s, set);
        let rest = spec_pct_encode(s.drop_first(), set);
        assert(enc == head + rest);
        assert(forall|i: int| 0 <= i < head.len() ==> !is_ws_byte(#[trigger] head[i]));
        assert forall|i: int| 0 <= i < enc.len() implies !is_ws_byte(#[trigger] enc[i]) by {
            if i < head.len() {
                assert(enc[i] == head[i]);
            } else {
                assert(enc[i] == rest[i - head.len()]);
            }
        }
    }
}

/// Encoding a sequence none of whose bytes its set escapes is the identity.
pub proof fn lemma_pct_encode_identity(s: Seq<u8>, set: EncSet)
    requires
        forall|i: int| 0 <= i < s.len() ==> !in_set(set, #[trigger] s[i]),
    ensures
        spec_pct_encode(s, set) == s,
    decreases s.len(),
{
    if s.len() == 0 {
        assert(spec_pct_encode(s, set) =~= s);
    } else {
        assert(!in_set(set, s[0]));
        assert forall|i: int| 0 <= i < s.drop_first().len() implies !in_set(
            set,
            #[trigger] s.drop_first()[i],
        ) by {
            assert(s.drop_first()[i] == s[i + 1]);
        }
        lemma_pct_encode_identity(s.drop_first(), set);
        assert(spec_pct_encode(s, set) =~= s);
    }
}

/// Decoding inverts encoding, for every encode set.
pub proof fn lemma_pct_roundtrip(s: Seq<u8>, set: EncSet)
    ensures
        spec_pct_decode(spec_pct_encode(s, set)) == s,
    decreases s.len(),
{
    if s.len() == 0 {
        assert(spec_pct_decode(spec_pct_encode(s, set)) =~= s);
    } else {
        lemma_pct_roundtrip(s.drop_first(), set);
        let b = s[0];
        let enc = spec_pct_encode(s, set);
        let rest_enc = spec_pct_encode(s.drop_first(), set);
        if in_set(set, b) {
            assert(enc == pct_byte(b) + rest_enc);
            assert(enc[0] == 0x25 && enc.len() >= 3);
            assert(is_hex(hex_digit(b / 16)) && is_hex(hex_digit(b % 16)));
            assert(enc[1] == hex_digit(b / 16) && enc[2] == hex_digit(b % 16));
            assert(hex_val(hex_digit(b / 16)) == b / 16);
            assert(hex_val(hex_digit(b % 16)) == b % 16);
            assert(16 * (b / 16) + (b % 16) == b);
            assert(enc.subrange(3, enc.len() as int) =~= rest_enc);
            assert(spec_pct_decode(enc) =~= seq![b] + s.drop_first());
            assert(seq![b] + s.drop_first() =~= s);
        } else {
            assert(b != 0x25);
            assert(enc == seq![b] + rest_enc);
            assert(enc[0] == b);
            assert(enc.drop_first() =~= rest_enc);
            assert(spec_pct_decode(enc) =~= seq![b] + s.drop_first());
            assert(seq![b] + s.drop_first() =~= s);
        }
    }
}

fn byte_in_set(set: EncSet, b: u8) -> (r: bool)
    ensures
        r == in_set(set, b),
{
    if b < 0x20 || b == 0x7f || b == 0x25 || b == 0x20 || b == 0x22 || b == 0x3c || b == 0x3e {
        return true;
    }
    match set {
        EncSet::Facet => b == 0x23 || b == 0x60 || b == 0x3f || b == 0x7b || b == 0x7d,
        EncSet::Props => b == 0x23 || b == 0x26 || b == 0x3d,
        EncSet::Label => b == 0x60,
    }
}

fn hex_digit_of(n: u8) -> (r: u8)
    requires
        n < 16,
    ensures
        r == hex_digit(n),
{
    if n < 10 {
        0x30 + n
    } else {
        0x41 + n - 10
    }
}

/// Append the percent-encoding of `s` against `set` to `out`.
pub(crate) fn pct_encode_push(out: &mut Vec<u8>, s: &[u8], set: EncSet)
    ensures
        final(out)@ == old(out)@ + spec_pct_encode(s@, set),
{
    let n: usize = s.len();
    let mut i: usize = 0;
    while i < n
        invariant
            0 <= i <= n,
            n == s@.len(),
            out@ == old(out)@ + spec_pct_encode(s@.subrange(0, i as int), set),
        decreases n - i,
    {
        let b: u8 = *vstd::slice::slice_index_get(s, i);
        proof {
            lemma_pct_encode_snoc(s@.subrange(0, i as int), b, set);
            assert(s@.subrange(0, i as int).push(b) =~= s@.subrange(0, i + 1 as int));
        }
        if byte_in_set(set, b) {
            out.push(0x25);
            out.push(hex_digit_of(b / 16));
            out.push(hex_digit_of(b % 16));
            proof {
                assert(out@ =~= old(out)@ + spec_pct_encode(s@.subrange(0, i + 1 as int), set));
            }
        } else {
            out.push(b);
            proof {
                assert(out@ =~= old(out)@ + spec_pct_encode(s@.subrange(0, i + 1 as int), set));
            }
        }
        i = i + 1;
    }
    proof {
        assert(s@.subrange(0, n as int) =~= s@);
    }
}

fn byte_is_hex(b: u8) -> (r: bool)
    ensures
        r == is_hex(b),
{
    (0x30 <= b && b <= 0x39) || (0x41 <= b && b <= 0x46) || (0x61 <= b && b <= 0x66)
}

fn hex_val_of(b: u8) -> (r: u8)
    requires
        is_hex(b),
    ensures
        r == hex_val(b),
{
    if 0x30 <= b && b <= 0x39 {
        b - 0x30
    } else if 0x41 <= b && b <= 0x46 {
        b - 0x41 + 10
    } else {
        b - 0x61 + 10
    }
}

/// Percent-decode a byte slice.
pub(crate) fn pct_decode_bytes(s: &[u8]) -> (r: Vec<u8>)
    ensures
        r@ == spec_pct_decode(s@),
{
    let n: usize = s.len();
    let mut out: Vec<u8> = Vec::new();
    proof {
        assert(s@.subrange(0, n as int) =~= s@);
        assert(out@ + spec_pct_decode(s@) =~= spec_pct_decode(s@));
    }
    let mut i: usize = 0;
    while i < n
        invariant
            0 <= i <= n,
            n == s@.len(),
            spec_pct_decode(s@) == out@ + spec_pct_decode(s@.subrange(i as int, n as int)),
        decreases n - i,
    {
        let ghost remaining = s@.subrange(i as int, n as int);
        let b: u8 = *vstd::slice::slice_index_get(s, i);
        proof {
            assert(remaining[0] == b);
        }
        if b == 0x25 && n - i >= 3 {
            let h1: u8 = *vstd::slice::slice_index_get(s, i + 1);
            let h2: u8 = *vstd::slice::slice_index_get(s, i + 2);
            proof {
                assert(remaining.len() >= 3);
                assert(remaining[1] == h1 && remaining[2] == h2);
            }
            if byte_is_hex(h1) && byte_is_hex(h2) {
                out.push(16 * hex_val_of(h1) + hex_val_of(h2));
                proof {
                    assert(remaining.subrange(3, remaining.len() as int) =~= s@.subrange(
                        i + 3 as int,
                        n as int,
                    ));
                    assert(spec_pct_decode(remaining) =~= seq![(16 * hex_val(h1) + hex_val(h2)) as u8]
                        + spec_pct_decode(s@.subrange(i + 3 as int, n as int)));
                }
                i = i + 3;
                continue;
            }
        }
        out.push(b);
        proof {
            if !(b == 0x25 && remaining.len() >= 3 && is_hex(remaining[1]) && is_hex(
                remaining[2],
            )) {
                assert(spec_pct_decode(remaining) == seq![b] + spec_pct_decode(
                    remaining.drop_first(),
                ));
            }
            assert(remaining.drop_first() =~= s@.subrange(i + 1 as int, n as int));
        }
        i = i + 1;
    }
    proof {
        assert(s@.subrange(n as int, n as int) =~= Seq::<u8>::empty());
    }
    out
}

} // verus!
