//! The free-text scanner: peel a maximal trailing run of whitespace-
//! separated tag tokens off a text field, preserving the undecoded rest.

use vstd::prelude::*;
use vstd::string::StringExecFns;
use vstd::utf8::valid_utf8;

use crate::codec;
use crate::codec::{spec_decode_token, spec_encode_tag};
use crate::tag::{spec_tag_valid, Tag, TagView};
use crate::text;
use crate::text::{all_ws, is_ws_byte, lemma_trim_end, lemma_trim_end_is, str_bytes, trim_end_ws};

verus! {

broadcast use vstd::utf8::group_utf8_lib;

/// The position of the last whitespace byte of `s`, or `-1` when there is
/// none.
pub open spec fn last_ws_pos(s: Seq<u8>) -> int
    decreases s.len(),
{
    if s.len() == 0 {
        -1
    } else if is_ws_byte(s.last()) {
        s.len() - 1
    } else {
        last_ws_pos(s.drop_last())
    }
}

/// The defining properties of [`last_ws_pos`].
pub proof fn lemma_last_ws_pos(s: Seq<u8>)
    ensures
        -1 <= last_ws_pos(s) < s.len(),
        last_ws_pos(s) >= 0 ==> is_ws_byte(s[last_ws_pos(s)]),
        forall|j: int| last_ws_pos(s) < j < s.len() ==> !is_ws_byte(#[trigger] s[j]),
    decreases s.len(),
{
    if s.len() > 0 && !is_ws_byte(s.last()) {
        lemma_last_ws_pos(s.drop_last());
        assert forall|j: int| last_ws_pos(s) < j < s.len() implies !is_ws_byte(
            #[trigger] s[j],
        ) by {
            if j < s.len() - 1 {
                assert(s.drop_last()[j] == s[j]);
            }
        }
    }
}

/// The last whitespace position, identified by the start of the final
/// whitespace-free run: everything from `k` on is not whitespace, and the
/// byte before `k` (if any) is.
pub proof fn lemma_last_ws_pos_is(s: Seq<u8>, k: int)
    requires
        0 <= k <= s.len(),
        forall|j: int| k <= j < s.len() ==> !is_ws_byte(#[trigger] s[j]),
        k > 0 ==> is_ws_byte(s[k - 1]),
    ensures
        last_ws_pos(s) == k - 1,
    decreases s.len(),
{
    if s.len() == k {
        if k == 0 {
        } else {
            assert(s.last() == s[k - 1]);
        }
        if k > 0 {
            assert(last_ws_pos(s) == k - 1);
        }
    } else {
        assert(!is_ws_byte(s.last()));
        assert forall|j: int| k <= j < s.drop_last().len() implies !is_ws_byte(
            #[trigger] s.drop_last()[j],
        ) by {
            assert(s.drop_last()[j] == s[j]);
        }
        if k > 0 {
            assert(s.drop_last()[k - 1] == s[k - 1]);
        }
        lemma_last_ws_pos_is(s.drop_last(), k);
    }
}

/// The raw scan of a working suffix: trim trailing whitespace; stop when
/// nothing is left or the final token does not decode; otherwise record
/// the token and continue to the left of its separating whitespace.  The
/// recorded tags are returned left to right, with the suffix that was left
/// undecoded.
pub open spec fn spec_scan_raw(s: Seq<u8>) -> (Seq<TagView>, Seq<u8>)
    decreases s.len(),
    via spec_scan_raw_dec
{
    if s.len() == 0 {
        (Seq::<TagView>::empty(), s)
    } else {
        let r = trim_end_ws(s);
        if r.len() == 0 {
            (Seq::<TagView>::empty(), s)
        } else {
            let w = last_ws_pos(r);
            // The guard never fires: the trimmed remainder cannot end in
            // whitespace.  It keeps the recursion visibly well founded.
            if !(-1 <= w < r.len() - 1) {
                (Seq::<TagView>::empty(), s)
            } else {
                let token = r.subrange(w + 1, r.len() as int);
                let rest = r.subrange(0, w + 1);
                match spec_decode_token(token) {
                    Ok(tag) => {
                        let (tags, prefix) = spec_scan_raw(rest);
                        (tags.push(tag), prefix)
                    },
                    Err(_) => (Seq::<TagView>::empty(), s),
                }
            }
        }
    }
}

#[via_fn]
proof fn spec_scan_raw_dec(s: Seq<u8>) {
    lemma_trim_end(s);
    let r = trim_end_ws(s);
    if r.len() > 0 {
        lemma_last_ws_pos(r);
    }
}

/// The model of a scanned text field: the decoded tags in order, and the
/// bytes of the undecoded prefix.
pub ghost struct DecodedTagsView {
    pub tags: Seq<TagView>,
    pub undecoded_prefix: Seq<u8>,
}

/// The scan of a whole text field: the raw scan, with an all-whitespace
/// undecoded prefix discarded.
pub open spec fn spec_scan(s: Seq<u8>) -> DecodedTagsView {
    let raw = spec_scan_raw(s);
    DecodedTagsView {
        tags: raw.0,
        undecoded_prefix: if all_ws(raw.1) {
            Seq::<u8>::empty()
        } else {
            raw.1
        },
    }
}

/// Tags decoded from a text field
#[derive(Debug, Clone, Eq)]
pub struct DecodedTags {
    /// Valid, decoded tags
    pub tags: Vec<Tag>,

    /// The remaining, undecoded prefix.
    pub undecoded_prefix: String,
}

impl View for DecodedTags {
    type V = DecodedTagsView;

    open spec fn view(&self) -> DecodedTagsView {
        DecodedTagsView {
            tags: Seq::new(self.tags@.len(), |i: int| self.tags@[i]@),
            undecoded_prefix: str_bytes(self.undecoded_prefix@),
        }
    }
}

impl PartialEq for DecodedTags {
    fn eq(&self, other: &Self) -> (r: bool) {
        let prefix_eq = self.undecoded_prefix == other.undecoded_prefix;
        if !prefix_eq {
            proof {
                if self@ == other@ {
                    assert(self@.undecoded_prefix == other@.undecoded_prefix);
                    text::lemma_str_bytes_injective(
                        self.undecoded_prefix@,
                        other.undecoded_prefix@,
                    );
                }
                assert(!(self@ == other@));
            }
            return false;
        }
        if self.tags.len() != other.tags.len() {
            proof {
                assert(self@.tags.len() != other@.tags.len());
            }
            return false;
        }
        let n = self.tags.len();
        let mut i: usize = 0;
        while i < n
            invariant
                0 <= i <= n,
                n == self.tags@.len(),
                n == other.tags@.len(),
                forall|j: int| 0 <= j < i ==> self.tags@[j]@ == other.tags@[j]@,
            decreases n - i,
        {
            if !(&self.tags[i] == &other.tags[i]) {
                proof {
                    assert(self@.tags[i as int] == self.tags@[i as int]@);
                    assert(other@.tags[i as int] == other.tags@[i as int]@);
                }
                return false;
            }
            i = i + 1;
        }
        proof {
            assert(self@.tags =~= other@.tags);
        }
        true
    }
}

impl vstd::std_specs::cmp::PartialEqSpecImpl for DecodedTags {
    open spec fn obeys_eq_spec() -> bool {
        true
    }

    open spec fn eq_spec(&self, other: &Self) -> bool {
        self@ == other@
    }
}

/// The reversed sequence of the views of a tag vector: the scanner
/// discovers tags right to left and restores left-to-right order at the
/// end.
spec fn rev_views(v: Seq<Tag>) -> Seq<TagView> {
    Seq::new(v.len(), |i: int| v[v.len() - 1 - i]@)
}

fn ws_at(s: &[u8], i: usize) -> (r: bool)
    requires
        i < s@.len(),
    ensures
        r == is_ws_byte(s@[i as int]),
{
    let b: u8 = *vstd::slice::slice_index_get(s, i);
    text::byte_is_ws(b)
}

fn bytes_all_ws(s: &[u8], end: usize) -> (r: bool)
    requires
        end <= s@.len(),
    ensures
        r == all_ws(s@.subrange(0, end as int)),
{
    let mut i: usize = 0;
    while i < end
        invariant
            0 <= i <= end,
            end <= s@.len(),
            forall|j: int| 0 <= j < i ==> is_ws_byte(#[trigger] s@[j]),
        decreases end - i,
    {
        let b: u8 = *vstd::slice::slice_index_get(s, i);
        if !text::byte_is_ws(b) {
            proof {
                assert(s@.subrange(0, end as int)[i as int] == s@[i as int]);
            }
            return false;
        }
        i = i + 1;
    }
    proof {
        assert forall|j: int| 0 <= j < end implies is_ws_byte(
            #[trigger] s@.subrange(0, end as int)[j],
        ) by {
            assert(s@.subrange(0, end as int)[j] == s@[j]);
        }
    }
    true
}

impl DecodedTags {
    /// Decode from a string slice.
    ///
    /// Scanning never fails: a token that does not decode simply ends the
    /// scan, and everything before it is kept as the undecoded prefix.
    #[verifier::rlimit(100)]
    pub fn decode_str(encoded: &str) -> (r: DecodedTags)
        ensures
            r@ == spec_scan(str_bytes(encoded@)),
    {
        let s: &[u8] = encoded.as_bytes();
        let n: usize = s.len();
        let ghost full: Seq<u8> = s@;
        let mut tags_rev: Vec<Tag> = Vec::new();
        let mut end: usize = n;
        proof {
            assert(full.subrange(0, n as int) =~= full);
            assert(rev_views(tags_rev@) =~= Seq::<TagView>::empty());
            assert(spec_scan_raw(full).0 =~= spec_scan_raw(full.subrange(0, end as int)).0
                + rev_views(tags_rev@));
        }
        loop
            invariant
                0 <= end <= n,
                n == full.len(),
                s@ == full,
                spec_scan_raw(full).0 == spec_scan_raw(full.subrange(0, end as int)).0 + rev_views(
                    tags_rev@,
                ),
                spec_scan_raw(full).1 == spec_scan_raw(full.subrange(0, end as int)).1,
                end == n || end == 0 || is_ws_byte(full[end - 1]),
            ensures
                0 <= end <= n,
                s@ == full,
                spec_scan_raw(full).0 == rev_views(tags_rev@),
                spec_scan_raw(full).1 == full.subrange(0, end as int),
                end == n || end == 0 || is_ws_byte(full[end - 1]),
            decreases end,
        {
            let ghost cur: Seq<u8> = full.subrange(0, end as int);
            if end == 0 {
                proof {
                    assert(cur.len() == 0);
                    assert(spec_scan_raw(cur).0 =~= Seq::<TagView>::empty());
                    assert(spec_scan_raw(full).0 =~= rev_views(tags_rev@));
                }
                break;
            }
            // Trim trailing whitespace.
            let mut e2: usize = end;
            while e2 > 0 && ws_at(s, e2 - 1)
                invariant
                    0 <= e2 <= end <= n,
                    n == full.len(),
                    s@ == full,
                    forall|j: int| e2 <= j < end ==> is_ws_byte(#[trigger] full[j]),
                decreases e2,
            {
                e2 = e2 - 1;
            }
            proof {
                assert forall|j: int| e2 <= j < cur.len() implies is_ws_byte(
                    #[trigger] cur[j],
                ) by {
                    assert(cur[j] == full[j]);
                }
                if e2 > 0 {
                    assert(cur[e2 - 1] == full[e2 - 1]);
                }
                lemma_trim_end_is(cur, e2 as int);
                assert(trim_end_ws(cur) == cur.subrange(0, e2 as int));
                assert(cur.subrange(0, e2 as int) =~= full.subrange(0, e2 as int));
            }
            let ghost r_ghost: Seq<u8> = full.subrange(0, e2 as int);
            if e2 == 0 {
                proof {
                    assert(r_ghost.len() == 0);
                    assert(spec_scan_raw(cur).0 =~= Seq::<TagView>::empty());
                    assert(spec_scan_raw(cur).1 == cur);
                    assert(spec_scan_raw(full).0 =~= rev_views(tags_rev@));
                }
                break;
            }
            // Find the last whitespace byte before the token.
            let mut w: usize = e2;
            while w > 0 && !ws_at(s, w - 1)
                invariant
                    0 <= w <= e2,
                    n == full.len(),
                    s@ == full,
                    e2 <= n,
                    forall|j: int| w <= j < e2 ==> !is_ws_byte(#[trigger] full[j]),
                decreases w,
            {
                w = w - 1;
            }
            proof {
                assert forall|j: int| w <= j < r_ghost.len() implies !is_ws_byte(
                    #[trigger] r_ghost[j],
                ) by {
                    assert(r_ghost[j] == full[j]);
                }
                if w > 0 {
                    assert(r_ghost[w - 1] == full[w - 1]);
                }
                lemma_last_ws_pos_is(r_ghost, w as int);
                assert(last_ws_pos(r_ghost) == w - 1);
                assert(!is_ws_byte(r_ghost.last()));
                assert(last_ws_pos(r_ghost) < r_ghost.len() - 1);
            }
            let token: &[u8] = vstd::slice::slice_subrange(s, w, e2);
            proof {
                assert(token@ =~= r_ghost.subrange(w as int, r_ghost.len() as int));
            }
            match codec::decode_token_bytes(token) {
                Ok(tag) => {
                    let ghost tag_model = tag@;
                    let ghost old_rev = tags_rev@;
                    tags_rev.push(tag);
                    proof {
                        let rest = r_ghost.subrange(0, w as int);
                        assert(rest =~= full.subrange(0, w as int));
                        assert(spec_scan_raw(cur).0 == spec_scan_raw(rest).0.push(tag_model));
                        assert(spec_scan_raw(cur).1 == spec_scan_raw(rest).1);
                        assert(rev_views(tags_rev@) =~= seq![tag_model] + rev_views(old_rev));
                        assert(spec_scan_raw(rest).0.push(tag_model) + rev_views(old_rev)
                            =~= spec_scan_raw(rest).0 + (seq![tag_model] + rev_views(old_rev)));
                    }
                    end = w;
                },
                Err(_) => {
                    proof {
                        assert(spec_scan_raw(cur).0 =~= Seq::<TagView>::empty());
                        assert(spec_scan_raw(cur).1 == cur);
                        assert(spec_scan_raw(full).0 =~= rev_views(tags_rev@));
                    }
                    break;
                },
            }
        }
        // Restore left-to-right order.
        let ghost final_tags: Seq<TagView> = rev_views(tags_rev@);
        proof {
            assert(spec_scan_raw(full).0 =~= final_tags);
        }
        let mut tags: Vec<Tag> = Vec::new();
        while tags_rev.len() > 0
            invariant
                tags@.len() + tags_rev@.len() == final_tags.len(),
                forall|j: int| 0 <= j < tags@.len() ==> #[trigger] tags@[j]@ == final_tags[j],
                forall|j: int|
                    0 <= j < tags_rev@.len() ==> #[trigger] tags_rev@[j]@ == final_tags[(
                    final_tags.len() - 1 - j) as int],
            decreases tags_rev@.len(),
        {
            let t = tags_rev.pop().unwrap();
            tags.push(t);
        }
        // Build the undecoded prefix, discarding it when all whitespace.
        let prefix_string: String;
        if bytes_all_ws(s, end) {
            prefix_string = String::new();
            proof {
                text::lemma_str_bytes_empty(prefix_string@);
            }
        } else {
            proof {
                assert(valid_utf8(full));
                if 0 < end < n {
                    text::lemma_ascii_prefix_valid_utf8(full, end as int);
                }
                if end == n {
                    assert(full.subrange(0, end as int) =~= full);
                }
                assert(valid_utf8(full.subrange(0, end as int)));
            }
            let prefix_vec: Vec<u8> = vstd::slice::slice_to_vec(
                vstd::slice::slice_subrange(s, 0, end),
            );
            match text::string_from_utf8(prefix_vec) {
                Some(p) => {
                    prefix_string = p;
                },
                None => {
                    proof {
                        assert(false);
                    }
                    prefix_string = String::new();
                },
            }
        }
        let result = DecodedTags { tags, undecoded_prefix: prefix_string };
        proof {
            assert(result@.tags =~= final_tags);
            assert(result@ == spec_scan(full));
        }
        result
    }
}

/// The encoded tokens of the tags, each preceded by one space, except that
/// the first token gets a space only when `sep_first` asks for one.
pub open spec fn spec_join_tokens(tags: Seq<TagView>, sep_first: bool) -> Seq<u8>
    decreases tags.len(),
{
    if tags.len() == 0 {
        Seq::<u8>::empty()
    } else {
        (if sep_first {
            seq![0x20u8]
        } else {
            Seq::<u8>::empty()
        }) + spec_encode_tag(tags[0]) + spec_join_tokens(tags.drop_first(), true)
    }
}

/// The re-encoded text: the undecoded prefix verbatim, then the encoded
/// tokens separated by single spaces, with a space before the first token
/// only when the prefix is non-empty and does not already end in
/// whitespace.
pub open spec fn spec_reencode(d: DecodedTagsView) -> Seq<u8> {
    d.undecoded_prefix + spec_join_tokens(
        d.tags,
        d.undecoded_prefix.len() > 0 && !is_ws_byte(d.undecoded_prefix.last()),
    )
}

/// Joining one more tag appends its token after a separating space.
proof fn lemma_join_tokens_snoc(tags: Seq<TagView>, sep_first: bool, t: TagView)
    ensures
        spec_join_tokens(tags.push(t), sep_first) == spec_join_tokens(tags, sep_first) + (if (
        sep_first || tags.len() > 0) {
            seq![0x20u8]
        } else {
            Seq::<u8>::empty()
        }) + spec_encode_tag(t),
    decreases tags.len(),
{
    let sep = if sep_first {
        seq![0x20u8]
    } else {
        Seq::<u8>::empty()
    };
    if tags.len() == 0 {
        assert(tags.push(t).drop_first() =~= Seq::<TagView>::empty());
        assert(tags.push(t)[0] == t);
        assert(spec_join_tokens(Seq::<TagView>::empty(), true) == Seq::<u8>::empty());
        assert(spec_join_tokens(tags.push(t), sep_first) =~= spec_join_tokens(tags, sep_first)
            + sep + spec_encode_tag(t));
    } else {
        lemma_join_tokens_snoc(tags.drop_first(), true, t);
        assert(tags.push(t).drop_first() =~= tags.drop_first().push(t));
        assert(tags.push(t)[0] == tags[0]);
        assert(spec_join_tokens(tags.push(t), sep_first) =~= spec_join_tokens(tags, sep_first)
            + seq![0x20u8] + spec_encode_tag(t));
    }
}

/// The joined tokens are valid UTF-8 when every tag's fields are.
proof fn lemma_join_tokens_valid_utf8(tags: Seq<TagView>, sep_first: bool)
    requires
        forall|i: int|
            0 <= i < tags.len() ==> valid_utf8(#[trigger] tags[i].label) && valid_utf8(
                tags[i].facet,
            ) && (forall|j: int|
                0 <= j < tags[i].props.len() ==> valid_utf8(#[trigger] tags[i].props[j].name)
                    && valid_utf8(tags[i].props[j].value)),
    ensures
        valid_utf8(spec_join_tokens(tags, sep_first)),
    decreases tags.len(),
{
    if tags.len() == 0 {
        assert(valid_utf8(Seq::<u8>::empty()));
    } else {
        let sep = if sep_first {
            seq![0x20u8]
        } else {
            Seq::<u8>::empty()
        };
        assert(forall|i: int| 0 <= i < sep.len() ==> #[trigger] sep[i] < 0x80);
        text::lemma_ascii_bytes_valid_utf8(sep);
        codec::lemma_encode_tag_valid_utf8(tags[0]);
        assert forall|i: int| 0 <= i < tags.drop_first().len() implies valid_utf8(
            #[trigger] tags.drop_first()[i].label,
        ) && valid_utf8(tags.drop_first()[i].facet) && (forall|j: int|
            0 <= j < tags.drop_first()[i].props.len() ==> valid_utf8(
                #[trigger] tags.drop_first()[i].props[j].name,
            ) && valid_utf8(tags.drop_first()[i].props[j].value)) by {
            assert(tags.drop_first()[i] == tags[i + 1]);
        }
        lemma_join_tokens_valid_utf8(tags.drop_first(), true);
        vstd::utf8::valid_utf8_concat(sep, spec_encode_tag(tags[0]));
        vstd::utf8::valid_utf8_concat(
            sep + spec_encode_tag(tags[0]),
            spec_join_tokens(tags.drop_first(), true),
        );
    }
}

/// Append the re-encoded text of a decoded collection to a byte buffer.
fn reencode_push(out: &mut Vec<u8>, d: &DecodedTags)
    ensures
        final(out)@ == old(out)@ + spec_reencode(d@),
{
    let prefix_bytes: &[u8] = d.undecoded_prefix.as_str().as_bytes();
    let mut pv: Vec<u8> = vstd::slice::slice_to_vec(prefix_bytes);
    out.append(&mut pv);
    let pn = prefix_bytes.len();
    let ghost sep_first: bool = d@.undecoded_prefix.len() > 0 && !is_ws_byte(
        d@.undecoded_prefix.last(),
    );
    let mut sep: bool = if pn > 0 {
        !ws_at(prefix_bytes, pn - 1)
    } else {
        false
    };
    proof {
        assert(sep == sep_first);
        assert(d@.tags.subrange(0, 0) =~= Seq::<TagView>::empty());
        assert(out@ =~= old(out)@ + d@.undecoded_prefix + spec_join_tokens(
            d@.tags.subrange(0, 0),
            sep_first,
        ));
    }
    let n_tags = d.tags.len();
    let mut i: usize = 0;
    while i < n_tags
        invariant
            0 <= i <= n_tags,
            n_tags == d.tags@.len(),
            n_tags == d@.tags.len(),
            sep == (sep_first || i > 0),
            out@ == old(out)@ + d@.undecoded_prefix + spec_join_tokens(
                d@.tags.subrange(0, i as int),
                sep_first,
            ),
        decreases n_tags - i,
    {
        if sep {
            out.push(0x20);
        }
        codec::encode_tag_push(out, &d.tags[i]);
        proof {
            assert(d@.tags[i as int] == d.tags@[i as int]@);
            lemma_join_tokens_snoc(d@.tags.subrange(0, i as int), sep_first, d@.tags[i as int]);
            assert(d@.tags.subrange(0, i as int).push(d@.tags[i as int]) =~= d@.tags.subrange(
                0,
                i + 1 as int,
            ));
            assert(out@ =~= old(out)@ + d@.undecoded_prefix + spec_join_tokens(
                d@.tags.subrange(0, i + 1 as int),
                sep_first,
            ));
        }
        sep = true;
        i = i + 1;
    }
    proof {
        assert(d@.tags.subrange(0, n_tags as int) =~= d@.tags);
        assert(final(out)@ =~= old(out)@ + spec_reencode(d@));
    }
}

impl DecodedTags {
    /// Encode the contents into a separate buffer.
    ///
    /// Writes the undecoded prefix verbatim, then every encoded tag,
    /// inserting one separating space before each tag unless it is the
    /// very first thing written.
    pub fn encode_into(&self, write: &mut String)
        ensures
            str_bytes(final(write)@) == str_bytes(old(write)@) + spec_reencode(self@),
    {
        let mut out: Vec<u8> = Vec::new();
        reencode_push(&mut out, self);
        proof {
            assert(valid_utf8(self@.undecoded_prefix));
            assert forall|i: int| 0 <= i < self@.tags.len() implies valid_utf8(
                #[trigger] self@.tags[i].label,
            ) && valid_utf8(self@.tags[i].facet) && (forall|j: int|
                0 <= j < self@.tags[i].props.len() ==> valid_utf8(
                    #[trigger] self@.tags[i].props[j].name,
                ) && valid_utf8(self@.tags[i].props[j].value)) by {
                assert(self@.tags[i] == self.tags@[i]@);
                let tv = self.tags@[i]@;
                assert forall|j: int| 0 <= j < tv.props.len() implies valid_utf8(
                    #[trigger] tv.props[j].name,
                ) && valid_utf8(tv.props[j].value) by {
                    assert(tv.props[j] == self.tags@[i].props@[j]@);
                }
            }
            lemma_join_tokens_valid_utf8(
                self@.tags,
                self@.undecoded_prefix.len() > 0 && !is_ws_byte(self@.undecoded_prefix.last()),
            );
            vstd::utf8::valid_utf8_concat(
                self@.undecoded_prefix,
                spec_join_tokens(
                    self@.tags,
                    self@.undecoded_prefix.len() > 0 && !is_ws_byte(self@.undecoded_prefix.last()),
                ),
            );
            assert(out@ =~= spec_reencode(self@));
        }
        match text::string_from_utf8(out) {
            Some(x) => {
                write.append(x.as_str());
                proof {
                    text::lemma_encode_utf8_concat(old(write)@, x@);
                }
            },
            None => {
                proof {
                    assert(false);
                }
            },
        }
    }

    /// Re-encode the contents into a fresh string.
    pub fn reencode(self) -> (r: String)
        ensures
            str_bytes(r@) == spec_reencode(self@),
    {
        let mut reencoded = String::new();
        self.encode_into(&mut reencoded);
        proof {
            text::lemma_str_bytes_empty(Seq::<char>::empty());
            assert(str_bytes(reencoded@) =~= spec_reencode(self@));
        }
        reencoded
    }
}

/// Every tag that the raw scan records decodes from some token, so the
/// decoder's field facts hold of it and it is valid.
pub proof fn lemma_scan_raw_tags_valid(s: Seq<u8>)
    ensures
        forall|i: int|
            0 <= i < spec_scan_raw(s).0.len() ==> codec::spec_tag_decoded_fields(
                #[trigger] spec_scan_raw(s).0[i],
            ),
    decreases s.len(),
{
    lemma_trim_end(s);
    let r = trim_end_ws(s);
    if s.len() == 0 || r.len() == 0 {
    } else {
        lemma_last_ws_pos(r);
        let w = last_ws_pos(r);
        if -1 <= w < r.len() - 1 {
            let token = r.subrange(w + 1, r.len() as int);
            let rest = r.subrange(0, w + 1);
            match spec_decode_token(token) {
                Ok(tag) => {
                    codec::lemma_decode_token_ok_fields(token);
                    lemma_scan_raw_tags_valid(rest);
                    let tags = spec_scan_raw(rest).0;
                    assert forall|i: int|
                        0 <= i < spec_scan_raw(s).0.len() implies codec::spec_tag_decoded_fields(
                        #[trigger] spec_scan_raw(s).0[i],
                    ) by {
                        if i < tags.len() {
                            assert(spec_scan_raw(s).0[i] == tags[i]);
                        } else {
                            assert(spec_scan_raw(s).0[i] == tag);
                        }
                    }
                },
                Err(_) => {},
            }
        }
    }
}

/// The shape of a raw scan result: when nothing was decoded the input is
/// returned whole; when something was decoded the leftover is empty or
/// ends in the separating whitespace; and the leftover is always a fixed
/// point of scanning.
pub proof fn lemma_scan_raw_shape(s: Seq<u8>)
    ensures
        spec_scan_raw(s).0.len() == 0 ==> spec_scan_raw(s).1 == s,
        spec_scan_raw(s).0.len() > 0 ==> (spec_scan_raw(s).1.len() == 0 || is_ws_byte(
            spec_scan_raw(s).1.last(),
        )),
        spec_scan_raw(spec_scan_raw(s).1) == (Seq::<TagView>::empty(), spec_scan_raw(s).1),
    decreases s.len(),
{
    lemma_trim_end(s);
    let r = trim_end_ws(s);
    if s.len() == 0 || r.len() == 0 {
    } else {
        lemma_last_ws_pos(r);
        let w = last_ws_pos(r);
        if -1 <= w < r.len() - 1 {
            let token = r.subrange(w + 1, r.len() as int);
            let rest = r.subrange(0, w + 1);
            match spec_decode_token(token) {
                Ok(_) => {
                    lemma_scan_raw_shape(rest);
                    if spec_scan_raw(rest).0.len() == 0 {
                        assert(spec_scan_raw(s).1 == rest);
                        if w >= 0 {
                            assert(rest.last() == r[w]);
                        }
                    }
                },
                Err(_) => {},
            }
        }
    }
}

/// Scanning a text that ends in a run of freshly encoded, space-separated
/// tokens after a stable prefix peels exactly those tokens; a trailing
/// separator space changes nothing.
#[verifier::rlimit(100)]
#[verifier::spinoff_prover]
proof fn lemma_scan_peel(prefix: Seq<u8>, tags: Seq<TagView>, k: int)
    requires
        1 <= k <= tags.len(),
        prefix.len() == 0 || is_ws_byte(prefix.last()),
        spec_scan_raw(prefix) == (Seq::<TagView>::empty(), prefix),
        forall|i: int|
            0 <= i < tags.len() ==> spec_decode_token(spec_encode_tag(#[trigger] tags[i])) == Ok::<
                TagView,
                crate::codec::DecodeError,
            >(tags[i]),
        forall|i: int| 0 <= i < tags.len() ==> spec_tag_valid(#[trigger] tags[i]),
    ensures
        spec_scan_raw(prefix + spec_join_tokens(tags.subrange(0, k), false)) == (
            tags.subrange(0, k),
            prefix,
        ),
        spec_scan_raw(prefix + spec_join_tokens(tags.subrange(0, k), false) + seq![0x20u8]) == (
            tags.subrange(0, k),
            prefix,
        ),
    decreases k,
{
    codec::lemma_encode_tag_nonempty(tags[k - 1]);
    codec::lemma_encode_tag_no_ws(tags[k - 1]);
    let tok = spec_encode_tag(tags[k - 1]);
    let before = prefix + spec_join_tokens(tags.subrange(0, k - 1), false);
    let cur = prefix + spec_join_tokens(tags.subrange(0, k), false);
    if k == 1 {
        assert(spec_join_tokens(tags.subrange(0, 1), false) == tok) by {
            assert(tags.subrange(0, 1)[0] == tags[0]);
            assert(tags.subrange(0, 1).drop_first() =~= Seq::<TagView>::empty());
            assert(spec_join_tokens(Seq::<TagView>::empty(), true) == Seq::<u8>::empty());
            assert(Seq::<u8>::empty() + tok + Seq::<u8>::empty() =~= tok);
        }
        assert(cur =~= prefix + tok);
    } else {
        lemma_scan_peel(prefix, tags, k - 1);
        lemma_join_tokens_snoc(tags.subrange(0, k - 1), false, tags[k - 1]);
        assert(tags.subrange(0, k - 1).push(tags[k - 1]) =~= tags.subrange(0, k));
        assert(cur =~= before + seq![0x20u8] + tok);
    }
    let base = if k == 1 {
        prefix
    } else {
        before + seq![0x20u8]
    };
    // In both cases the text is `base + tok`, where `base` is empty or ends
    // in whitespace, and scanning `base` yields the earlier tags.
    assert(cur =~= base + tok);
    assert(base.len() == 0 || is_ws_byte(base.last())) by {
        if k > 1 {
            assert((before + seq![0x20u8]).last() == 0x20);
        }
    }
    assert(tok.len() > 0);
    assert(forall|i: int| 0 <= i < tok.len() ==> !is_ws_byte(#[trigger] tok[i]));
    // Trimming changes nothing: the text ends in a token byte.
    assert(cur.last() == tok[tok.len() - 1]);
    assert(!is_ws_byte(cur.last()));
    assert(trim_end_ws(cur) == cur);
    // The last whitespace is the byte just before the token, if any.
    assert forall|j: int| base.len() <= j < cur.len() implies !is_ws_byte(#[trigger] cur[j]) by {
        assert(cur[j] == tok[j - base.len()]);
    }
    if base.len() > 0 {
        assert(cur[base.len() - 1] == base[base.len() - 1]);
    }
    lemma_last_ws_pos_is(cur, base.len() as int);
    assert(last_ws_pos(cur) == base.len() - 1);
    assert(cur.subrange(base.len() as int, cur.len() as int) =~= tok);
    assert(cur.subrange(0, base.len() as int) =~= base);
    // The token decodes to the tag it encodes.
    assert(spec_decode_token(tok) == Ok::<TagView, crate::codec::DecodeError>(tags[k - 1]));
    // Scanning the base yields the earlier tags and the prefix.
    if k == 1 {
        assert(spec_scan_raw(base) == (Seq::<TagView>::empty(), prefix));
        assert(tags.subrange(0, 0) =~= Seq::<TagView>::empty());
        assert(spec_scan_raw(base).0.push(tags[0]) =~= tags.subrange(0, 1));
    } else {
        assert(spec_scan_raw(base) == (tags.subrange(0, k - 1), prefix));
        assert(tags.subrange(0, k - 1).push(tags[k - 1]) =~= tags.subrange(0, k));
    }
    assert(spec_scan_raw(cur) == (tags.subrange(0, k), prefix));
    // With one trailing separator space the trim removes it first and the
    // rest of the computation is identical.
    let curs = cur + seq![0x20u8];
    assert forall|j: int| cur.len() <= j < curs.len() implies is_ws_byte(#[trigger] curs[j]) by {
        assert(curs[j] == 0x20);
    }
    assert(curs[cur.len() - 1] == cur.last());
    lemma_trim_end_is(curs, cur.len() as int);
    assert(trim_end_ws(curs) == curs.subrange(0, cur.len() as int));
    assert(curs.subrange(0, cur.len() as int) =~= cur);
    assert(spec_scan_raw(curs) == (tags.subrange(0, k), prefix));
}

/// Idempotent re-scan: scanning a text, re-encoding the result, and
/// scanning the re-encoded text yields the same decoded collection — the
/// same tags, and the same undecoded prefix.
///
/// The inputs left out by the premise: a text whose scan decodes a facet
/// that itself reads as a scheme-like prefix (a letter run up to a `:`,
/// written percent-encoded in the original text), since such a facet
/// re-encodes to a token that the decoder rejects as scheme-like.
pub proof fn lemma_rescan_idempotent(s: Seq<u8>)
    requires
        forall|i: int|
            0 <= i < spec_scan(s).tags.len() ==> !crate::codec::spec_has_scheme_prefix(
                #[trigger] spec_scan(s).tags[i].facet,
            ),
    ensures
        spec_scan(spec_reencode(spec_scan(s))) == spec_scan(s),
{
    let raw = spec_scan_raw(s);
    let d = spec_scan(s);
    lemma_scan_raw_shape(s);
    lemma_scan_raw_tags_valid(s);
    assert forall|i: int| 0 <= i < d.tags.len() implies spec_decode_token(
        spec_encode_tag(#[trigger] d.tags[i]),
    ) == Ok::<TagView, crate::codec::DecodeError>(d.tags[i]) by {
        assert(d.tags[i] == raw.0[i]);
        assert(codec::spec_tag_decoded_fields(d.tags[i]));
        assert(!crate::codec::spec_has_scheme_prefix(d.tags[i].facet));
        codec::lemma_decode_encode_roundtrip(d.tags[i]);
    }
    assert forall|i: int| 0 <= i < d.tags.len() implies spec_tag_valid(#[trigger] d.tags[i]) by {
        assert(d.tags[i] == raw.0[i]);
        assert(codec::spec_tag_decoded_fields(d.tags[i]));
    }
    let p = d.undecoded_prefix;
    if all_ws(raw.1) {
        assert(p =~= Seq::<u8>::empty());
        assert(spec_scan_raw(p) == (Seq::<TagView>::empty(), p));
    } else {
        assert(p == raw.1);
        assert(spec_scan_raw(p) == (Seq::<TagView>::empty(), p));
    }
    let n = d.tags.len() as int;
    if n == 0 {
        assert(spec_join_tokens(d.tags, p.len() > 0 && !is_ws_byte(p.last()))
            == Seq::<u8>::empty());
        assert(spec_reencode(d) =~= p);
        assert(spec_scan_raw(spec_reencode(d)) == (Seq::<TagView>::empty(), p));
        assert(d.tags =~= Seq::<TagView>::empty());
        if all_ws(p) {
            assert(p =~= Seq::<u8>::empty());
        }
        assert(spec_scan(spec_reencode(d)) == d);
    } else {
        assert(raw.1.len() == 0 || is_ws_byte(raw.1.last()));
        assert(p.len() == 0 || is_ws_byte(p.last()));
        assert(spec_reencode(d) == p + spec_join_tokens(d.tags, false));
        lemma_scan_peel(p, d.tags, n);
        assert(d.tags.subrange(0, n) =~= d.tags);
        assert(spec_scan_raw(spec_reencode(d)) == (d.tags, p));
        if all_ws(p) {
            assert(p =~= Seq::<u8>::empty());
        }
        assert(spec_scan(spec_reencode(d)) == d);
    }
}

} // verus!
