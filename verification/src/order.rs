//! Canonical ordering and deduplication of a tag collection.
//!
//! Tags without a date-like facet sort first (those without a facet before
//! those with one, then by facet, with labelled tags before unlabelled ones
//! and by label); date-bearing tags follow, newest suffix first.

use vstd::prelude::*;

use crate::facet::spec_has_date_like_suffix;
use crate::tag::TagView;

verus! {

/// Three-way lexicographic comparison of byte sequences: `-1`, `0` or `1`.
pub open spec fn bytes_cmp(a: Seq<u8>, b: Seq<u8>) -> int
    decreases a.len(),
{
    if a.len() == 0 && b.len() == 0 {
        0
    } else if a.len() == 0 {
        -1
    } else if b.len() == 0 {
        1
    } else if a[0] < b[0] {
        -1
    } else if a[0] > b[0] {
        1
    } else {
        bytes_cmp(a.drop_first(), b.drop_first())
    }
}

/// The comparison is a value in `{-1, 0, 1}`, and `0` exactly on equal
/// sequences.
pub proof fn lemma_bytes_cmp_eq(a: Seq<u8>, b: Seq<u8>)
    ensures
        -1 <= bytes_cmp(a, b) <= 1,
        (bytes_cmp(a, b) == 0) <==> (a == b),
    decreases a.len(),
{
    if a.len() > 0 && b.len() > 0 && a[0] == b[0] {
        lemma_bytes_cmp_eq(a.drop_first(), b.drop_first());
        if bytes_cmp(a, b) == 0 {
            assert(a.drop_first() == b.drop_first());
            assert(a.len() == b.len());
            assert forall|i: int| 0 <= i < a.len() implies a[i] == b[i] by {
                if i > 0 {
                    assert(a.drop_first()[i - 1] == a[i]);
                    assert(b.drop_first()[i - 1] == b[i]);
                }
            }
            assert(a =~= b);
        }
        if a == b {
            assert(a.drop_first() =~= b.drop_first());
        }
    } else {
        if a.len() == 0 && b.len() == 0 {
            assert(a =~= b);
        }
        if a == b {
            assert(a.len() == b.len());
        }
    }
}

/// Swapping the arguments negates the comparison.
pub proof fn lemma_bytes_cmp_antisym(a: Seq<u8>, b: Seq<u8>)
    ensures
        bytes_cmp(a, b) == -bytes_cmp(b, a),
    decreases a.len(),
{
    if a.len() > 0 && b.len() > 0 && a[0] == b[0] {
        lemma_bytes_cmp_antisym(a.drop_first(), b.drop_first());
    }
}

/// The comparison is transitive.
pub proof fn lemma_bytes_cmp_trans(a: Seq<u8>, b: Seq<u8>, c: Seq<u8>)
    requires
        bytes_cmp(a, b) <= 0,
        bytes_cmp(b, c) <= 0,
    ensures
        bytes_cmp(a, c) <= 0,
    decreases a.len(),
{
    if a.len() == 0 {
    } else {
        assert(b.len() > 0);
        assert(c.len() > 0);
        if a[0] == b[0] && b[0] == c[0] {
            lemma_bytes_cmp_trans(a.drop_first(), b.drop_first(), c.drop_first());
        }
    }
}

/// The last 9 bytes of a facet: its date-like suffix.
pub open spec fn suffix9(f: Seq<u8>) -> Seq<u8> {
    f.subrange(f.len() - 9, f.len() as int)
}

/// The canonical three-way comparison of two tags, as a sequence of
/// tie-breaks: tags without a date-like facet before tags with one; among
/// date-bearing tags, newer suffix digits first; then tags without a facet
/// before tags with one, by facet; then labelled tags before unlabelled
/// ones, by label.  Properties never take part in the comparison.
pub open spec fn spec_cmp_tags(a: TagView, b: TagView) -> int {
    let da = spec_has_date_like_suffix(a.facet);
    let db = spec_has_date_like_suffix(b.facet);
    if db && !da {
        -1
    } else if da && !db {
        1
    } else if da && db && bytes_cmp(suffix9(b.facet), suffix9(a.facet)) != 0 {
        bytes_cmp(suffix9(b.facet), suffix9(a.facet))
    } else {
        let fa = a.facet.len() > 0;
        let fb = b.facet.len() > 0;
        if fb && !fa {
            -1
        } else if fa && !fb {
            1
        } else if fa && fb && bytes_cmp(a.facet, b.facet) != 0 {
            bytes_cmp(a.facet, b.facet)
        } else {
            let la = a.label.len() > 0;
            let lb = b.label.len() > 0;
            if lb && !la {
                1
            } else if la && !lb {
                -1
            } else if la && lb {
                bytes_cmp(a.label, b.label)
            } else {
                0
            }
        }
    }
}

/// The tag comparison is a value in `{-1, 0, 1}` and swapping its
/// arguments negates it.
pub proof fn lemma_cmp_tags_antisym(a: TagView, b: TagView)
    ensures
        -1 <= spec_cmp_tags(a, b) <= 1,
        spec_cmp_tags(a, b) == -spec_cmp_tags(b, a),
{
    lemma_bytes_cmp_eq(suffix9(a.facet), suffix9(b.facet));
    lemma_bytes_cmp_eq(suffix9(b.facet), suffix9(a.facet));
    lemma_bytes_cmp_antisym(suffix9(b.facet), suffix9(a.facet));
    lemma_bytes_cmp_eq(a.facet, b.facet);
    lemma_bytes_cmp_antisym(a.facet, b.facet);
    lemma_bytes_cmp_eq(a.label, b.label);
    lemma_bytes_cmp_antisym(a.label, b.label);
}

/// The tag comparison is transitive.
pub proof fn lemma_cmp_tags_trans(a: TagView, b: TagView, c: TagView)
    requires
        spec_cmp_tags(a, b) <= 0,
        spec_cmp_tags(b, c) <= 0,
    ensures
        spec_cmp_tags(a, c) <= 0,
{
    lemma_bytes_cmp_eq(suffix9(a.facet), suffix9(b.facet));
    lemma_bytes_cmp_eq(suffix9(b.facet), suffix9(c.facet));
    lemma_bytes_cmp_eq(suffix9(a.facet), suffix9(c.facet));
    lemma_bytes_cmp_eq(suffix9(b.facet), suffix9(a.facet));
    lemma_bytes_cmp_eq(suffix9(c.facet), suffix9(b.facet));
    lemma_bytes_cmp_eq(suffix9(c.facet), suffix9(a.facet));
    lemma_bytes_cmp_antisym(suffix9(b.facet), suffix9(a.facet));
    lemma_bytes_cmp_antisym(suffix9(c.facet), suffix9(b.facet));
    lemma_bytes_cmp_antisym(suffix9(c.facet), suffix9(a.facet));
    if bytes_cmp(suffix9(c.facet), suffix9(b.facet)) <= 0 && bytes_cmp(
        suffix9(b.facet),
        suffix9(a.facet),
    ) <= 0 {
        lemma_bytes_cmp_trans(suffix9(c.facet), suffix9(b.facet), suffix9(a.facet));
    }
    lemma_bytes_cmp_eq(a.facet, b.facet);
    lemma_bytes_cmp_eq(b.facet, c.facet);
    lemma_bytes_cmp_eq(a.facet, c.facet);
    lemma_bytes_cmp_antisym(a.facet, b.facet);
    lemma_bytes_cmp_antisym(b.facet, c.facet);
    lemma_bytes_cmp_antisym(a.facet, c.facet);
    if bytes_cmp(a.facet, b.facet) <= 0 && bytes_cmp(b.facet, c.facet) <= 0 {
        lemma_bytes_cmp_trans(a.facet, b.facet, c.facet);
    }
    lemma_bytes_cmp_eq(a.label, b.label);
    lemma_bytes_cmp_eq(b.label, c.label);
    lemma_bytes_cmp_eq(a.label, c.label);
    lemma_bytes_cmp_antisym(a.label, b.label);
    lemma_bytes_cmp_antisym(b.label, c.label);
    lemma_bytes_cmp_antisym(a.label, c.label);
    if bytes_cmp(a.label, b.label) <= 0 && bytes_cmp(b.label, c.label) <= 0 {
        lemma_bytes_cmp_trans(a.label, b.label, c.label);
    }
}

/// A sequence of tags in canonical order.
pub open spec fn spec_sorted(s: Seq<TagView>) -> bool {
    forall|i: int, j: int| 0 <= i < j < s.len() ==> spec_cmp_tags(#[trigger] s[i], #[trigger] s[j]) <= 0
}

/// Insert a tag into a sorted sequence, after every tag that compares less
/// than or equal to it: a stable insertion.
pub open spec fn spec_insert_tag(s: Seq<TagView>, t: TagView) -> Seq<TagView>
    decreases s.len(),
{
    if s.len() == 0 {
        seq![t]
    } else if spec_cmp_tags(s.last(), t) <= 0 {
        s.push(t)
    } else {
        spec_insert_tag(s.drop_last(), t).push(s.last())
    }
}

/// Stable insertion sort over the canonical tag order.
pub open spec fn spec_sort_tags(s: Seq<TagView>) -> Seq<TagView>
    decreases s.len(),
{
    if s.len() == 0 {
        Seq::<TagView>::empty()
    } else {
        spec_insert_tag(spec_sort_tags(s.drop_last()), s.last())
    }
}

/// Insertion preserves sortedness, grows the length by one, and adds no
/// element but the inserted one.
pub proof fn lemma_insert_tag_props(s: Seq<TagView>, t: TagView)
    requires
        spec_sorted(s),
    ensures
        spec_insert_tag(s, t).len() == s.len() + 1,
        spec_sorted(spec_insert_tag(s, t)),
        forall|k: int|
            0 <= k < spec_insert_tag(s, t).len() ==> (#[trigger] spec_insert_tag(s, t)[k] == t
                || s.contains(spec_insert_tag(s, t)[k])),
    decreases s.len(),
{
    let r = spec_insert_tag(s, t);
    if s.len() == 0 {
        assert(r =~= seq![t]);
    } else if spec_cmp_tags(s.last(), t) <= 0 {
        assert(r == s.push(t));
        assert forall|i: int, j: int| 0 <= i < j < r.len() implies spec_cmp_tags(
            #[trigger] r[i],
            #[trigger] r[j],
        ) <= 0 by {
            if j == r.len() - 1 {
                assert(r[j] == t);
                if i == s.len() - 1 {
                    assert(r[i] == s.last());
                } else {
                    assert(r[i] == s[i]);
                    assert(spec_cmp_tags(s[i], s[s.len() - 1]) <= 0);
                    lemma_cmp_tags_trans(s[i], s.last(), t);
                }
            } else {
                assert(r[i] == s[i] && r[j] == s[j]);
            }
        }
        assert forall|k: int| 0 <= k < r.len() implies (#[trigger] r[k] == t || s.contains(
            r[k],
        )) by {
            if k < s.len() {
                assert(r[k] == s[k]);
            }
        }
    } else {
        assert(spec_sorted(s.drop_last())) by {
            assert(forall|i: int, j: int|
                0 <= i < j < s.drop_last().len() ==> #[trigger] s.drop_last()[i] == s[i]
                    && #[trigger] s.drop_last()[j] == s[j]);
        }
        lemma_insert_tag_props(s.drop_last(), t);
        let inner = spec_insert_tag(s.drop_last(), t);
        assert(r == inner.push(s.last()));
        lemma_cmp_tags_antisym(s.last(), t);
        assert(spec_cmp_tags(t, s.last()) <= 0);
        assert forall|k: int| 0 <= k < inner.len() implies spec_cmp_tags(
            #[trigger] inner[k],
            s.last(),
        ) <= 0 by {
            if inner[k] == t {
            } else {
                assert(s.drop_last().contains(inner[k]));
                let j = choose|j: int|
                    0 <= j < s.drop_last().len() && s.drop_last()[j] == inner[k];
                assert(s[j] == inner[k]);
                assert(spec_cmp_tags(s[j], s.last()) <= 0);
            }
        }
        assert forall|i: int, j: int| 0 <= i < j < r.len() implies spec_cmp_tags(
            #[trigger] r[i],
            #[trigger] r[j],
        ) <= 0 by {
            if j == r.len() - 1 {
                assert(r[j] == s.last());
                assert(r[i] == inner[i]);
            } else {
                assert(r[i] == inner[i] && r[j] == inner[j]);
            }
        }
        assert forall|k: int| 0 <= k < r.len() implies (#[trigger] r[k] == t || s.contains(
            r[k],
        )) by {
            if k == r.len() - 1 {
                assert(r[k] == s.last());
                assert(s.contains(s.last()));
            } else {
                assert(r[k] == inner[k]);
                if inner[k] != t {
                    assert(s.drop_last().contains(inner[k]));
                    let j = choose|j: int|
                        0 <= j < s.drop_last().len() && s.drop_last()[j] == inner[k];
                    assert(s[j] == inner[k]);
                }
            }
        }
    }
}

/// The sort of any tag sequence is sorted.
pub proof fn lemma_sort_tags_sorted(s: Seq<TagView>)
    ensures
        spec_sort_tags(s).len() == s.len(),
        spec_sorted(spec_sort_tags(s)),
    decreases s.len(),
{
    if s.len() > 0 {
        lemma_sort_tags_sorted(s.drop_last());
        lemma_insert_tag_props(spec_sort_tags(s.drop_last()), s.last());
    }
}

/// Sorting an already sorted sequence changes nothing.
pub proof fn lemma_sort_tags_of_sorted(s: Seq<TagView>)
    requires
        spec_sorted(s),
    ensures
        spec_sort_tags(s) == s,
    decreases s.len(),
{
    if s.len() > 0 {
        assert(spec_sorted(s.drop_last())) by {
            assert(forall|i: int, j: int|
                0 <= i < j < s.drop_last().len() ==> #[trigger] s.drop_last()[i] == s[i]
                    && #[trigger] s.drop_last()[j] == s[j]);
        }
        lemma_sort_tags_of_sorted(s.drop_last());
        if s.len() == 1 {
            assert(spec_insert_tag(s.drop_last(), s.last()) =~= seq![s.last()]);
            assert(spec_sort_tags(s) =~= s);
        } else {
            assert(spec_cmp_tags(s.drop_last().last(), s.last()) <= 0) by {
                assert(s.drop_last().last() == s[s.len() - 2]);
            }
            assert(spec_insert_tag(s.drop_last(), s.last()) == s.drop_last().push(s.last()));
            assert(s.drop_last().push(s.last()) =~= s);
        }
    }
}

/// The class of tags comparing equal to `t` under the canonical order:
/// same date status, suffix, facet and label, regardless of properties.
pub open spec fn cmp_eq_to(t: TagView) -> spec_fn(TagView) -> bool {
    |x: TagView| spec_cmp_tags(x, t) == 0
}

/// Two tags comparing equal to the same tag compare equal to each other.
proof fn lemma_cmp_eq_class(a: TagView, b: TagView, t: TagView)
    requires
        spec_cmp_tags(a, t) == 0,
        spec_cmp_tags(b, t) == 0,
    ensures
        spec_cmp_tags(a, b) == 0,
{
    lemma_cmp_tags_antisym(a, t);
    lemma_cmp_tags_antisym(b, t);
    lemma_cmp_tags_antisym(a, b);
    lemma_cmp_tags_trans(a, t, b);
    lemma_cmp_tags_trans(b, t, a);
}

/// Stable insertion appends the new tag to its comparator class and leaves
/// every class otherwise unchanged.
proof fn lemma_insert_tag_filter(s: Seq<TagView>, x: TagView, t: TagView)
    ensures
        spec_insert_tag(s, x).filter(cmp_eq_to(t)) == (if spec_cmp_tags(x, t) == 0 {
            s.filter(cmp_eq_to(t)).push(x)
        } else {
            s.filter(cmp_eq_to(t))
        }),
    decreases s.len(),
{
    reveal(Seq::filter);
    let pred = cmp_eq_to(t);
    let r = spec_insert_tag(s, x);
    if s.len() == 0 {
        assert(r == seq![x]);
        assert(seq![x].drop_last() =~= Seq::<TagView>::empty());
        assert(seq![x].last() == x);
        assert(Seq::<TagView>::empty().filter(pred) == Seq::<TagView>::empty());
        assert(s.filter(pred) == Seq::<TagView>::empty());
    } else if spec_cmp_tags(s.last(), t) <= 0 && spec_cmp_tags(s.last(), x) <= 0 {
        assert(r == s.push(x));
        assert(s.push(x).drop_last() =~= s);
        assert(s.push(x).last() == x);
    } else if spec_cmp_tags(s.last(), x) <= 0 {
        assert(r == s.push(x));
        assert(s.push(x).drop_last() =~= s);
        assert(s.push(x).last() == x);
    } else {
        lemma_insert_tag_filter(s.drop_last(), x, t);
        let inner = spec_insert_tag(s.drop_last(), x);
        assert(r == inner.push(s.last()));
        assert(r.drop_last() =~= inner);
        assert(r.last() == s.last());
        assert(r.len() > 0);
        assert(r.filter(pred) == (if pred(r.last()) {
            r.drop_last().filter(pred).push(r.last())
        } else {
            r.drop_last().filter(pred)
        }));
        assert(r.drop_last().filter(pred) == inner.filter(pred));
        assert(s.filter(pred) == (if pred(s.last()) {
            s.drop_last().filter(pred).push(s.last())
        } else {
            s.drop_last().filter(pred)
        }));
        if pred(x) && pred(s.last()) {
            lemma_cmp_eq_class(s.last(), x, t);
            assert(spec_cmp_tags(s.last(), x) == 0);
            assert(false);
        }
    }
}

/// The sort is stable: for every tag, the subsequence of tags comparing
/// equal to it is unchanged by sorting, so tags with the same facet and
/// label (possibly different properties) keep their original relative
/// order.
pub proof fn lemma_sort_tags_stable(s: Seq<TagView>, t: TagView)
    ensures
        spec_sort_tags(s).filter(cmp_eq_to(t)) == s.filter(cmp_eq_to(t)),
    decreases s.len(),
{
    reveal(Seq::filter);
    let pred = cmp_eq_to(t);
    if s.len() == 0 {
        assert(spec_sort_tags(s) == Seq::<TagView>::empty());
    } else {
        lemma_sort_tags_stable(s.drop_last(), t);
        lemma_insert_tag_filter(spec_sort_tags(s.drop_last()), s.last(), t);
        assert(spec_sort_tags(s) == spec_insert_tag(spec_sort_tags(s.drop_last()), s.last()));
        assert(pred(s.last()) == (spec_cmp_tags(s.last(), t) == 0));
        assert(s.len() > 0);
        assert(s.filter(pred) == (if pred(s.last()) {
            s.drop_last().filter(pred).push(s.last())
        } else {
            s.drop_last().filter(pred)
        }));
    }
}

/// Drop every tag that already occurred earlier in the sequence, keeping
/// first occurrences in order.
pub open spec fn spec_dedup_tags(s: Seq<TagView>) -> Seq<TagView>
    decreases s.len(),
{
    if s.len() == 0 {
        Seq::<TagView>::empty()
    } else {
        let rest = spec_dedup_tags(s.drop_last());
        if s.drop_last().contains(s.last()) {
            rest
        } else {
            rest.push(s.last())
        }
    }
}

/// Deduplication keeps exactly the values of the original sequence.
pub proof fn lemma_dedup_tags_contains(s: Seq<TagView>)
    ensures
        forall|x: TagView| spec_dedup_tags(s).contains(x) <==> s.contains(x),
    decreases s.len(),
{
    if s.len() > 0 {
        lemma_dedup_tags_contains(s.drop_last());
        let rest = spec_dedup_tags(s.drop_last());
        let r = spec_dedup_tags(s);
        assert forall|x: TagView| r.contains(x) implies s.contains(x) by {
            if rest.contains(x) {
                assert(s.drop_last().contains(x));
                let j = choose|j: int| 0 <= j < s.drop_last().len() && s.drop_last()[j] == x;
                assert(s[j] == x);
            } else {
                assert(x == s.last());
                assert(s[s.len() - 1] == x);
            }
        }
        assert forall|x: TagView| s.contains(x) implies r.contains(x) by {
            let j = choose|j: int| 0 <= j < s.len() && s[j] == x;
            if j < s.len() - 1 {
                assert(s.drop_last()[j] == x);
                assert(s.drop_last().contains(x));
                assert(rest.contains(x));
                if !s.drop_last().contains(s.last()) {
                    let k = choose|k: int| 0 <= k < rest.len() && rest[k] == x;
                    assert(r[k] == x);
                }
            } else {
                assert(x == s.last());
                if s.drop_last().contains(s.last()) {
                    assert(rest.contains(x));
                } else {
                    assert(r.last() == x);
                }
            }
        }
    }
}

/// Deduplication of a sorted sequence is sorted and free of repeats.
pub proof fn lemma_dedup_tags_sorted(s: Seq<TagView>)
    requires
        spec_sorted(s),
    ensures
        spec_sorted(spec_dedup_tags(s)),
        forall|i: int, j: int|
            0 <= i < j < spec_dedup_tags(s).len() ==> #[trigger] spec_dedup_tags(s)[i]
                != #[trigger] spec_dedup_tags(s)[j],
    decreases s.len(),
{
    if s.len() > 0 {
        assert(spec_sorted(s.drop_last())) by {
            assert(forall|i: int, j: int|
                0 <= i < j < s.drop_last().len() ==> #[trigger] s.drop_last()[i] == s[i]
                    && #[trigger] s.drop_last()[j] == s[j]);
        }
        lemma_dedup_tags_sorted(s.drop_last());
        lemma_dedup_tags_contains(s.drop_last());
        let rest = spec_dedup_tags(s.drop_last());
        let r = spec_dedup_tags(s);
        if s.drop_last().contains(s.last()) {
        } else {
            assert(r == rest.push(s.last()));
            assert forall|k: int| 0 <= k < rest.len() implies spec_cmp_tags(
                #[trigger] rest[k],
                s.last(),
            ) <= 0 by {
                assert(rest.contains(rest[k]));
                assert(s.drop_last().contains(rest[k]));
                let j = choose|j: int| 0 <= j < s.drop_last().len() && s.drop_last()[j] == rest[k];
                assert(s[j] == rest[k]);
                assert(spec_cmp_tags(s[j], s[s.len() - 1]) <= 0);
            }
            assert forall|i: int, j: int| 0 <= i < j < r.len() implies spec_cmp_tags(
                #[trigger] r[i],
                #[trigger] r[j],
            ) <= 0 by {
                if j == r.len() - 1 {
                    assert(r[i] == rest[i] && r[j] == s.last());
                } else {
                    assert(r[i] == rest[i] && r[j] == rest[j]);
                }
            }
            assert forall|i: int, j: int| 0 <= i < j < r.len() implies #[trigger] r[i]
                != #[trigger] r[j] by {
                if j == r.len() - 1 {
                    assert(r[j] == s.last());
                    assert(r[i] == rest[i]);
                    assert(rest.contains(rest[i]));
                    assert(s.drop_last().contains(rest[i]));
                    assert(!s.drop_last().contains(s.last()));
                } else {
                    assert(r[i] == rest[i] && r[j] == rest[j]);
                }
            }
        }
    }
}

/// Deduplicating a sequence without repeats changes nothing.
pub proof fn lemma_dedup_tags_of_distinct(s: Seq<TagView>)
    requires
        forall|i: int, j: int| 0 <= i < j < s.len() ==> #[trigger] s[i] != #[trigger] s[j],
    ensures
        spec_dedup_tags(s) == s,
    decreases s.len(),
{
    if s.len() > 0 {
        assert forall|i: int, j: int| 0 <= i < j < s.drop_last().len() implies #[trigger] s.drop_last()[i]
            != #[trigger] s.drop_last()[j] by {
            assert(s.drop_last()[i] == s[i] && s.drop_last()[j] == s[j]);
        }
        lemma_dedup_tags_of_distinct(s.drop_last());
        if s.drop_last().contains(s.last()) {
            let j = choose|j: int| 0 <= j < s.drop_last().len() && s.drop_last()[j] == s.last();
            assert(s[j] == s[s.len() - 1]);
            assert(false);
        }
        assert(spec_dedup_tags(s) == s.drop_last().push(s.last()));
        assert(s.drop_last().push(s.last()) =~= s);
    }
}

/// The stable insertion point characterized by its position: everything
/// from `j` on compares greater than the new tag, and the element before
/// `j` (if any) does not.
proof fn lemma_insert_tag_at(s: Seq<TagView>, t: TagView, j: int)
    requires
        0 <= j <= s.len(),
        forall|k: int| j <= k < s.len() ==> spec_cmp_tags(#[trigger] s[k], t) > 0,
        j > 0 ==> spec_cmp_tags(s[j - 1], t) <= 0,
    ensures
        spec_insert_tag(s, t) == s.subrange(0, j) + seq![t] + s.subrange(j, s.len() as int),
    decreases s.len(),
{
    if s.len() == 0 {
        assert(spec_insert_tag(s, t) =~= s.subrange(0, j) + seq![t] + s.subrange(
            j,
            s.len() as int,
        ));
    } else if spec_cmp_tags(s.last(), t) <= 0 {
        assert(j == s.len());
        assert(s.subrange(0, j) =~= s);
        assert(s.subrange(j, s.len() as int) =~= Seq::<TagView>::empty());
        assert(s.push(t) =~= s + seq![t] + Seq::<TagView>::empty());
    } else {
        assert(j < s.len());
        assert forall|k: int| j <= k < s.drop_last().len() implies spec_cmp_tags(
            #[trigger] s.drop_last()[k],
            t,
        ) > 0 by {
            assert(s.drop_last()[k] == s[k]);
        }
        if j > 0 {
            assert(s.drop_last()[j - 1] == s[j - 1]);
        }
        lemma_insert_tag_at(s.drop_last(), t, j);
        assert(s.drop_last().subrange(0, j) =~= s.subrange(0, j));
        assert(spec_insert_tag(s, t) == spec_insert_tag(s.drop_last(), t).push(s.last()));
        assert((s.subrange(0, j) + seq![t] + s.drop_last().subrange(
            j,
            s.drop_last().len() as int,
        )).push(s.last()) =~= s.subrange(0, j) + seq![t] + s.subrange(j, s.len() as int));
    }
}

/// The views of a tag vector, in order.
pub open spec fn tag_views(s: Seq<crate::tag::Tag>) -> Seq<TagView> {
    Seq::new(s.len(), |i: int| s[i]@)
}

/// Compare two byte slices lexicographically.
fn cmp_bytes(a: &[u8], b: &[u8]) -> (r: i8)
    ensures
        r as int == bytes_cmp(a@, b@),
{
    let an: usize = a.len();
    let bn: usize = b.len();
    proof {
        assert(a@.subrange(0, an as int) =~= a@);
        assert(b@.subrange(0, bn as int) =~= b@);
    }
    let mut i: usize = 0;
    while i < an && i < bn
        invariant
            0 <= i <= an,
            i <= bn,
            an == a@.len(),
            bn == b@.len(),
            bytes_cmp(a@, b@) == bytes_cmp(
                a@.subrange(i as int, an as int),
                b@.subrange(i as int, bn as int),
            ),
        decreases an - i,
    {
        let ghost ra = a@.subrange(i as int, an as int);
        let ghost rb = b@.subrange(i as int, bn as int);
        let x: u8 = *vstd::slice::slice_index_get(a, i);
        let y: u8 = *vstd::slice::slice_index_get(b, i);
        proof {
            assert(ra[0] == x && rb[0] == y);
        }
        if x < y {
            return -1;
        }
        if x > y {
            return 1;
        }
        proof {
            assert(ra.drop_first() =~= a@.subrange(i + 1 as int, an as int));
            assert(rb.drop_first() =~= b@.subrange(i + 1 as int, bn as int));
        }
        i = i + 1;
    }
    proof {
        assert(a@.subrange(i as int, an as int).len() == an - i);
        assert(b@.subrange(i as int, bn as int).len() == bn - i);
    }
    if an == bn {
        0
    } else if an < bn {
        -1
    } else {
        1
    }
}

/// Compare two tags in the canonical order.
fn cmp_tags(a: &crate::tag::Tag, b: &crate::tag::Tag) -> (r: i8)
    ensures
        r as int == spec_cmp_tags(a@, b@),
{
    let da = crate::facet::has_date_like_suffix(a.facet.as_str());
    let db = crate::facet::has_date_like_suffix(b.facet.as_str());
    if db && !da {
        return -1;
    }
    if da && !db {
        return 1;
    }
    if da && db {
        let ab: &[u8] = a.facet.as_str().as_bytes();
        let bb: &[u8] = b.facet.as_str().as_bytes();
        let sa: &[u8] = vstd::slice::slice_subrange(ab, ab.len() - 9, ab.len());
        let sb: &[u8] = vstd::slice::slice_subrange(bb, bb.len() - 9, bb.len());
        let c = cmp_bytes(sb, sa);
        proof {
            assert(sa@ =~= suffix9(a@.facet));
            assert(sb@ =~= suffix9(b@.facet));
        }
        if c != 0 {
            return c;
        }
    }
    proof {
        crate::text::lemma_str_bytes_empty(a.facet@);
        crate::text::lemma_str_bytes_empty(b.facet@);
        crate::text::lemma_str_bytes_empty(a.label@);
        crate::text::lemma_str_bytes_empty(b.label@);
    }
    let fa = !a.facet.as_str().is_empty();
    let fb = !b.facet.as_str().is_empty();
    if fb && !fa {
        return -1;
    }
    if fa && !fb {
        return 1;
    }
    if fa && fb {
        let c = cmp_bytes(a.facet.as_str().as_bytes(), b.facet.as_str().as_bytes());
        if c != 0 {
            return c;
        }
    }
    let la = !a.label.as_str().is_empty();
    let lb = !b.label.as_str().is_empty();
    if lb && !la {
        return 1;
    }
    if la && !lb {
        return -1;
    }
    if la && lb {
        return cmp_bytes(a.label.as_str().as_bytes(), b.label.as_str().as_bytes());
    }
    0
}

fn tag_gt(a: &crate::tag::Tag, b: &crate::tag::Tag) -> (r: bool)
    ensures
        r == (spec_cmp_tags(a@, b@) > 0),
{
    cmp_tags(a, b) > 0
}

/// Sort a tag vector by stable insertion in the canonical order.
#[verifier::rlimit(100)]
#[verifier::spinoff_prover]
fn sort_tags_vec(v: &mut Vec<crate::tag::Tag>)
    ensures
        tag_views(final(v)@) == spec_sort_tags(tag_views(old(v)@)),
{
    let ghost orig = tag_views(old(v)@);
    let n = v.len();
    if n == 0 {
        proof {
            assert(tag_views(v@) =~= spec_sort_tags(orig));
        }
        return;
    }
    proof {
        assert(orig.subrange(0, 1).drop_last() =~= Seq::<TagView>::empty());
        assert(spec_sort_tags(Seq::<TagView>::empty()) == Seq::<TagView>::empty());
        assert(spec_sort_tags(orig.subrange(0, 1)) == spec_insert_tag(
            Seq::<TagView>::empty(),
            orig.subrange(0, 1).last(),
        ));
        assert(orig.subrange(0, 1).last() == orig[0]);
        assert(spec_insert_tag(Seq::<TagView>::empty(), orig[0]) == seq![orig[0]]);
        assert(tag_views(v@).subrange(0, 1) =~= seq![orig[0]]);
        assert(v@.subrange(1, n as int) =~= old(v)@.subrange(1, n as int));
    }
    let mut idx: usize = 1;
    while idx < n
        invariant
            1 <= idx <= n,
            n == v@.len(),
            n == old(v)@.len(),
            tag_views(v@).subrange(0, idx as int) == spec_sort_tags(orig.subrange(0, idx as int)),
            v@.subrange(idx as int, n as int) == old(v)@.subrange(idx as int, n as int),
            orig == tag_views(old(v)@),
        decreases n - idx,
    {
        let ghost sorted_prefix = tag_views(v@).subrange(0, idx as int);
        let ghost v_snap = v@;
        proof {
            lemma_sort_tags_sorted(orig.subrange(0, idx as int));
            assert(spec_sorted(sorted_prefix));
            assert(v@[idx as int] == old(v)@.subrange(idx as int, n as int)[0]);
            assert(v@[idx as int] == old(v)@[idx as int]);
            v_snap.remove_ensures(idx as int);
        }
        let x = v.remove(idx);
        let ghost x_model = x@;
        proof {
            assert(x_model == orig[idx as int]);
            assert(tag_views(v@).subrange(0, idx as int) =~= sorted_prefix);
        }
        let mut j: usize = idx;
        while j > 0 && tag_gt(&v[j - 1], &x)
            invariant
                0 <= j <= idx,
                idx < n,
                n == old(v)@.len(),
                v@.len() == n - 1,
                x@ == x_model,
                tag_views(v@).subrange(0, idx as int) == sorted_prefix,
                forall|k: int|
                    j <= k < idx ==> spec_cmp_tags(#[trigger] sorted_prefix[k], x_model) > 0,
            decreases j,
        {
            proof {
                assert(v@[j - 1]@ == sorted_prefix[j - 1]);
            }
            j = j - 1;
        }
        let ghost v_removed = v@;
        proof {
            if j > 0 {
                assert(v@[j - 1]@ == sorted_prefix[j - 1]);
            }
            lemma_insert_tag_at(sorted_prefix, x_model, j as int);
            v_removed.insert_ensures(j as int, x);
        }
        v.insert(j, x);
        proof {
            assert forall|k: int| 0 <= k < idx + 1 implies tag_views(v@)[k] == (sorted_prefix
                .subrange(0, j as int) + seq![x_model] + sorted_prefix.subrange(
                j as int,
                idx as int,
            ))[k] by {
                if k < j {
                    assert(v@[k] == v_removed[k]);
                    assert(v_removed[k]@ == sorted_prefix[k]);
                } else if k == j {
                    assert(v@[k] == x);
                } else {
                    assert(v@[k] == v_removed[k - 1]);
                    assert(v_removed[k - 1]@ == sorted_prefix[k - 1]);
                }
            }
            assert(tag_views(v@).subrange(0, idx + 1 as int) =~= sorted_prefix.subrange(
                0,
                j as int,
            ) + seq![x_model] + sorted_prefix.subrange(j as int, idx as int));
            assert(orig.subrange(0, idx + 1 as int).drop_last() =~= orig.subrange(0, idx as int));
            assert(orig.subrange(0, idx + 1 as int).last() == orig[idx as int]);
            assert(spec_sort_tags(orig.subrange(0, idx + 1 as int)) == spec_insert_tag(
                spec_sort_tags(orig.subrange(0, idx as int)),
                orig[idx as int],
            ));
            assert(tag_views(v@).subrange(0, idx + 1 as int) == spec_sort_tags(
                orig.subrange(0, idx + 1 as int),
            ));
            assert forall|k: int| idx + 1 <= k < n implies v@[k] == old(v)@[k] by {
                assert(v@[k] == v_removed[k - 1]);
                assert(v_removed[k - 1] == v_snap[k]);
                assert(v_snap[k] == old(v)@.subrange(idx as int, n as int)[k - idx]);
            }
            assert(v@.subrange(idx + 1 as int, n as int) =~= old(v)@.subrange(
                idx + 1 as int,
                n as int,
            ));
        }
        idx = idx + 1;
    }
    proof {
        assert(orig.subrange(0, n as int) =~= orig);
        assert(tag_views(v@).subrange(0, n as int) =~= tag_views(v@));
    }
}

/// Remove every tag that equals an earlier one, in place, keeping first
/// occurrences in order.
fn dedup_tags_vec(v: &mut Vec<crate::tag::Tag>)
    ensures
        tag_views(final(v)@) == spec_dedup_tags(tag_views(old(v)@)),
{
    let ghost goal = tag_views(old(v)@);
    let ghost n0: int = goal.len() as int;
    let mut i: usize = 0;
    let ghost mut c: int = 0;
    proof {
        assert(goal.subrange(0, 0) =~= Seq::<TagView>::empty());
        assert(spec_dedup_tags(Seq::<TagView>::empty()) == Seq::<TagView>::empty());
        assert(goal.subrange(0, n0) =~= goal);
        assert(tag_views(v@) =~= spec_dedup_tags(goal.subrange(0, 0)) + goal.subrange(0, n0));
    }
    while i < v.len()
        invariant
            0 <= i <= v@.len(),
            i <= c <= n0,
            n0 == goal.len(),
            v@.len() == i + (n0 - c),
            i as int == spec_dedup_tags(goal.subrange(0, c)).len(),
            tag_views(v@) == spec_dedup_tags(goal.subrange(0, c)) + goal.subrange(c, n0),
        decreases n0 - c,
    {
        let ghost done = spec_dedup_tags(goal.subrange(0, c));
        proof {
            assert(v@[i as int]@ == tag_views(v@)[i as int]);
            assert(tag_views(v@)[i as int] == goal.subrange(c, n0)[0]);
            assert(v@[i as int]@ == goal[c]);
        }
        let mut dup: bool = false;
        let mut j: usize = 0;
        while j < i
            invariant
                0 <= j <= i,
                i < v@.len(),
                dup == (exists|k: int| 0 <= k < j && #[trigger] v@[k]@ == v@[i as int]@),
            decreases i - j,
        {
            if &v[j] == &v[i] {
                dup = true;
                proof {
                    assert(v@[j as int]@ == v@[i as int]@);
                }
            }
            j = j + 1;
        }
        proof {
            lemma_dedup_tags_contains(goal.subrange(0, c));
            assert forall|k: int| 0 <= k < i implies #[trigger] v@[k]@ == done[k] by {
                assert(v@[k]@ == tag_views(v@)[k]);
            }
            if dup {
                let k = choose|k: int| 0 <= k < i && #[trigger] v@[k]@ == v@[i as int]@;
                assert(done[k] == goal[c]);
                assert(done.contains(goal[c]));
                assert(goal.subrange(0, c).contains(goal[c]));
            } else {
                if goal.subrange(0, c).contains(goal[c]) {
                    assert(done.contains(goal[c]));
                    let k = choose|k: int| 0 <= k < done.len() && done[k] == goal[c];
                    assert(v@[k]@ == goal[c]);
                    assert(false);
                }
            }
            assert(goal.subrange(0, c + 1).drop_last() =~= goal.subrange(0, c));
            assert(goal.subrange(0, c + 1).last() == goal[c]);
        }
        if dup {
            let ghost v_snap = v@;
            proof {
                v_snap.remove_ensures(i as int);
            }
            let _ = v.remove(i);
            proof {
                c = c + 1;
                assert(spec_dedup_tags(goal.subrange(0, c)) == done);
                assert forall|k: int| 0 <= k < tag_views(v@).len() implies tag_views(v@)[k] == (
                done + goal.subrange(c, n0))[k] by {
                    if k < i {
                        assert(v@[k] == v_snap[k]);
                        assert(v_snap[k]@ == tag_views(v_snap)[k]);
                    } else {
                        assert(v@[k] == v_snap[k + 1]);
                        assert(v_snap[k + 1]@ == tag_views(v_snap)[k + 1]);
                        assert(tag_views(v_snap)[k + 1] == goal.subrange(c - 1, n0)[k + 1 - i]);
                    }
                }
                assert(tag_views(v@) =~= done + goal.subrange(c, n0));
            }
        } else {
            proof {
                c = c + 1;
                assert(spec_dedup_tags(goal.subrange(0, c)) == done.push(goal[c - 1]));
                assert forall|k: int| 0 <= k < tag_views(v@).len() implies tag_views(v@)[k] == (
                done.push(goal[c - 1]) + goal.subrange(c, n0))[k] by {
                    assert(tag_views(v@)[k] == (done + goal.subrange(c - 1, n0))[k]);
                    if k >= i + 1 {
                        assert((done + goal.subrange(c - 1, n0))[k] == goal[k - (i as int) + c - 1]);
                    }
                }
                assert(tag_views(v@) =~= done.push(goal[c - 1]) + goal.subrange(c, n0));
            }
            i = i + 1;
        }
    }
    proof {
        assert(c == n0);
        assert(goal.subrange(c, n0) =~= Seq::<TagView>::empty());
        assert(tag_views(v@) =~= spec_dedup_tags(goal.subrange(0, n0)));
        assert(goal.subrange(0, n0) =~= goal);
    }
}

impl crate::scan::DecodedTags {
    /// Reorder and deduplicate tags.
    ///
    /// Canonical ordering:
    ///   1. Tags without a facet
    ///   2. Tags with a non-date-like facet
    ///   3. Tags with a date-like facet (by descending suffix)
    ///
    /// Within each group tags are sorted by facet, then by label.  For tags
    /// with equal facets those with a label are sorted before those without
    /// a label.  Tags with a date-like facet are sorted in descending order
    /// by their date-like suffix, i.e. newer dates are sorted before older
    /// dates.  After sorting, every tag that repeats an earlier one field
    /// for field is dropped.
    pub fn reorder_and_dedup(&mut self)
        ensures
            final(self)@.tags == spec_dedup_tags(spec_sort_tags(old(self)@.tags)),
            final(self)@.undecoded_prefix == old(self)@.undecoded_prefix,
            final(self).undecoded_prefix == old(self).undecoded_prefix,
    {
        proof {
            assert(tag_views(self.tags@) =~= self@.tags);
        }
        sort_tags_vec(&mut self.tags);
        dedup_tags_vec(&mut self.tags);
        proof {
            assert(tag_views(self.tags@) =~= self@.tags);
        }
    }
}

/// The reordered and deduplicated collection is in canonical order and
/// free of repeats.
pub proof fn lemma_reorder_and_dedup_canonical(s: Seq<TagView>)
    ensures
        spec_sorted(spec_dedup_tags(spec_sort_tags(s))),
        forall|i: int, j: int|
            0 <= i < j < spec_dedup_tags(spec_sort_tags(s)).len() ==> #[trigger] spec_dedup_tags(
                spec_sort_tags(s),
            )[i] != #[trigger] spec_dedup_tags(spec_sort_tags(s))[j],
{
    lemma_sort_tags_sorted(s);
    lemma_dedup_tags_sorted(spec_sort_tags(s));
}

/// Reordering and deduplicating is idempotent: a second pass over the
/// result of a first pass changes nothing.
pub proof fn lemma_reorder_and_dedup_idempotent(s: Seq<TagView>)
    ensures
        spec_dedup_tags(spec_sort_tags(spec_dedup_tags(spec_sort_tags(s)))) == spec_dedup_tags(
            spec_sort_tags(s),
        ),
{
    lemma_sort_tags_sorted(s);
    let d = spec_dedup_tags(spec_sort_tags(s));
    lemma_dedup_tags_sorted(spec_sort_tags(s));
    lemma_sort_tags_of_sorted(d);
    lemma_dedup_tags_of_distinct(d);
}

} // verus!
