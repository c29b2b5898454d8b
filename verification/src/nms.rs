//! Greedy non-maximum suppression.
//!
//! Candidates are sorted by label ascending and, within a label, by score
//! descending (ties keep their relative order). Then each box is compared to
//! its immediate predecessor in the sorted order, and dropped when the two
//! share a label and overlap above the IoU threshold. The comparison is
//! against the original predecessor, not the last survivor: a chain of three
//! overlapping boxes considers only consecutive pairs.

use crate::bbox::{all_boxes_ok, box_ok, BBox};
use crate::geom::{iou, iou_spec};
use vstd::prelude::*;

verus! {

/// Strict sort order of the suppressor: label ascending, then score
/// descending. Boxes with equal label and score compare equal (neither is
/// before the other).
pub open spec fn sort_before(a: BBox, b: BBox) -> bool {
    a.label < b.label || (a.label == b.label && a.score > b.score)
}

/// Stable insertion of `x` into `s`: `x` goes in front of the first element
/// it is strictly before, hence after every element equal to it.
pub open spec fn insert_sorted(x: BBox, s: Seq<BBox>) -> Seq<BBox>
    decreases s.len(),
{
    if s.len() == 0 {
        seq![x]
    } else if sort_before(x, s[0]) {
        seq![x] + s
    } else {
        seq![s[0]] + insert_sorted(x, s.drop_first())
    }
}

/// Stable insertion sort under [`sort_before`].
pub open spec fn sort_spec(s: Seq<BBox>) -> Seq<BBox>
    decreases s.len(),
{
    if s.len() == 0 {
        s
    } else {
        insert_sorted(s.last(), sort_spec(s.drop_last()))
    }
}

/// `cur` is dropped against its predecessor `prev`: same label, overlapping
/// above the threshold.
pub open spec fn suppressed(prev: BBox, cur: BBox, thresh: int) -> bool {
    prev.label == cur.label && iou_spec(prev, cur) > thresh
}

/// The adjacent-pair policy over a sorted sequence: the first box always
/// survives, and every later box survives exactly when it is not
/// [`suppressed`] by the box directly before it in the sequence.
pub open spec fn filter_adjacent(s: Seq<BBox>, thresh: int) -> Seq<BBox>
    decreases s.len(),
{
    if s.len() <= 1 {
        s
    } else {
        let prefix = filter_adjacent(s.drop_last(), thresh);
        if suppressed(s[s.len() - 2], s.last(), thresh) {
            prefix
        } else {
            prefix.push(s.last())
        }
    }
}

/// No element of the sequence is strictly before an earlier one.
pub open spec fn sorted_boxes(s: Seq<BBox>) -> bool {
    forall|i: int, j: int| 0 <= i < j < s.len() ==> !sort_before(#[trigger] s[j], #[trigger] s[i])
}

/// Every element of `insert_sorted(x, s)` is `x` or an element of `s`.
proof fn lemma_insert_sorted_elems(x: BBox, s: Seq<BBox>)
    ensures
        insert_sorted(x, s).len() == s.len() + 1,
        forall|i: int|
            0 <= i < insert_sorted(x, s).len() ==> #[trigger] insert_sorted(x, s)[i] == x
                || s.contains(insert_sorted(x, s)[i]),
    decreases s.len(),
{
    if s.len() == 0 {
    } else if sort_before(x, s[0]) {
        assert forall|i: int| 0 <= i < insert_sorted(x, s).len() implies #[trigger] insert_sorted(
            x,
            s,
        )[i] == x || s.contains(insert_sorted(x, s)[i]) by {
            if i > 0 {
                assert(insert_sorted(x, s)[i] == s[i - 1]);
            }
        }
    } else {
        lemma_insert_sorted_elems(x, s.drop_first());
        assert forall|i: int| 0 <= i < insert_sorted(x, s).len() implies #[trigger] insert_sorted(
            x,
            s,
        )[i] == x || s.contains(insert_sorted(x, s)[i]) by {
            if i > 0 {
                let rest = insert_sorted(x, s.drop_first());
                assert(insert_sorted(x, s)[i] == rest[i - 1]);
                if rest[i - 1] != x {
                    let k = choose|k: int| 0 <= k < s.drop_first().len() && s.drop_first()[k]
                        == rest[i - 1];
                    assert(s[k + 1] == rest[i - 1]);
                }
            } else {
                assert(s.contains(s[0]));
            }
        }
    }
}

/// Inserting into a sorted sequence keeps it sorted.
proof fn lemma_insert_sorted_sorted(x: BBox, s: Seq<BBox>)
    requires
        sorted_boxes(s),
    ensures
        sorted_boxes(insert_sorted(x, s)),
    decreases s.len(),
{
    if s.len() == 0 {
    } else if sort_before(x, s[0]) {
        let r = seq![x] + s;
        assert forall|i: int, j: int| 0 <= i < j < r.len() implies !sort_before(
            #[trigger] r[j],
            #[trigger] r[i],
        ) by {
            if i == 0 {
                assert(r[j] == s[j - 1]);
                if j > 1 {
                    assert(!sort_before(s[j - 1], s[0]));
                }
            } else {
                assert(r[i] == s[i - 1] && r[j] == s[j - 1]);
            }
        }
    } else {
        let rest = s.drop_first();
        assert forall|i: int, j: int| 0 <= i < j < rest.len() implies !sort_before(
            #[trigger] rest[j],
            #[trigger] rest[i],
        ) by {
            assert(rest[i] == s[i + 1] && rest[j] == s[j + 1]);
        }
        lemma_insert_sorted_sorted(x, rest);
        lemma_insert_sorted_elems(x, rest);
        let tail = insert_sorted(x, rest);
        let r = seq![s[0]] + tail;
        assert forall|i: int, j: int| 0 <= i < j < r.len() implies !sort_before(
            #[trigger] r[j],
            #[trigger] r[i],
        ) by {
            if i == 0 {
                assert(r[j] == tail[j - 1]);
                if tail[j - 1] == x {
                } else {
                    let k = choose|k: int| 0 <= k < rest.len() && rest[k] == tail[j - 1];
                    assert(rest[k] == s[k + 1]);
                    assert(!sort_before(s[k + 1], s[0]));
                }
            } else {
                assert(r[i] == tail[i - 1] && r[j] == tail[j - 1]);
            }
        }
    }
}

/// The sorted sequence is sorted.
pub proof fn lemma_sort_spec_sorted(s: Seq<BBox>)
    ensures
        sorted_boxes(sort_spec(s)),
    decreases s.len(),
{
    if s.len() > 0 {
        lemma_sort_spec_sorted(s.drop_last());
        lemma_insert_sorted_sorted(s.last(), sort_spec(s.drop_last()));
    }
}

/// Sorting and insertion preserve box validity.
proof fn lemma_insert_sorted_all_ok(x: BBox, s: Seq<BBox>)
    requires
        box_ok(x),
        all_boxes_ok(s),
    ensures
        all_boxes_ok(insert_sorted(x, s)),
    decreases s.len(),
{
    lemma_insert_sorted_elems(x, s);
    assert forall|i: int| 0 <= i < insert_sorted(x, s).len() implies box_ok(
        #[trigger] insert_sorted(x, s)[i],
    ) by {
        if insert_sorted(x, s)[i] != x {
            let k = choose|k: int| 0 <= k < s.len() && s[k] == insert_sorted(x, s)[i];
            assert(box_ok(s[k]));
        }
    }
}

/// Every box of the sorted sequence is valid when every input box is.
pub proof fn lemma_sort_spec_all_ok(s: Seq<BBox>)
    requires
        all_boxes_ok(s),
    ensures
        all_boxes_ok(sort_spec(s)),
        sort_spec(s).len() == s.len(),
    decreases s.len(),
{
    if s.len() > 0 {
        assert forall|i: int| 0 <= i < s.drop_last().len() implies box_ok(
            #[trigger] s.drop_last()[i],
        ) by {
            assert(s.drop_last()[i] == s[i]);
        }
        lemma_sort_spec_all_ok(s.drop_last());
        lemma_insert_sorted_all_ok(s.last(), sort_spec(s.drop_last()));
        lemma_insert_sorted_elems(s.last(), sort_spec(s.drop_last()));
    }
}

/// Characterizes [`insert_sorted`] by the insertion position: if `x` is not
/// before the first `j` elements and is before the `j`-th (when it exists),
/// the result is `s` with `x` inserted at `j`.
proof fn lemma_insert_sorted_at(x: BBox, s: Seq<BBox>, j: int)
    requires
        0 <= j <= s.len(),
        forall|k: int| 0 <= k < j ==> !sort_before(x, #[trigger] s[k]),
        j < s.len() ==> sort_before(x, s[j]),
    ensures
        insert_sorted(x, s) == s.insert(j, x),
    decreases s.len(),
{
    if s.len() == 0 {
        assert(insert_sorted(x, s) =~= s.insert(0, x));
    } else if j == 0 {
        assert(insert_sorted(x, s) =~= s.insert(0, x));
    } else {
        assert(!sort_before(x, s[0]));
        let rest = s.drop_first();
        assert forall|k: int| 0 <= k < j - 1 implies !sort_before(x, #[trigger] rest[k]) by {
            assert(rest[k] == s[k + 1]);
        }
        assert(j - 1 < rest.len() ==> sort_before(x, rest[j - 1]));
        lemma_insert_sorted_at(x, rest, j - 1);
        assert(seq![s[0]] + rest.insert(j - 1, x) =~= s.insert(j, x));
    }
}

/// Suppression keeps only boxes of the input sequence: validity carries
/// over, and no boxes are added.
pub proof fn lemma_filter_adjacent_all_ok(s: Seq<BBox>, thresh: int)
    requires
        all_boxes_ok(s),
    ensures
        all_boxes_ok(filter_adjacent(s, thresh)),
        filter_adjacent(s, thresh).len() <= s.len(),
    decreases s.len(),
{
    if s.len() > 1 {
        assert forall|i: int| 0 <= i < s.drop_last().len() implies box_ok(
            #[trigger] s.drop_last()[i],
        ) by {
            assert(s.drop_last()[i] == s[i]);
        }
        lemma_filter_adjacent_all_ok(s.drop_last(), thresh);
        let prefix = filter_adjacent(s.drop_last(), thresh);
        if !suppressed(s[s.len() - 2], s.last(), thresh) {
            assert forall|i: int| 0 <= i < prefix.push(s.last()).len() implies box_ok(
                #[trigger] prefix.push(s.last())[i],
            ) by {
                if i < prefix.len() {
                    assert(prefix.push(s.last())[i] == prefix[i]);
                }
            }
        }
    }
}

/// Law: of two boxes of the same label that overlap above the threshold,
/// exactly one survives suppression — the higher-scoring one (at equal
/// scores, the one that came first).
pub proof fn lemma_pair_same_label(a: BBox, b: BBox, thresh: int)
    requires
        a.label == b.label,
        a.score >= b.score,
        iou_spec(a, b) > thresh,
    ensures
        filter_adjacent(sort_spec(seq![a, b]), thresh) == seq![a],
{
    lemma_sort_pair(a, b);
    let t = seq![a, b];
    assert(t[t.len() - 2] == a && t.last() == b);
    assert(t.drop_last() =~= seq![a]);
    assert(filter_adjacent(seq![a], thresh) == seq![a]);
}

/// Law: two boxes of different labels both survive suppression, whatever
/// their overlap; they come out ordered by label.
pub proof fn lemma_pair_distinct_labels(a: BBox, b: BBox, thresh: int)
    requires
        a.label != b.label,
    ensures
        filter_adjacent(sort_spec(seq![a, b]), thresh) == (if a.label < b.label {
            seq![a, b]
        } else {
            seq![b, a]
        }),
{
    lemma_sort_pair(a, b);
    if a.label < b.label {
        let t = seq![a, b];
        assert(t[t.len() - 2] == a && t.last() == b);
        assert(t.drop_last() =~= seq![a]);
        assert(!suppressed(a, b, thresh));
        assert(filter_adjacent(seq![a], thresh) == seq![a]);
        assert(filter_adjacent(t, thresh) =~= seq![a, b]);
    } else {
        let t = seq![b, a];
        assert(t[t.len() - 2] == b && t.last() == a);
        assert(t.drop_last() =~= seq![b]);
        assert(!suppressed(b, a, thresh));
        assert(filter_adjacent(seq![b], thresh) == seq![b]);
        assert(filter_adjacent(t, thresh) =~= seq![b, a]);
    }
}

/// Sorting a two-box sequence: `b` is placed in front exactly when it is
/// strictly before `a`.
proof fn lemma_sort_pair(a: BBox, b: BBox)
    ensures
        sort_spec(seq![a, b]) == (if sort_before(b, a) {
            seq![b, a]
        } else {
            seq![a, b]
        }),
{
    let s = seq![a, b];
    assert(s.drop_last() =~= seq![a]);
    assert(s.last() == b);
    assert(seq![a].drop_last() =~= Seq::<BBox>::empty());
    assert(seq![a].last() == a);
    assert(sort_spec(Seq::<BBox>::empty()) == Seq::<BBox>::empty());
    assert(sort_spec(seq![a]) == insert_sorted(a, sort_spec(seq![a].drop_last())));
    assert(insert_sorted(a, Seq::<BBox>::empty()) == seq![a]);
    assert(sort_spec(seq![a]) == seq![a]);
    assert(sort_spec(s) == insert_sorted(b, seq![a]));
    if sort_before(b, a) {
        assert(insert_sorted(b, seq![a]) =~= seq![b, a]);
    } else {
        assert(seq![a].drop_first() =~= Seq::<BBox>::empty());
        assert(insert_sorted(b, seq![a]) == seq![a] + insert_sorted(
            b,
            Seq::<BBox>::empty(),
        ));
        assert(insert_sorted(b, seq![a]) =~= seq![a, b]);
    }
}

/// Exact strict comparison under the suppressor's sort order.
fn box_before(a: &BBox, b: &BBox) -> (r: bool)
    ensures
        r == sort_before(*a, *b),
{
    a.label < b.label || (a.label == b.label && a.score > b.score)
}

/// Position at which `x` is inserted into the already-sorted `out`: the index
/// of the first element that `x` is strictly before.
fn insert_pos(x: &BBox, out: &Vec<BBox>) -> (j: usize)
    ensures
        j <= out@.len(),
        forall|k: int| 0 <= k < j ==> !sort_before(*x, #[trigger] out@[k]),
        j < out@.len() ==> sort_before(*x, out@[j as int]),
{
    let mut j: usize = 0;
    while j < out.len()
        invariant
            j <= out@.len(),
            forall|k: int| 0 <= k < j ==> !sort_before(*x, #[trigger] out@[k]),
        decreases out@.len() - j,
    {
        if box_before(x, &out[j]) {
            return j;
        }
        j += 1;
    }
    j
}

/// Stable insertion sort under [`sort_before`]: label ascending, score
/// descending, ties keeping their relative order.
pub fn sort_boxes(bbox: &mut Vec<BBox>) -> (r: ())
    ensures
        final(bbox)@ == sort_spec(old(bbox)@),
{
    let mut out: Vec<BBox> = Vec::new();
    let mut i: usize = 0;
    while i < bbox.len()
        invariant
            i <= bbox@.len(),
            bbox@ == old(bbox)@,
            out@ == sort_spec(bbox@.take(i as int)),
        decreases bbox@.len() - i,
    {
        let x = bbox[i];
        let j = insert_pos(&x, &out);
        proof {
            lemma_insert_sorted_at(x, out@, j as int);
            assert(bbox@.take(i as int + 1).drop_last() =~= bbox@.take(i as int));
            assert(bbox@.take(i as int + 1).last() == x);
        }
        out.insert(j, x);
        i += 1;
    }
    proof {
        assert(bbox@.take(bbox@.len() as int) =~= bbox@);
    }
    *bbox = out;
}

/// Greedy non-maximum suppression: sort by `(label asc, score desc)`, then
/// drop every box that shares a label with its immediate sorted predecessor
/// and overlaps it with IoU above `thresh`.
pub fn suppress(bbox: &mut Vec<BBox>, thresh: i64)
    requires
        all_boxes_ok(old(bbox)@),
    ensures
        final(bbox)@ == filter_adjacent(sort_spec(old(bbox)@), thresh as int),
{
    sort_boxes(bbox);
    proof {
        lemma_sort_spec_all_ok(old(bbox)@);
    }
    let ghost sorted = bbox@;
    let mut out: Vec<BBox> = Vec::new();
    let mut i: usize = 0;
    while i < bbox.len()
        invariant
            i <= bbox@.len(),
            bbox@ == sorted,
            all_boxes_ok(bbox@),
            out@ == filter_adjacent(bbox@.take(i as int), thresh as int),
        decreases bbox@.len() - i,
    {
        proof {
            assert(bbox@.take(i as int + 1).drop_last() =~= bbox@.take(i as int));
            assert(bbox@.take(i as int + 1).last() == bbox@[i as int]);
        }
        if i == 0 {
            let x = bbox[0];
            out.push(x);
            proof {
                assert(filter_adjacent(bbox@.take(1), thresh as int) == bbox@.take(1));
                assert(out@ =~= bbox@.take(1));
            }
        } else {
            let r = iou(&bbox[i - 1], &bbox[i]);
            if !(bbox[i - 1].label == bbox[i].label && r > thresh) {
                let x = bbox[i];
                out.push(x);
            }
        }
        i += 1;
    }
    proof {
        assert(bbox@.take(bbox@.len() as int) =~= bbox@);
    }
    *bbox = out;
}

} // verus!
