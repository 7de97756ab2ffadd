//! What holds of every compression, proved from its definition.

use crate::compress::{compresses, covers, separated, well_formed};
use crate::range::{valid_codepoint, CharacterRange};
use vstd::prelude::*;

verus! {

/// `cp` lies in one range of `ranges` and in no other.
pub open spec fn covered_once(ranges: Seq<CharacterRange>, cp: u32) -> bool {
    exists|i: int|
        0 <= i < ranges.len() && #[trigger] ranges[i].spans(cp) && forall|j: int|
            0 <= j < ranges.len() && #[trigger] ranges[j].spans(cp) ==> j == i
}

/// The codepoints of one range, in ascending order.
pub open spec fn codepoints_of(range: CharacterRange) -> Seq<u32> {
    Seq::new((range.end() - range.start() + 1) as nat, |k: int| (range.start() + k) as u32)
}

/// The codepoints of all the ranges, range after range.
pub open spec fn expanded(ranges: Seq<CharacterRange>) -> Seq<u32>
    decreases ranges.len(),
{
    if ranges.len() == 0 {
        Seq::empty()
    } else {
        expanded(ranges.drop_last()) + codepoints_of(ranges.last())
    }
}

/// Two sequences of ranges span the same codepoints.
pub open spec fn same_coverage(a: Seq<CharacterRange>, b: Seq<CharacterRange>) -> bool {
    forall|cp: u32| #[trigger] covers(a, cp) <==> covers(b, cp)
}

/// In well-formed, separated ranges, any later range starts more than one
/// codepoint after the end of any earlier one.
pub proof fn lemma_gap_between(ranges: Seq<CharacterRange>, i: int, j: int)
    requires
        well_formed(ranges),
        separated(ranges),
        0 <= i < j < ranges.len(),
    ensures
        ranges[i].end() + 1 < ranges[j].start(),
    decreases j - i,
{
    if j > i + 1 {
        lemma_gap_between(ranges, i, j - 1);
        assert(ranges[j - 1].start() <= ranges[j - 1].end());
        assert(ranges[j - 1].end() + 1 < ranges[j].start());
    }
}

/// Well-formed, separated ranges are strictly ascending by start, and by end.
pub proof fn lemma_strictly_ascending(ranges: Seq<CharacterRange>)
    requires
        well_formed(ranges),
        separated(ranges),
    ensures
        forall|i: int, j: int|
            0 <= i < j < ranges.len() ==> (#[trigger] ranges[i]).start() < (
            #[trigger] ranges[j]).start(),
        forall|i: int, j: int|
            0 <= i < j < ranges.len() ==> (#[trigger] ranges[i]).end() < (
            #[trigger] ranges[j]).end(),
{
    assert forall|i: int, j: int| 0 <= i < j < ranges.len() implies (#[trigger] ranges[i]).start()
        < (#[trigger] ranges[j]).start() && ranges[i].end() < ranges[j].end() by {
        lemma_gap_between(ranges, i, j);
    }
}

/// In well-formed, separated ranges no codepoint lies in two ranges.
pub proof fn lemma_spanned_once(ranges: Seq<CharacterRange>, cp: u32, i: int, j: int)
    requires
        well_formed(ranges),
        separated(ranges),
        0 <= i < ranges.len(),
        0 <= j < ranges.len(),
        ranges[i].spans(cp),
        ranges[j].spans(cp),
    ensures
        i == j,
{
    if i < j {
        lemma_gap_between(ranges, i, j);
    } else if j < i {
        lemma_gap_between(ranges, j, i);
    }
}

/// A compression spans every valid codepoint of its input in exactly one
/// range, and spans no other codepoint: no invalid one, and none that the
/// input lacks.
pub proof fn lemma_coverage(ranges: Seq<CharacterRange>, codepoints: Seq<u32>)
    requires
        compresses(ranges, codepoints),
    ensures
        forall|cp: u32|
            codepoints.contains(cp) && valid_codepoint(cp) ==> #[trigger] covered_once(ranges, cp),
        forall|cp: u32| !valid_codepoint(cp) ==> !#[trigger] covers(ranges, cp),
        forall|cp: u32| !codepoints.contains(cp) ==> !#[trigger] covers(ranges, cp),
{
    assert forall|cp: u32| codepoints.contains(cp) && valid_codepoint(cp) implies #[trigger]
        covered_once(ranges, cp) by {
        assert(covers(ranges, cp));
        let i = choose|i: int| 0 <= i < ranges.len() && #[trigger] ranges[i].spans(cp);
        assert forall|j: int| 0 <= j < ranges.len() && #[trigger] ranges[j].spans(cp) implies j
            == i by {
            lemma_spanned_once(ranges, cp, i, j);
        }
    }
    assert forall|cp: u32| !valid_codepoint(cp) implies !#[trigger] covers(ranges, cp) by {}
    assert forall|cp: u32| !codepoints.contains(cp) implies !#[trigger] covers(ranges, cp) by {}
}

/// Where two well-formed, separated sequences span the same codepoints,
/// each range of the one is a range of the other.
proof fn lemma_matching_range(a: Seq<CharacterRange>, b: Seq<CharacterRange>, i: int) -> (j: int)
    requires
        well_formed(a),
        separated(a),
        well_formed(b),
        separated(b),
        same_coverage(a, b),
        0 <= i < a.len(),
    ensures
        0 <= j < b.len(),
        b[j] == a[i],
{
    let first = a[i].start();
    let last = a[i].end();
    assert(a[i].spans(first));
    assert(covers(a, first));
    assert(covers(b, first));
    let j = choose|j: int| 0 <= j < b.len() && #[trigger] b[j].spans(first);
    assert(b[j].start() <= b[j].end());
    if b[j].start() < first {
        let below = (first - 1) as u32;
        assert(b[j].spans(below));
        assert(covers(b, below));
        assert(covers(a, below));
        let k = choose|k: int| 0 <= k < a.len() && #[trigger] a[k].spans(below);
        if k < i {
            lemma_gap_between(a, k, i);
        } else if k > i {
            lemma_gap_between(a, i, k);
        }
        assert(false);
    }
    if b[j].end() > last {
        let above = (last + 1) as u32;
        assert(b[j].spans(above));
        assert(covers(b, above));
        assert(covers(a, above));
        let k = choose|k: int| 0 <= k < a.len() && #[trigger] a[k].spans(above);
        if k < i {
            lemma_gap_between(a, k, i);
        } else if k > i {
            lemma_gap_between(a, i, k);
        }
        assert(false);
    }
    if b[j].end() < last {
        let above = (b[j].end() + 1) as u32;
        assert(a[i].spans(above));
        assert(covers(a, above));
        assert(covers(b, above));
        let m = choose|m: int| 0 <= m < b.len() && #[trigger] b[m].spans(above);
        if m < j {
            lemma_gap_between(b, m, j);
        } else if m > j {
            lemma_gap_between(b, j, m);
        }
        assert(false);
    }
    b[j].lemma_equal_by_ends(a[i]);
    j
}

/// Without its last range, a sequence spans what it spanned before except
/// the codepoints of that range.
proof fn lemma_covers_drop_last(ranges: Seq<CharacterRange>, cp: u32)
    requires
        well_formed(ranges),
        separated(ranges),
        ranges.len() > 0,
    ensures
        covers(ranges.drop_last(), cp) <==> covers(ranges, cp) && !ranges.last().spans(cp),
{
    let shorter = ranges.drop_last();
    let end = ranges.len() - 1;
    if covers(shorter, cp) {
        let i = choose|i: int| 0 <= i < shorter.len() && #[trigger] shorter[i].spans(cp);
        assert(ranges[i].spans(cp));
        if ranges.last().spans(cp) {
            lemma_spanned_once(ranges, cp, i, end);
        }
    }
    if covers(ranges, cp) && !ranges.last().spans(cp) {
        let i = choose|i: int| 0 <= i < ranges.len() && #[trigger] ranges[i].spans(cp);
        assert(shorter[i].spans(cp));
    }
}

/// Well-formed, separated ranges stay so without their last range.
proof fn lemma_drop_last_keeps_shape(ranges: Seq<CharacterRange>)
    requires
        well_formed(ranges),
        separated(ranges),
        ranges.len() > 0,
    ensures
        well_formed(ranges.drop_last()),
        separated(ranges.drop_last()),
{
    let rest = ranges.drop_last();
    assert forall|i: int| 0 <= i < rest.len() implies (#[trigger] rest[i]).start()
        <= rest[i].end() by {
        assert(ranges[i].start() <= ranges[i].end());
    }
    assert forall|i: int, j: int| 0 <= i && j == i + 1 && j < rest.len() implies (
    #[trigger] rest[i]).end() + 1 < (#[trigger] rest[j]).start() by {
        assert(ranges[i].end() + 1 < ranges[j].start());
    }
}

/// Where two well-formed, separated sequences span the same codepoints
/// and neither is empty, they end with the same range.
proof fn lemma_same_last(a: Seq<CharacterRange>, b: Seq<CharacterRange>)
    requires
        well_formed(a),
        separated(a),
        well_formed(b),
        separated(b),
        same_coverage(a, b),
        a.len() > 0,
        b.len() > 0,
    ensures
        a.last() == b.last(),
{
    let a_end = a.len() - 1;
    let b_end = b.len() - 1;
    assert forall|cp: u32| #[trigger] covers(b, cp) <==> covers(a, cp) by {}
    let j = lemma_matching_range(a, b, a_end);
    let k = lemma_matching_range(b, a, b_end);
    if j < b_end {
        lemma_gap_between(b, j, b_end);
        assert(a[a_end].start() <= a[a_end].end());
        if k < a_end {
            lemma_gap_between(a, k, a_end);
            assert(a[k].start() <= a[k].end());
        }
        assert(false);
    }
}

/// Well-formed, separated ranges are determined by the codepoints they span.
pub proof fn lemma_same_coverage_equal(a: Seq<CharacterRange>, b: Seq<CharacterRange>)
    requires
        well_formed(a),
        separated(a),
        well_formed(b),
        separated(b),
        same_coverage(a, b),
    ensures
        a == b,
    decreases a.len(),
{
    if a.len() == 0 {
        if b.len() > 0 {
            assert(b[0].spans(b[0].start()));
            assert(covers(b, b[0].start()));
            assert(covers(a, b[0].start()));
        }
        assert(a =~= b);
    } else if b.len() == 0 {
        assert(a[0].spans(a[0].start()));
        assert(covers(a, a[0].start()));
        assert(covers(b, a[0].start()));
    } else {
        lemma_same_last(a, b);
        let a_rest = a.drop_last();
        let b_rest = b.drop_last();
        assert forall|cp: u32| #[trigger] covers(a_rest, cp) <==> covers(b_rest, cp) by {
            lemma_covers_drop_last(a, cp);
            lemma_covers_drop_last(b, cp);
            assert(covers(a, cp) <==> covers(b, cp));
        }
        lemma_drop_last_keeps_shape(a);
        lemma_drop_last_keeps_shape(b);
        lemma_same_coverage_equal(a_rest, b_rest);
        assert(a =~= a_rest.push(a.last()));
        assert(b =~= b_rest.push(b.last()));
    }
}

/// The compression of a sequence of codepoints is unique: `compresses`
/// leaves the compressor no choice.
pub proof fn lemma_compression_unique(
    a: Seq<CharacterRange>,
    b: Seq<CharacterRange>,
    codepoints: Seq<u32>,
)
    requires
        compresses(a, codepoints),
        compresses(b, codepoints),
    ensures
        a == b,
{
    assert forall|cp: u32| #[trigger] covers(a, cp) <==> covers(b, cp) by {}
    lemma_same_coverage_equal(a, b);
}

/// A codepoint occurs among the codepoints of a range exactly when the
/// range spans it.
pub proof fn lemma_codepoints_of_contains(range: CharacterRange, cp: u32)
    requires
        range.start() <= range.end(),
    ensures
        codepoints_of(range).contains(cp) <==> range.spans(cp),
{
    let listed = codepoints_of(range);
    if range.spans(cp) {
        assert(listed[cp - range.start()] == cp);
    }
}

/// A codepoint occurs in the expansion of well-formed ranges exactly when
/// one of them spans it.
pub proof fn lemma_expanded_contains(ranges: Seq<CharacterRange>, cp: u32)
    requires
        well_formed(ranges),
    ensures
        expanded(ranges).contains(cp) <==> covers(ranges, cp),
    decreases ranges.len(),
{
    if ranges.len() > 0 {
        let rest = ranges.drop_last();
        let last = ranges.last();
        assert forall|i: int| 0 <= i < rest.len() implies (#[trigger] rest[i]).start()
            <= rest[i].end() by {
            assert(ranges[i].start() <= ranges[i].end());
        }
        lemma_expanded_contains(rest, cp);
        lemma_codepoints_of_contains(last, cp);
        let head = expanded(rest);
        let tail = codepoints_of(last);
        if head.contains(cp) {
            let i = choose|i: int| 0 <= i < head.len() && head[i] == cp;
            assert((head + tail)[i] == cp);
            let r = choose|r: int| 0 <= r < rest.len() && #[trigger] rest[r].spans(cp);
            assert(ranges[r].spans(cp));
        }
        if tail.contains(cp) {
            let i = choose|i: int| 0 <= i < tail.len() && tail[i] == cp;
            assert((head + tail)[head.len() + i] == cp);
            assert(ranges[ranges.len() - 1].spans(cp));
        }
        if (head + tail).contains(cp) {
            let i = choose|i: int| 0 <= i < (head + tail).len() && (head + tail)[i] == cp;
            if i < head.len() {
                assert(head[i] == cp);
            } else {
                assert(tail[i - head.len()] == cp);
            }
        }
        if covers(ranges, cp) {
            let r = choose|r: int| 0 <= r < ranges.len() && #[trigger] ranges[r].spans(cp);
            if r < rest.len() {
                assert(rest[r].spans(cp));
            }
        }
    }
}

/// Compressing is idempotent: a compression is the compression of its own
/// expansion, so compressing the codepoints of the ranges again gives the
/// same ranges.
pub proof fn lemma_compress_idempotent(
    ranges: Seq<CharacterRange>,
    codepoints: Seq<u32>,
    again: Seq<CharacterRange>,
)
    requires
        compresses(ranges, codepoints),
        compresses(again, expanded(ranges)),
    ensures
        compresses(ranges, expanded(ranges)),
        again == ranges,
{
    assert forall|cp: u32| #[trigger]
        covers(ranges, cp) <==> expanded(ranges).contains(cp) && valid_codepoint(cp) by {
        lemma_expanded_contains(ranges, cp);
    }
    lemma_compression_unique(again, ranges, expanded(ranges));
}

} // verus!
