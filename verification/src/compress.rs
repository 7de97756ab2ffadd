//! Merging codepoints into maximal contiguous ranges.

use crate::laws::{covered_once, lemma_coverage, lemma_strictly_ascending};
use crate::range::{is_valid_codepoint, valid_codepoint, CharacterRange};
use vstd::prelude::*;

verus! {

/// The codepoints never decrease from one position to the next.
pub open spec fn ascending(codepoints: Seq<u32>) -> bool {
    forall|i: int, j: int| 0 <= i <= j < codepoints.len() ==> codepoints[i] <= codepoints[j]
}

/// Every range has its start at or before its end.
pub open spec fn well_formed(ranges: Seq<CharacterRange>) -> bool {
    forall|i: int| 0 <= i < ranges.len() ==> (#[trigger] ranges[i]).start() <= ranges[i].end()
}

/// Each range starts more than one codepoint after the end of the range
/// before it: neighbours neither overlap nor touch.
pub open spec fn separated(ranges: Seq<CharacterRange>) -> bool {
    forall|i: int, j: int|
        0 <= i && j == i + 1 && j < ranges.len() ==> (#[trigger] ranges[i]).end() + 1 < (
        #[trigger] ranges[j]).start()
}

/// Some range of `ranges` spans `cp`.
pub open spec fn covers(ranges: Seq<CharacterRange>, cp: u32) -> bool {
    exists|i: int| 0 <= i < ranges.len() && #[trigger] ranges[i].spans(cp)
}

/// `ranges` is the compression of `codepoints`: well-formed, separated
/// ranges that together span exactly the valid codepoints that occur in
/// `codepoints`.
pub open spec fn compresses(ranges: Seq<CharacterRange>, codepoints: Seq<u32>) -> bool {
    &&& well_formed(ranges)
    &&& separated(ranges)
    &&& forall|cp: u32|
        #[trigger] covers(ranges, cp) <==> codepoints.contains(cp) && valid_codepoint(cp)
}

/// `cp` lies in the run that is still open.
spec fn in_run(run: Option<(u32, u32)>, cp: u32) -> bool {
    run matches Some((start, last)) && start <= cp <= last
}

/// What holds after the first `n` codepoints of `sorted` were walked, with
/// `ranges` closed so far and `run` still open; `last_at` is a position
/// where the last codepoint of the open run was read.
spec fn walked(
    sorted: Seq<u32>,
    n: int,
    ranges: Seq<CharacterRange>,
    run: Option<(u32, u32)>,
    last_at: int,
) -> bool {
    &&& well_formed(ranges)
    &&& separated(ranges)
    &&& forall|j: int, cp: u32|
        0 <= j < ranges.len() && #[trigger] ranges[j].spans(cp) ==> valid_codepoint(cp)
            && sorted.contains(cp)
    &&& forall|cp: u32| #[trigger] in_run(run, cp) ==> valid_codepoint(cp) && sorted.contains(cp)
    &&& forall|k: int|
        0 <= k < n && valid_codepoint(#[trigger] sorted[k]) ==> covers(ranges, sorted[k]) || in_run(
            run,
            sorted[k],
        )
    &&& match run {
        None => ranges.len() == 0,
        Some((start, last)) => {
            &&& start <= last
            &&& 0 <= last_at < n
            &&& sorted[last_at] == last
            &&& forall|j: int| 0 <= j < ranges.len() ==> (#[trigger] ranges[j]).end() + 1 < start
        },
    }
}

/// Closing a run adds its codepoints to what the ranges cover, and nothing else.
proof fn lemma_covers_push(ranges: Seq<CharacterRange>, range: CharacterRange, cp: u32)
    ensures
        covers(ranges.push(range), cp) <==> covers(ranges, cp) || range.spans(cp),
{
    let longer = ranges.push(range);
    if covers(ranges, cp) {
        let i = choose|i: int| 0 <= i < ranges.len() && #[trigger] ranges[i].spans(cp);
        assert(longer[i].spans(cp));
    }
    if range.spans(cp) {
        assert(longer[ranges.len() as int].spans(cp));
    }
    if covers(longer, cp) {
        let i = choose|i: int| 0 <= i < longer.len() && #[trigger] longer[i].spans(cp);
        if i < ranges.len() {
            assert(ranges[i].spans(cp));
        }
    }
}

/// A codepoint that is invalid, or that the open run holds already,
/// changes nothing.
proof fn lemma_skip(
    sorted: Seq<u32>,
    n: int,
    ranges: Seq<CharacterRange>,
    run: Option<(u32, u32)>,
    last_at: int,
)
    requires
        walked(sorted, n, ranges, run, last_at),
        0 <= n < sorted.len(),
        ascending(sorted),
        !valid_codepoint(sorted[n]) || (run matches Some((_, last)) && sorted[n] <= last),
    ensures
        walked(sorted, n + 1, ranges, run, last_at),
{
    if valid_codepoint(sorted[n]) {
        assert(sorted[last_at] <= sorted[n]);
        assert(in_run(run, sorted[n]));
    }
}

/// The first valid codepoint opens the first run.
proof fn lemma_open_run(sorted: Seq<u32>, n: int, ranges: Seq<CharacterRange>, last_at: int)
    requires
        walked(sorted, n, ranges, None, last_at),
        0 <= n < sorted.len(),
        valid_codepoint(sorted[n]),
    ensures
        walked(sorted, n + 1, ranges, Some((sorted[n], sorted[n])), n),
{
    let opened = Some((sorted[n], sorted[n]));
    assert forall|cp: u32| #[trigger] in_run(opened, cp) implies valid_codepoint(cp)
        && sorted.contains(cp) by {
        assert(sorted[n] == cp);
    }
}

/// The codepoint that follows the last one of the open run extends the run.
proof fn lemma_extend_run(
    sorted: Seq<u32>,
    n: int,
    ranges: Seq<CharacterRange>,
    start: u32,
    last: u32,
    last_at: int,
)
    requires
        walked(sorted, n, ranges, Some((start, last)), last_at),
        0 <= n < sorted.len(),
        valid_codepoint(sorted[n]),
        sorted[n] == last + 1,
    ensures
        walked(sorted, n + 1, ranges, Some((start, sorted[n])), n),
{
    let run = Some((start, last));
    let longer = Some((start, sorted[n]));
    assert forall|cp: u32| #[trigger] in_run(longer, cp) implies valid_codepoint(cp)
        && sorted.contains(cp) by {
        if cp == sorted[n] {
            assert(sorted[n] == cp);
        } else {
            assert(in_run(run, cp));
        }
    }
    assert forall|k: int| 0 <= k < n + 1 && valid_codepoint(#[trigger] sorted[k]) implies covers(
        ranges,
        sorted[k],
    ) || in_run(longer, sorted[k]) by {
        if k < n && in_run(run, sorted[k]) {
            assert(in_run(longer, sorted[k]));
        }
    }
}

/// A codepoint beyond the one that follows the open run closes the run as
/// `range` and opens the next run.
proof fn lemma_close_run(
    sorted: Seq<u32>,
    n: int,
    ranges: Seq<CharacterRange>,
    start: u32,
    last: u32,
    last_at: int,
    range: CharacterRange,
)
    requires
        walked(sorted, n, ranges, Some((start, last)), last_at),
        0 <= n < sorted.len(),
        valid_codepoint(sorted[n]),
        sorted[n] > last + 1,
        range.start() == start,
        range.end() == last,
    ensures
        walked(sorted, n + 1, ranges.push(range), Some((sorted[n], sorted[n])), n),
{
    let longer = ranges.push(range);
    let run = Some((start, last));
    let opened = Some((sorted[n], sorted[n]));
    assert forall|j: int, cp: u32| 0 <= j < longer.len() && #[trigger] longer[j].spans(
        cp,
    ) implies valid_codepoint(cp) && sorted.contains(cp) by {
        if j < ranges.len() {
            assert(ranges[j].spans(cp));
        } else {
            assert(in_run(run, cp));
        }
    }
    assert forall|k: int| 0 <= k < n + 1 && valid_codepoint(#[trigger] sorted[k]) implies covers(
        longer,
        sorted[k],
    ) || in_run(opened, sorted[k]) by {
        lemma_covers_push(ranges, range, sorted[k]);
    }
    assert forall|i: int, j: int| 0 <= i && j == i + 1 && j < longer.len() implies (
    #[trigger] longer[i]).end() + 1 < (#[trigger] longer[j]).start() by {
        if j < ranges.len() {
            assert(ranges[i].end() + 1 < ranges[j].start());
        } else {
            assert(ranges[i].end() + 1 < start);
        }
    }
    assert forall|cp: u32| #[trigger] in_run(opened, cp) implies valid_codepoint(cp)
        && sorted.contains(cp) by {
        assert(sorted[n] == cp);
    }
}

/// Once all of `sorted` is walked and no run was ever opened, no range is
/// the compression.
proof fn lemma_nothing_found(sorted: Seq<u32>, ranges: Seq<CharacterRange>, last_at: int)
    requires
        walked(sorted, sorted.len() as int, ranges, None, last_at),
    ensures
        compresses(ranges, sorted),
{
    assert forall|cp: u32| #[trigger]
        covers(ranges, cp) <==> sorted.contains(cp) && valid_codepoint(cp) by {
        if sorted.contains(cp) && valid_codepoint(cp) {
            let k = choose|k: int| 0 <= k < sorted.len() && sorted[k] == cp;
            assert(valid_codepoint(sorted[k]));
        }
    }
}

/// Once all of `sorted` is walked, closing the open run as `range`
/// completes the compression.
proof fn lemma_close_last_run(
    sorted: Seq<u32>,
    ranges: Seq<CharacterRange>,
    start: u32,
    last: u32,
    last_at: int,
    range: CharacterRange,
)
    requires
        walked(sorted, sorted.len() as int, ranges, Some((start, last)), last_at),
        range.start() == start,
        range.end() == last,
    ensures
        compresses(ranges.push(range), sorted),
{
    let all = ranges.push(range);
    let run = Some((start, last));
    assert forall|i: int, j: int| 0 <= i && j == i + 1 && j < all.len() implies (
    #[trigger] all[i]).end() + 1 < (#[trigger] all[j]).start() by {
        if j < ranges.len() {
            assert(ranges[i].end() + 1 < ranges[j].start());
        } else {
            assert(ranges[i].end() + 1 < start);
        }
    }
    assert forall|cp: u32| #[trigger]
        covers(all, cp) <==> sorted.contains(cp) && valid_codepoint(cp) by {
        lemma_covers_push(ranges, range, cp);
        if covers(ranges, cp) {
            let j = choose|j: int| 0 <= j < ranges.len() && #[trigger] ranges[j].spans(cp);
            assert(ranges[j].spans(cp));
        }
        if range.spans(cp) {
            assert(in_run(run, cp));
        }
        if sorted.contains(cp) && valid_codepoint(cp) {
            let k = choose|k: int| 0 <= k < sorted.len() && sorted[k] == cp;
            assert(valid_codepoint(sorted[k]));
        }
    }
}

/// Merges codepoints that are already in ascending order into ranges.
///
/// One walk over the codepoints, with at most one run open at a time.
/// An invalid codepoint is skipped and breaks no run; a codepoint that
/// occurs again counts once; a run of a single codepoint gives a range
/// whose start is its end.
pub fn compress_sorted(sorted: &[u32]) -> (ranges: Vec<CharacterRange>)
    requires
        ascending(sorted@),
    ensures
        // The ranges span exactly the valid codepoints of the input.
        compresses(ranges@, sorted@),
        // Neighbours are more than one codepoint apart: none could be merged.
        separated(ranges@),
        // The ranges are strictly ascending by start.
        forall|i: int, j: int|
            0 <= i < j < ranges.len() ==> (#[trigger] ranges[i]).start() < (
            #[trigger] ranges[j]).start(),
        // A valid codepoint of the input lies in exactly one range.
        forall|cp: u32|
            sorted@.contains(cp) && valid_codepoint(cp) ==> #[trigger] covered_once(ranges@, cp),
        // An invalid codepoint lies in none.
        forall|cp: u32| !valid_codepoint(cp) ==> !#[trigger] covers(ranges@, cp),
{
    let mut ranges: Vec<CharacterRange> = Vec::new();
    let mut run: Option<(u32, u32)> = None;
    let ghost mut last_at: int = 0;
    let mut i: usize = 0;
    while i < sorted.len()
        invariant
            i <= sorted.len(),
            ascending(sorted@),
            walked(sorted@, i as int, ranges@, run, last_at),
        decreases sorted.len() - i,
    {
        let cp = sorted[i];
        if !is_valid_codepoint(cp) {
            proof {
                lemma_skip(sorted@, i as int, ranges@, run, last_at);
            }
        } else {
            match run {
                None => {
                    proof {
                        lemma_open_run(sorted@, i as int, ranges@, last_at);
                        last_at = i as int;
                    }
                    run = Some((cp, cp));
                },
                Some((start, last)) => {
                    if cp == last + 1 {
                        proof {
                            lemma_extend_run(sorted@, i as int, ranges@, start, last, last_at);
                            last_at = i as int;
                        }
                        run = Some((start, cp));
                    } else if cp > last + 1 {
                        let range = CharacterRange::from_bounds(start, last);
                        proof {
                            lemma_close_run(sorted@, i as int, ranges@, start, last, last_at, range);
                            last_at = i as int;
                        }
                        ranges.push(range);
                        run = Some((cp, cp));
                    } else {
                        proof {
                            lemma_skip(sorted@, i as int, ranges@, run, last_at);
                        }
                    }
                },
            }
        }
        i += 1;
    }
    match run {
        None => {
            proof {
                lemma_nothing_found(sorted@, ranges@, last_at);
            }
        },
        Some((start, last)) => {
            let range = CharacterRange::from_bounds(start, last);
            proof {
                lemma_close_last_run(sorted@, ranges@, start, last, last_at, range);
            }
            ranges.push(range);
        },
    }
    proof {
        lemma_strictly_ascending(ranges@);
        lemma_coverage(ranges@, sorted@);
    }
    ranges
}

/// Sorts the codepoints in place, in ascending order.
///
/// Trusted: the body is `sort_unstable` of the standard library's slices,
/// which is documented to sort the slice in ascending order. The contract
/// claims that afterwards the elements never decrease, and that they are
/// the elements from before, each as often as before.
#[verifier::external_body]
fn sort_codepoints(codepoints: &mut Vec<u32>)
    ensures
        ascending(final(codepoints)@),
        final(codepoints)@.to_multiset() == old(codepoints)@.to_multiset(),
{
    codepoints.sort_unstable();
}

/// Compresses codepoints, in any order and with repetitions, into the
/// ranges of the valid codepoints among them.
///
/// The ranges come in ascending order; each is a maximal run of consecutive
/// valid codepoints of the input, a single codepoint included. Invalid
/// codepoints are dropped.
pub fn compress(codepoints: Vec<u32>) -> (ranges: Vec<CharacterRange>)
    ensures
        // The ranges span exactly the valid codepoints of the input.
        compresses(ranges@, codepoints@),
        // Neighbours are more than one codepoint apart: none could be merged.
        separated(ranges@),
        // The ranges are strictly ascending by start.
        forall|i: int, j: int|
            0 <= i < j < ranges.len() ==> (#[trigger] ranges[i]).start() < (
            #[trigger] ranges[j]).start(),
        // A valid codepoint of the input lies in exactly one range.
        forall|cp: u32|
            codepoints@.contains(cp) && valid_codepoint(cp) ==> #[trigger] covered_once(
                ranges@,
                cp,
            ),
        // An invalid codepoint lies in none.
        forall|cp: u32| !valid_codepoint(cp) ==> !#[trigger] covers(ranges@, cp),
{
    let mut sorted = codepoints;
    sort_codepoints(&mut sorted);
    let ranges = compress_sorted(sorted.as_slice());
    proof {
        assert forall|cp: u32| sorted@.contains(cp) <==> codepoints@.contains(cp) by {
            sorted@.to_multiset_ensures();
            codepoints@.to_multiset_ensures();
            assert(sorted@.to_multiset().count(cp) == codepoints@.to_multiset().count(cp));
        }
        lemma_coverage(ranges@, codepoints@);
    }
    ranges
}

} // verus!
