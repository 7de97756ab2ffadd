use character_regions::{compress, compress_sorted, is_valid_codepoint, CharacterRange};

fn range(start: u32, end: u32) -> CharacterRange {
    CharacterRange::new(start, end).unwrap()
}

fn ends(ranges: &[CharacterRange]) -> Vec<(u32, u32)> {
    ranges.iter().map(|r| (r.start(), r.end())).collect()
}

fn expand(ranges: &[CharacterRange]) -> Vec<u32> {
    let mut codepoints: Vec<u32> = Vec::new();
    for r in ranges {
        for cp in r.start()..=r.end() {
            codepoints.push(cp);
        }
    }
    codepoints
}

/// A mixed input: unsorted, with repetitions, invalid codepoints and
/// codepoints on both sides of the surrogate block.
fn mixed_input() -> Vec<u32> {
    vec![
        0x110000, 70, 0xD7FF, 3, 0xE000, 1, 2, 0xDFFF, 70, 71, 0x10FFFF, 0xD800, 9, 0, 0xD7FE,
        0xFFFF_FFFF, 0x10FFFE, 0xE001, 73,
    ]
}

#[test]
fn run_and_single_codepoint() {
    let ranges = compress(vec![65, 66, 67, 90]);
    assert_eq!(ranges, vec![range(65, 67), range(90, 90)]);
}

#[test]
fn invalid_codepoints_give_no_range() {
    let ranges = compress(vec![0xD800, 0xDFFF, 0x110000]);
    assert!(ranges.is_empty());
}

#[test]
fn contiguous_codepoints_give_one_range() {
    let ranges = compress(vec![100, 101, 102, 103]);
    assert_eq!(ends(&ranges), vec![(100, 103)]);
}

#[test]
fn duplicates_count_once() {
    let ranges = compress(vec![50, 50, 51]);
    assert_eq!(ends(&ranges), vec![(50, 51)]);
    assert_eq!(ranges, compress(vec![50, 51]));
}

#[test]
fn empty_input_gives_no_range() {
    assert!(compress(vec![]).is_empty());
    assert!(compress_sorted(&[]).is_empty());
}

#[test]
fn single_codepoint_gives_degenerate_range() {
    assert_eq!(ends(&compress(vec![7])), vec![(7, 7)]);
    assert_eq!(ends(&compress(vec![0])), vec![(0, 0)]);
    assert_eq!(ends(&compress(vec![7, 7, 7])), vec![(7, 7)]);
}

#[test]
fn last_run_is_closed() {
    assert_eq!(ends(&compress(vec![1, 3, 4, 5])), vec![(1, 1), (3, 5)]);
}

#[test]
fn unsorted_input_is_sorted_first() {
    let ranges = compress(vec![90, 67, 65, 66]);
    assert_eq!(ends(&ranges), vec![(65, 67), (90, 90)]);
}

#[test]
fn sorted_walk() {
    let sorted = [1u32, 2, 3, 7, 9, 10];
    assert_eq!(ends(&compress_sorted(&sorted)), vec![(1, 3), (7, 7), (9, 10)]);
    assert_eq!(compress_sorted(&sorted), compress(sorted.to_vec()));
}

#[test]
fn surrogates_separate_their_neighbours() {
    let ranges = compress(vec![0xD7FF, 0xD800, 0xD801, 0xDFFF, 0xE000]);
    assert_eq!(ends(&ranges), vec![(0xD7FF, 0xD7FF), (0xE000, 0xE000)]);
}

#[test]
fn codepoints_above_the_maximum_are_dropped() {
    let ranges = compress(vec![0x10FFFE, 0x10FFFF, 0x110000, 0x110001, 0xFFFF_FFFF]);
    assert_eq!(ends(&ranges), vec![(0x10FFFE, 0x10FFFF)]);
}

#[test]
fn valid_codepoints() {
    assert!(is_valid_codepoint(0));
    assert!(is_valid_codepoint(0xD7FF));
    assert!(!is_valid_codepoint(0xD800));
    assert!(!is_valid_codepoint(0xDFFF));
    assert!(is_valid_codepoint(0xE000));
    assert!(is_valid_codepoint(0x10FFFF));
    assert!(!is_valid_codepoint(0x110000));
    assert!(!is_valid_codepoint(0xFFFF_FFFF));
}

#[test]
fn mixed_input_ranges() {
    assert_eq!(
        ends(&compress(mixed_input())),
        vec![
            (0, 3),
            (9, 9),
            (70, 71),
            (73, 73),
            (0xD7FE, 0xD7FF),
            (0xE000, 0xE001),
            (0x10FFFE, 0x10FFFF),
        ]
    );
}

#[test]
fn ranges_ascend_and_keep_a_gap() {
    let ranges = compress(mixed_input());
    for r in &ranges {
        assert!(r.start() <= r.end());
    }
    for pair in ranges.windows(2) {
        assert!(pair[0].start() < pair[1].start());
        assert!(pair[0].end() < pair[1].start() - 1);
        assert!(pair[1].start() > pair[0].end() + 1);
    }
}

#[test]
fn every_valid_codepoint_is_in_exactly_one_range() {
    let input = mixed_input();
    let ranges = compress(input.clone());
    for cp in &input {
        let holders: usize = ranges.iter().filter(|r| r.start() <= *cp && *cp <= r.end()).count();
        if is_valid_codepoint(*cp) {
            assert_eq!(holders, 1);
        } else {
            assert_eq!(holders, 0);
        }
    }
}

#[test]
fn ranges_hold_input_codepoints_only() {
    let input = mixed_input();
    for cp in expand(&compress(input.clone())) {
        assert!(is_valid_codepoint(cp));
        assert!(input.contains(&cp));
    }
}

#[test]
fn compressing_the_expansion_changes_nothing() {
    let ranges = compress(mixed_input());
    assert_eq!(compress(expand(&ranges)), ranges);
    let again = compress(vec![65, 66, 67, 90]);
    assert_eq!(expand(&again), vec![65, 66, 67, 90]);
    assert_eq!(compress(expand(&again)), again);
}
