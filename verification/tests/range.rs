use character_regions::CharacterRange;

#[test]
fn range_keeps_its_ends() {
    let range = CharacterRange::new(12, 15).unwrap();
    assert_eq!(range.start(), 12);
    assert_eq!(range.end(), 15);
}

#[test]
fn range_of_one_codepoint() {
    let range = CharacterRange::new(90, 90).unwrap();
    assert_eq!((range.start(), range.end()), (90, 90));
}

#[test]
fn range_needs_start_before_end() {
    assert_eq!(CharacterRange::new(15, 12), None);
    assert!(CharacterRange::new(0, 0xFFFF_FFFF).is_some());
}

#[test]
fn range_copies_compare_equal() {
    let range = CharacterRange::new(1, 2).unwrap();
    let copy = range;
    assert_eq!(range, copy);
    assert_eq!(range.clone(), copy);
    assert_ne!(range, CharacterRange::new(1, 3).unwrap());
}
