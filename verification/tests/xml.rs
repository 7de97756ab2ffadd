use character_regions::decimal::decimal_string;
use character_regions::{compress, CharacterRange, CharacterRegion, CharacterRegions, End, Start};

fn region(start: &str, end: &str) -> CharacterRegion {
    CharacterRegion {
        start: Start { value: start.to_string() },
        end: End { value: end.to_string() },
    }
}

#[test]
fn decimal_digits() {
    assert_eq!(decimal_string(0), "0");
    assert_eq!(decimal_string(7), "7");
    assert_eq!(decimal_string(9), "9");
    assert_eq!(decimal_string(10), "10");
    assert_eq!(decimal_string(42), "42");
    assert_eq!(decimal_string(1234567890), "1234567890");
    assert_eq!(decimal_string(1114111), "1114111");
    assert_eq!(decimal_string(4294967295), "4294967295");
}

#[test]
fn decimal_agrees_with_the_standard_library() {
    let mut value: u32 = 1;
    for _ in 0..40 {
        assert_eq!(decimal_string(value), value.to_string());
        assert_eq!(decimal_string(value - 1), (value - 1).to_string());
        value = value.wrapping_mul(7).wrapping_add(3);
    }
    for value in 0u32..1200 {
        assert_eq!(decimal_string(value), value.to_string());
    }
}

#[test]
fn document_of_no_range() {
    let document = CharacterRegions::new(&[]);
    assert!(document.character_ranges.is_empty());
}

#[test]
fn document_lists_ranges_in_order() {
    let ranges = [
        CharacterRange::new(12, 15).unwrap(),
        CharacterRange::new(90, 90).unwrap(),
        CharacterRange::new(0, 1114111).unwrap(),
    ];
    let document = CharacterRegions::new(&ranges);
    assert_eq!(
        document,
        CharacterRegions {
            character_ranges: vec![region("12", "15"), region("90", "90"), region("0", "1114111")],
        }
    );
}

#[test]
fn document_of_compressed_codepoints() {
    let ranges = compress(vec![65, 66, 67, 90]);
    let document = CharacterRegions::new(&ranges);
    assert_eq!(document.character_ranges, vec![region("65", "67"), region("90", "90")]);
}
