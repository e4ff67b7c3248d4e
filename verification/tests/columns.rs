use diag_lang::{decimal_width, expand_tabs, floor_boundary, visual_width};

#[test]
fn test_decimal_width_counts_digits() {
    assert_eq!(decimal_width(0), 1);
    assert_eq!(decimal_width(9), 1);
    assert_eq!(decimal_width(10), 2);
    assert_eq!(decimal_width(999), 3);
    assert_eq!(decimal_width(1000), 4);
}

#[test]
fn test_visual_width_counts_chars_as_one() {
    assert_eq!(visual_width("αβ"), 2);
    assert_eq!(visual_width("abc"), 3);
}

#[test]
fn test_visual_width_expands_tabs_to_stops() {
    assert_eq!(visual_width("\t"), 4);
    assert_eq!(visual_width("a\t"), 4);
    assert_eq!(visual_width("abcd\t"), 8);
    assert_eq!(visual_width("\t\t"), 8);
}

#[test]
fn test_expand_tabs_matches_visual_width() {
    for s in ["", "a", "\t", "a\tb", "\tx\t", "abcd\te"] {
        let mut out = String::new();
        expand_tabs(s, &mut out);
        assert_eq!(out.chars().count(), visual_width(s), "for {s:?}");
        assert!(!out.contains('\t'));
    }
}

#[test]
fn test_floor_boundary_moves_into_char_start() {
    assert_eq!(floor_boundary("αβ", 1), 0);
    assert_eq!(floor_boundary("αβ", 2), 2);
    assert_eq!(floor_boundary("ab", 9), 2);
}
