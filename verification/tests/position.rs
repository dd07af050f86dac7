use rex_core::position::{next_char_boundary, offset_to_line_col, offset_to_line_col_0};

#[test]
fn line_col_counts_from_one() {
    let src = "ab\ncd\n\nxyz";
    assert_eq!(offset_to_line_col(src, 0), (1, 1));
    assert_eq!(offset_to_line_col(src, 1), (1, 2));
    assert_eq!(offset_to_line_col(src, 3), (2, 1));
    assert_eq!(offset_to_line_col(src, 5), (2, 3));
    assert_eq!(offset_to_line_col(src, 7), (4, 1));
    assert_eq!(offset_to_line_col(src, 9), (4, 3));
    // Past the end: the position after the last character.
    assert_eq!(offset_to_line_col(src, 100), (4, 4));
}

#[test]
fn line_col_zero_based() {
    let src = "ab\ncd";
    assert_eq!(offset_to_line_col_0(src, 0), (0, 0));
    assert_eq!(offset_to_line_col_0(src, 4), (1, 1));
    assert_eq!(offset_to_line_col_0(src, 99), (1, 2));
}

#[test]
fn line_col_counts_characters_not_bytes() {
    // 'é' takes two bytes: offset 3 is the start of 'x'.
    let src = "aéx";
    assert_eq!(offset_to_line_col(src, 3), (1, 3));
    // An offset inside 'é' counts it as started.
    assert_eq!(offset_to_line_col(src, 2), (1, 3));
    assert_eq!(offset_to_line_col_0("€\nb", 4), (1, 0));
}

#[test]
fn next_boundary_skips_continuation_bytes() {
    let s = "a€b";
    assert_eq!(next_char_boundary(s, 0), 1);
    assert_eq!(next_char_boundary(s, 1), 4);
    assert_eq!(next_char_boundary(s, 4), 5);
    assert_eq!(next_char_boundary(s, 7), 8);
}
