use rex_core::cursor::{
    extract_dotted_word_at, extract_word_at, extract_word_before, is_in_braces, position_to_offset,
};
use rex_core::position::offset_to_line_col_0;

#[test]
fn position_to_offset_counts_lines_and_characters() {
    let src = "ab\ncde\nf";
    assert_eq!(position_to_offset(src, 0, 0), 0);
    assert_eq!(position_to_offset(src, 0, 1), 1);
    assert_eq!(position_to_offset(src, 1, 0), 3);
    assert_eq!(position_to_offset(src, 1, 2), 5);
    assert_eq!(position_to_offset(src, 2, 0), 7);
}

#[test]
fn position_past_the_end_of_a_line_is_its_newline() {
    let src = "ab\ncde\nf";
    assert_eq!(position_to_offset(src, 0, 9), 2);
    assert_eq!(position_to_offset(src, 1, 40), 6);
}

#[test]
fn position_past_the_end_of_the_text_is_its_length() {
    let src = "ab\ncde\nf";
    assert_eq!(position_to_offset(src, 2, 5), 8);
    assert_eq!(position_to_offset(src, 7, 0), 8);
    assert_eq!(position_to_offset("", 0, 0), 0);
}

#[test]
fn position_counts_characters_but_returns_bytes() {
    let src = "é=1\nx";
    assert_eq!(position_to_offset(src, 0, 1), 2);
    assert_eq!(position_to_offset(src, 1, 0), 5);
}

#[test]
fn offsets_survive_a_round_trip_through_positions() {
    let src = "when x do\n  héllo.world\nend";
    for offset in 0..=src.len() {
        if src.is_char_boundary(offset) {
            let (line, col) = offset_to_line_col_0(src, offset);
            assert_eq!(position_to_offset(src, line, col), offset);
        }
    }
}

#[test]
fn word_at_the_cursor() {
    let src = "x := my-var + other_var";
    assert_eq!(extract_word_at(src, 0, 7), "my-var");
    assert_eq!(extract_word_at(src, 0, 5), "my-var");
    assert_eq!(extract_word_at(src, 0, 16), "other_var");
    assert_eq!(extract_word_at(src, 0, 2), "");
}

#[test]
fn dotted_word_at_the_cursor() {
    let src = "y = json.parse(text)";
    assert_eq!(extract_dotted_word_at(src, 0, 6), "json.parse");
    assert_eq!(extract_word_at(src, 0, 6), "json");
    assert_eq!(extract_word_at(src, 0, 10), "parse");
}

#[test]
fn word_before_the_cursor_stops_at_the_cursor() {
    let src = "a\n  log.wa rest";
    assert_eq!(extract_word_before(src, 1, 8), "log.wa");
    assert_eq!(extract_word_before(src, 1, 3), "l");
    assert_eq!(extract_word_before(src, 1, 5), "log");
    assert_eq!(extract_word_before(src, 1, 2), "");
}

#[test]
fn words_of_letters_outside_ascii() {
    let src = "naïve = 1";
    assert_eq!(extract_word_at(src, 0, 1), "naïve");
}

#[test]
fn braces_before_an_offset() {
    let src = "{a: {b: 1}, c: 2} d";
    assert!(!is_in_braces(src, 0));
    assert!(is_in_braces(src, 1));
    assert!(is_in_braces(src, 5));
    assert!(is_in_braces(src, 12));
    assert!(!is_in_braces(src, 18));
    assert!(!is_in_braces("}{", 1));
}
