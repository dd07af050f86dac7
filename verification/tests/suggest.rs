use rex_core::suggest::{edit_distance, suggest_field};
use rex_core::types::Type;

#[test]
fn edit_distances() {
    assert_eq!(edit_distance("kitten", "sitting"), 3);
    assert_eq!(edit_distance("", "abc"), 3);
    assert_eq!(edit_distance("abc", ""), 3);
    assert_eq!(edit_distance("same", "same"), 0);
    assert_eq!(edit_distance("headrs", "headers"), 1);
    assert_eq!(edit_distance("flaw", "lawn"), 2);
    assert_eq!(edit_distance("é", "e"), 1);
}

#[test]
fn suggestions_pick_the_closest_near_field() {
    let fields = vec![
        ("method".to_string(), Type::Str),
        ("headers".to_string(), Type::Str),
    ];
    assert_eq!(suggest_field("headrs", &fields), Some("headers".to_string()));
    assert_eq!(suggest_field("xyz", &fields), None);
    // Ties go to the first field.
    let tie = vec![("ab".to_string(), Type::Int), ("ba".to_string(), Type::Int)];
    assert_eq!(suggest_field("aa", &tie), Some("ab".to_string()));
    assert_eq!(suggest_field("x", &[]), None);
}
