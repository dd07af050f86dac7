use rex_core::locals::SourceRange;
use rex_core::position::offset_to_line_col_0;
use rex_core::rename::rename;

fn rename_ranges(source: &str, offset: usize, new_name: &str) -> Vec<SourceRange> {
    let (line, character) = offset_to_line_col_0(source, offset);
    let edits = rename(source, line, character, new_name).expect("rename should exist");
    for e in &edits {
        assert_eq!(e.new_text, new_name);
    }
    edits.iter().map(|e| e.range).collect()
}

fn range(start_line: u32, start_col: u32, end_line: u32, end_col: u32) -> SourceRange {
    SourceRange { start_line, start_col, end_line, end_col }
}

#[test]
fn rename_local_variable_updates_definition_and_usages() {
    let source = "x = 41\ny = x + 1\nx";
    let offset = source.find("x + 1").expect("usage should exist");
    let ranges = rename_ranges(source, offset, "value");

    assert_eq!(ranges.len(), 3);
    assert_eq!(ranges, vec![range(0, 0, 0, 1), range(1, 4, 1, 5), range(2, 0, 2, 1)]);
}

#[test]
fn rename_static_navigation_property_updates_definition_and_accesses() {
    let source = r#"db = {
  bob:{ name:"Bob" color:1 }
  tim:{ name:"Tim" color:2 }
}
v = db.tim.color
w = db.bob.color"#;
    let offset = source.find("db.tim.color").expect("nav should exist") + 7;
    let ranges = rename_ranges(source, offset, "hue");

    assert_eq!(ranges.len(), 2);
    assert_eq!(ranges, vec![range(2, 19, 2, 24), range(4, 11, 4, 16)]);
}

#[test]
fn rename_refuses_blank_names_and_unknown_words() {
    let source = "x = 1\nx";
    assert!(rename(source, 1, 0, "  ").is_none());
    assert!(rename(source, 1, 0, "").is_none());
    // No name under the cursor.
    assert!(rename(source, 0, 2, "y").is_none());
    // A name with no definition.
    assert!(rename("z + 1", 0, 0, "y").is_none());
}

#[test]
fn rename_keeps_other_definitions_of_the_same_name() {
    // The second assignment starts a new definition: renaming the first
    // leaves it and its use alone.
    let source = "x = 1\ny = x\nx = 2\nz = x";
    let ranges = rename_ranges(source, 0, "a");
    assert_eq!(ranges, vec![range(0, 0, 0, 1), range(1, 4, 1, 5)]);
}

#[test]
fn rename_type_alias_by_its_declaration() {
    let source = "type Person = str\np: Person = \"x\"";
    let offset = source.find("Person = \"").unwrap();
    let ranges = rename_ranges(source, offset, "Human");
    assert_eq!(ranges, vec![range(0, 5, 0, 11), range(1, 3, 1, 9)]);
}

#[test]
fn rename_type_object_key_does_not_fail() {
    let source = r#"type Person = { name: str color: int }

db: { bob: Person tim: Person } = {
  boba:{ name:"Bob" color:0x44ff44 }
  tim:{ name:"Tim" color:0x0088ff }
}

first-name = db.boba.name"#;
    let offset = source.find("bob: Person").expect("type key should exist");
    let ranges = rename_ranges(source, offset, "boba");

    assert!(!ranges.is_empty());
    assert_eq!(ranges, vec![range(2, 6, 2, 9)]);
}
