use rex_core::definition::{goto_definition, DefinitionTarget};
use rex_core::env::DomainSchema;
use rex_core::locals::{
    local_nav_definition, local_type_property_definition, local_variable_definition, SourceRange,
};
use rex_core::position::offset_to_line_col_0;

fn goto_at(source: &str, offset: usize) -> Option<DefinitionTarget> {
    let schema = DomainSchema { type_aliases: vec![], globals: vec![], functions: vec![] };
    let (line, character) = offset_to_line_col_0(source, offset);
    goto_definition(&schema, source, line, character, None)
}

const DB: &str = "db = {\n  bob:{ name:\"Bob\" color:1 }\n  tim:{ name:\"Tim\" color:2 }\n}\nv = db.tim.color";

fn range(start_line: u32, start_col: u32, end_line: u32, end_col: u32) -> SourceRange {
    SourceRange { start_line, start_col, end_line, end_col }
}

#[test]
fn goto_definition_resolves_local_variable_usage() {
    let source = "x = 41\ny = x + 1\ny";
    let usage_offset = source.find("x + 1").expect("usage should exist");
    let loc = local_variable_definition("x", source, usage_offset).expect("definition");
    assert_eq!(loc, range(0, 0, 0, 1));
    assert_eq!(goto_at(source, usage_offset), Some(DefinitionTarget::Local(range(0, 0, 0, 1))));
    // The navigation lookup of a plain name gives the same place.
    assert_eq!(local_nav_definition("x", source, usage_offset), Some(loc));
}

#[test]
fn goto_definition_resolves_static_navigation_base_variable() {
    let usage_offset = DB.find("db.tim.color").expect("nav should exist");
    let loc = local_nav_definition("db.tim.color", DB, usage_offset).expect("definition");
    assert_eq!(loc, range(0, 0, 0, 2));
    assert_eq!(goto_at(DB, usage_offset), Some(DefinitionTarget::Local(range(0, 0, 0, 2))));
}

#[test]
fn goto_definition_resolves_static_navigation_property_segments() {
    let nav = DB.find("db.tim.color").expect("nav should exist");
    let tim_loc = local_nav_definition("db.tim.color", DB, nav + 3).expect("tim");
    assert_eq!(tim_loc, range(2, 2, 2, 5));
    let color_loc = local_nav_definition("db.tim.color", DB, nav + 7).expect("color");
    assert_eq!(color_loc, range(2, 19, 2, 24));
    assert_eq!(goto_at(DB, nav + 3), Some(DefinitionTarget::Local(range(2, 2, 2, 5))));
    assert_eq!(goto_at(DB, nav + 7), Some(DefinitionTarget::Local(range(2, 19, 2, 24))));
}

#[test]
fn local_variable_missing_gives_none() {
    assert_eq!(local_variable_definition("z", "x = 1\nx", 6), None);
    assert_eq!(local_nav_definition("", "x = 1\nx", 6), None);
    assert_eq!(local_nav_definition("...", "x = 1\nx", 6), None);
}

#[test]
fn local_variable_takes_last_definition_before_offset() {
    let source = "x = 1\nx = 2\nx\nx = 3\n";
    // The third line reads the second assignment; the fourth comes later.
    let offset = source.find("x\n").unwrap();
    assert_eq!(local_variable_definition("x", source, offset), Some(range(1, 0, 1, 1)));
    // From the end, the last assignment wins.
    assert_eq!(local_variable_definition("x", source, source.len()), Some(range(3, 0, 3, 1)));
}

#[test]
fn local_variable_typed_assignment_and_extern() {
    let source = "extern max: int | none\ncount: int = 0\ncount";
    assert_eq!(local_variable_definition("count", source, source.len()), Some(range(1, 0, 1, 5)));
    assert_eq!(local_variable_definition("max", source, source.len()), Some(range(0, 7, 0, 10)));
}

#[test]
fn local_variable_columns_count_characters() {
    let source = "s = \"héllo\"\nt = 1\nt";
    assert_eq!(local_variable_definition("t", source, source.len()), Some(range(1, 0, 1, 1)));
}

#[test]
fn nav_through_non_object_value_gives_none() {
    let source = "db = 5\nv = db.tim";
    let nav = source.find("db.tim").unwrap();
    assert_eq!(local_nav_definition("db.tim", source, nav + 4), None);
    // An unknown key gives none too.
    let nav = DB.find("db.tim.color").unwrap();
    assert_eq!(local_nav_definition("db.sam", DB, nav + 4), None);
}

#[test]
fn a_key_of_an_object_type_is_found_in_its_type() {
    let source = "type Person = { name: str color: int }\nx: { bob: Person } = { bob: 1 }\nv = { color: 2 }";
    let offset = source.find("bob: Person").expect("type key");
    let loc = local_type_property_definition("bob", source, offset).expect("definition");
    assert_eq!(loc, SourceRange { start_line: 1, start_col: 5, end_line: 1, end_col: 8 });
    let end = source.len();
    let color = local_type_property_definition("color", source, end).expect("definition");
    assert_eq!(color, SourceRange { start_line: 0, start_col: 26, end_line: 0, end_col: 31 });
    assert_eq!(local_type_property_definition("bob", source, 5), None);
    assert_eq!(local_type_property_definition("missing", source, end), None);
}

#[test]
fn goto_definition_prefers_the_document_then_the_declarations() {
    let source = "type Person = { name: str }\nx: { bob: Person } = { bob: 1 }\nlog.warn(x)";
    let at = |needle: &str, add: usize| goto_at(source, source.find(needle).unwrap() + add);
    assert_eq!(at("bob: Person", 6), Some(DefinitionTarget::Local(range(0, 5, 0, 11))));
    assert_eq!(at("bob: Person", 1), Some(DefinitionTarget::Local(range(1, 5, 1, 8))));
    assert_eq!(at("x)", 0), Some(DefinitionTarget::Local(range(1, 0, 1, 1))));
    assert_eq!(at("warn", 1), None);
    assert_eq!(goto_at(source, source.len()), None);
}
