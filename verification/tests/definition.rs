use rex_core::cursor::extract_word_at;
use rex_core::definition::{definition, goto_definition, local_type_alias_definition, DefinitionTarget, LineSpan};
use rex_core::locals::SourceRange;
use rex_core::position::offset_to_line_col_0;
use rex_core::env::{DomainSchema, FunctionSig, GlobalEntry};
use rex_core::types::Type;

const DECLS: &str = "// domain\nextern mut req: {method: str}\n\textern log.warn(msg: str)\nextern json.parse(text: str): some\n  type Person = {name: str}\n";

fn sig() -> FunctionSig {
    FunctionSig { args: vec![], rest: None, returns: Type::NoneType, doc: None }
}

fn schema() -> DomainSchema {
    DomainSchema {
        type_aliases: vec![("Person".to_string(), Type::Str)],
        globals: vec![(
            "req".to_string(),
            GlobalEntry { ty: Type::Str, mutable: true, mutable_fields: vec![], doc: None },
        )],
        functions: vec![("log.warn".to_string(), sig()), ("json.parse".to_string(), sig())],
    }
}

fn span(line: u32, start: u32, end: u32) -> Option<LineSpan> {
    Some(LineSpan { line, start, end })
}

#[test]
fn a_mutable_global_is_found_after_mut() {
    assert_eq!(definition(&schema(), "req", Some(DECLS)), span(1, 11, 14));
}

#[test]
fn a_function_is_found_by_its_full_name() {
    assert_eq!(definition(&schema(), "json.parse", Some(DECLS)), span(3, 7, 17));
    assert_eq!(definition(&schema(), "log.warn", Some(DECLS)), span(2, 8, 16));
}

#[test]
fn a_type_alias_is_found_on_its_type_line() {
    assert_eq!(definition(&schema(), "Person", Some(DECLS)), span(4, 7, 13));
    assert_eq!(local_type_alias_definition("Person", DECLS), span(4, 7, 13));
}

#[test]
fn words_the_schema_does_not_know_have_no_definition() {
    assert_eq!(definition(&schema(), "log", Some(DECLS)), None);
    assert_eq!(definition(&schema(), "nothing", Some(DECLS)), None);
    assert_eq!(definition(&schema(), "req", None), None);
}

#[test]
fn a_namespace_known_to_the_schema_goes_to_its_first_function() {
    let mut s = schema();
    s.globals.push((
        "log".to_string(),
        GlobalEntry { ty: Type::Str, mutable: false, mutable_fields: vec![], doc: None },
    ));
    assert_eq!(definition(&s, "log", Some(DECLS)), span(2, 8, 11));
}

#[test]
fn columns_count_bytes() {
    let src = "type é = str\ntype Café = str";
    assert_eq!(local_type_alias_definition("Café", src), span(1, 5, 10));
    assert_eq!(local_type_alias_definition("Tea", src), None);
}

fn alias_at(source: &str, offset: usize) -> Option<LineSpan> {
    let (line, col) = offset_to_line_col_0(source, offset);
    let word = extract_word_at(source, line, col);
    let found = local_type_alias_definition(&word, source);
    let target = goto_definition(&schema(), source, line, col, None);
    assert_eq!(
        target,
        found.map(|l| DefinitionTarget::Local(SourceRange {
            start_line: l.line,
            start_col: l.start,
            end_line: l.line,
            end_col: l.end,
        }))
    );
    found
}

#[test]
fn goto_definition_resolves_inline_type_alias_usage() {
    let source = "type Person = { name: str color: int }\ndb: { bob: Person tim: Person } = { bob:{ name:\"Bob\" color:1 } tim:{ name:\"Tim\" color:2 } }\nv = db.bob";
    let usage_offset = source.find("bob: Person").expect("alias usage should exist") + "bob: ".len();
    let loc = alias_at(source, usage_offset).expect("definition");
    assert_eq!(loc.line, 0);
    assert_eq!(loc.start, 5);
    assert_eq!(loc, LineSpan { line: 0, start: 5, end: 11 });
}

#[test]
fn goto_definition_resolves_inline_type_alias_usage_in_value_annotation() {
    let source = "type Person = { name: str color: int }\nx: Person = { name:\"Ada\" color:7 }\nx";
    let usage_offset = source.find("x: Person").expect("alias usage should exist") + "x: ".len();
    let loc = alias_at(source, usage_offset).expect("definition");
    assert_eq!(loc.line, 0);
    assert_eq!(loc.start, 5);
}

#[test]
fn goto_definition_falls_back_to_the_declaration_source() {
    let source = "req.method\nlog.warn(1)";
    let target = goto_definition(&schema(), source, 0, 1, Some(DECLS));
    assert_eq!(target, Some(DefinitionTarget::Declared(LineSpan { line: 1, start: 11, end: 14 })));
    let f = goto_definition(&schema(), source, 1, 5, Some(DECLS));
    assert_eq!(f, Some(DefinitionTarget::Declared(LineSpan { line: 2, start: 8, end: 16 })));
    assert_eq!(goto_definition(&schema(), source, 0, 1, None), None);
}
