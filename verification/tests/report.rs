use rex_core::env::{Diagnostic, DiagnosticKind};
use rex_core::report::{check_report, check_summary};

fn diag(kind: DiagnosticKind, start: usize, message: &str) -> Diagnostic {
    Diagnostic { kind, span_start: start, span_end: start + 1, message: message.to_string() }
}

#[test]
fn a_report_has_one_line_per_diagnostic_with_its_position() {
    let source = "x = 1\ny = zz";
    let diags = vec![diag(DiagnosticKind::Error, 4, "bad"), diag(DiagnosticKind::Warning, 10, "meh")];
    let (text, errors, warnings) = check_report("a.rex", source, &diags, false);
    assert_eq!(text, "a.rex:1:5: error: bad\na.rex:2:5: warning: meh\n");
    assert_eq!((errors, warnings), (1, 1));
    let (colored, _, _) = check_report("a.rex", source, &vec![diag(DiagnosticKind::Error, 4, "bad")], true);
    assert_eq!(colored, "a.rex:1:5: \x1b[31merror:\x1b[0m bad\n");
    assert_eq!(check_report("a.rex", source, &vec![], false), (String::new(), 0, 0));
}

#[test]
fn a_summary_counts_errors_and_warnings() {
    assert_eq!(check_summary(1, 1, false), "\n1 error, 1 warning\n");
    assert_eq!(check_summary(2, 0, false), "\n2 errors\n");
    assert_eq!(check_summary(0, 3, true), "\n\x1b[33m3 warnings\x1b[0m\n");
    assert_eq!(check_summary(0, 0, true), "");
}
