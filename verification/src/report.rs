//! The report of checking a file: one line per diagnostic, with where it
//! is, its kind and its message, and a summary of the counts.

use vstd::prelude::*;
use crate::color::{ansi_v, red, yellow};
use crate::env::{Diagnostic, DiagnosticKind};
use crate::position::{lemma_line_col_bounds, line_col_at, offset_to_line_col_0};
use crate::text::{push_str, str_to_string};
use crate::value::{decimal, push_decimal};

verus! {

/// The line of the report for the diagnostic `d` of the file `path`: the
/// 1-based line and column of the start of its span in `source`, its kind
/// (in red or yellow when `color`) and its message.
pub open spec fn diag_line(path: Seq<char>, source: Seq<char>, d: Diagnostic, color: bool) -> Seq<char> {
    let line = line_col_at(source, d.span_start as int).0;
    let col = line_col_at(source, d.span_start as int).1;
    let kind = if d.kind == DiagnosticKind::Error {
        ansi_v("31"@, "error:"@, color)
    } else {
        ansi_v("33"@, "warning:"@, color)
    };
    path + ":"@ + decimal(line as nat) + ":"@ + decimal(col as nat) + ": "@ + kind + " "@
        + d.message@ + "\n"@
}

/// The lines of the report for the diagnostics `ds`, in order.
pub open spec fn report_v(path: Seq<char>, source: Seq<char>, ds: Seq<Diagnostic>, color: bool) -> Seq<char>
    decreases ds.len(),
{
    if ds.len() == 0 {
        Seq::empty()
    } else {
        report_v(path, source, ds.drop_last(), color) + diag_line(path, source, ds.last(), color)
    }
}

/// The number of the diagnostics `ds` of kind `k`.
pub open spec fn count_kind(ds: Seq<Diagnostic>, k: DiagnosticKind) -> nat
    decreases ds.len(),
{
    if ds.len() == 0 {
        0
    } else {
        count_kind(ds.drop_last(), k) + if ds.last().kind == k {
            1nat
        } else {
            0nat
        }
    }
}

/// `n` and `word`, plural unless `n` is 1.
pub open spec fn counted(n: nat, word: Seq<char>) -> Seq<char> {
    decimal(n) + " "@ + word + if n == 1 {
        Seq::<char>::empty()
    } else {
        "s"@
    }
}

/// The summary after the reports: nothing when there is no diagnostic, else
/// an empty line and the counts of errors (red) and of warnings (yellow)
/// that are not zero, separated by a comma.
pub open spec fn summary_v(errors: nat, warnings: nat, color: bool) -> Seq<char> {
    let e = ansi_v("31"@, counted(errors, "error"@), color);
    let w = ansi_v("33"@, counted(warnings, "warning"@), color);
    if errors == 0 && warnings == 0 {
        Seq::empty()
    } else if errors > 0 && warnings > 0 {
        "\n"@ + e + ", "@ + w + "\n"@
    } else if errors > 0 {
        "\n"@ + e + "\n"@
    } else {
        "\n"@ + w + "\n"@
    }
}

/// The report of the diagnostics `diags` of the file `path` whose text is
/// `source` (see `report_v`), with the number of errors and of warnings.
pub fn check_report(path: &str, source: &str, diags: &Vec<Diagnostic>, color: bool) -> (r: (String, usize, usize))
    requires
        source@.len() < u32::MAX,
    ensures
        r.0@ == report_v(path@, source@, diags@, color),
        r.1 == count_kind(diags@, DiagnosticKind::Error),
        r.2 == count_kind(diags@, DiagnosticKind::Warning),
{
    let mut out = String::new();
    let mut errors: usize = 0;
    let mut warnings: usize = 0;
    let mut i: usize = 0;
    proof {
        assert(diags@.take(0) =~= Seq::<Diagnostic>::empty());
    }
    while i < diags.len()
        invariant
            0 <= i <= diags@.len(),
            source@.len() < u32::MAX,
            out@ == report_v(path@, source@, diags@.take(i as int), color),
            errors == count_kind(diags@.take(i as int), DiagnosticKind::Error),
            warnings == count_kind(diags@.take(i as int), DiagnosticKind::Warning),
            errors + warnings == i,
        decreases diags@.len() - i,
    {
        let d = &diags[i];
        let ghost before = out@;
        let (l0, c0) = offset_to_line_col_0(source, d.span_start);
        proof {
            let lc = line_col_at(source@, d.span_start as int);
            lemma_line_col_bounds(source@.take(crate::position::chars_before(source@, d.span_start as int)));
            assert(lc.0 >= 1 && lc.1 >= 1);
        }
        push_str(&mut out, path);
        push_str(&mut out, ":");
        push_decimal(&mut out, l0 as u64 + 1);
        push_str(&mut out, ":");
        push_decimal(&mut out, c0 as u64 + 1);
        push_str(&mut out, ": ");
        let is_error = d.kind == DiagnosticKind::Error;
        let kind = if is_error {
            red("error:", color)
        } else {
            yellow("warning:", color)
        };
        push_str(&mut out, kind.as_str());
        push_str(&mut out, " ");
        push_str(&mut out, d.message.as_str());
        push_str(&mut out, "\n");
        proof {
            assert(diags@.take(i + 1).drop_last() =~= diags@.take(i as int));
            assert(diags@.take(i + 1).last() == *d);
            assert(out@ =~= before + diag_line(path@, source@, *d, color));
        }
        if is_error {
            errors += 1;
        } else {
            warnings += 1;
        }
        i += 1;
    }
    proof {
        assert(diags@.take(diags@.len() as int) =~= diags@);
    }
    (out, errors, warnings)
}

/// Appends `n` and `word`, plural unless `n` is 1 (see `counted`).
fn counted_text(n: usize, word: &str) -> (r: String)
    ensures
        r@ == counted(n as nat, word@),
{
    let mut out = String::new();
    push_decimal(&mut out, n as u64);
    push_str(&mut out, " ");
    push_str(&mut out, word);
    if n != 1 {
        push_str(&mut out, "s");
    }
    proof {
        if n == 1 {
            assert(out@ =~= counted(n as nat, word@));
        }
    }
    out
}

/// The summary of `errors` errors and `warnings` warnings (see `summary_v`).
pub fn check_summary(errors: usize, warnings: usize, color: bool) -> (r: String)
    ensures
        r@ == summary_v(errors as nat, warnings as nat, color),
{
    if errors == 0 && warnings == 0 {
        return String::new();
    }
    let et = counted_text(errors, "error");
    let wt = counted_text(warnings, "warning");
    let e = red(et.as_str(), color);
    let w = yellow(wt.as_str(), color);
    let mut out = str_to_string("\n");
    if errors > 0 {
        push_str(&mut out, e.as_str());
        if warnings > 0 {
            push_str(&mut out, ", ");
            push_str(&mut out, w.as_str());
        }
    } else {
        push_str(&mut out, w.as_str());
    }
    push_str(&mut out, "\n");
    out
}

} // verus!
