//! Go-to-definition: the line and columns where an `extern` or a `type`
//! declares a name in a declaration source, and the choice, at a position
//! of a document, between its own definitions and the declarations.

use vstd::prelude::*;
use crate::cursor::{alphanumeric, byte_len, is_alphanumeric};
use crate::env::{DomainSchema, find_global, global_names};
use crate::heap::str_index;
use crate::hover::{find_function, function_names};
use crate::markdown::{is_white_space, line_starts_with, split_lines, starts_with, text_lines, white_space};
use crate::text::{char_width, lemma_utf8_len_add, str_chars, utf8_len, utf8_width};
use crate::types::{field_views, find_field, key_index};
use crate::cursor::{end_of_word, lemma_position_index, position_index, position_of, start_of_word, word_around};
use crate::locals::{
    SourceRange, def_span_in, last_def, nav_in_tree, nav_target, range_at, range_of, tree_of,
    type_key_range, type_key_span_in,
};
use crate::syntax::{Element, Node};
use crate::text::chars_slice_to_string;

verus! {

/// A span within one line: the 0-based line and the start and end columns.
#[derive(Debug, Clone, Copy, PartialEq, Eq, Structural)]
pub struct LineSpan {
    pub line: u32,
    pub start: u32,
    pub end: u32,
}

/// `s` without its leading white space (`str::trim_start`).
pub open spec fn trim_start_v(s: Seq<char>) -> Seq<char>
    decreases s.len(),
{
    if s.len() > 0 && is_white_space(s[0]) {
        trim_start_v(s.drop_first())
    } else {
        s
    }
}

/// `s` without its trailing white space (`str::trim_end`).
pub open spec fn trim_end_v(s: Seq<char>) -> Seq<char>
    decreases s.len(),
{
    if s.len() > 0 && is_white_space(s.last()) {
        trim_end_v(s.drop_last())
    } else {
        s
    }
}

/// `s` without white space at either end (`str::trim`).
pub open spec fn trim_v(s: Seq<char>) -> Seq<char> {
    trim_end_v(trim_start_v(s))
}

/// Whether `c` may stand in a declared name: alphanumeric or `_`, and
/// also `.` when `dotted`.
pub open spec fn name_char(c: char, dotted: bool) -> bool {
    alphanumeric(c) || c == '_' || (dotted && c == '.')
}

/// The length of the name at the start of `s`.
pub open spec fn name_len_from(s: Seq<char>, i: int, dotted: bool) -> int
    decreases s.len() - i,
{
    if i < 0 || i >= s.len() || !name_char(s[i], dotted) {
        i
    } else {
        name_len_from(s, i + 1, dotted)
    }
}

/// The name at the start of `s`.
pub open spec fn leading_name(s: Seq<char>, dotted: bool) -> Seq<char> {
    s.take(name_len_from(s, 0, dotted))
}

/// The name that a `type` line declares.
pub open spec fn type_decl_name(line: Seq<char>) -> Option<Seq<char>> {
    let t = trim_v(line);
    if starts_with(t, seq!['t', 'y', 'p', 'e', ' ']) || starts_with(t, seq!['t', 'y', 'p', 'e', '\t']) {
        Option::Some(leading_name(trim_v(t.skip(5)), false))
    } else {
        Option::None
    }
}

/// The (dotted) name that an `extern` line declares, after a `mut`.
pub open spec fn extern_decl_name(line: Seq<char>) -> Option<Seq<char>> {
    let t = trim_v(line);
    if starts_with(t, seq!['e', 'x', 't', 'e', 'r', 'n', ' ']) || starts_with(
        t,
        seq!['e', 'x', 't', 'e', 'r', 'n', '\t'],
    ) {
        let rest = trim_v(t.skip(7));
        let rest = if starts_with(rest, seq!['m', 'u', 't', ' ']) {
            trim_v(rest.skip(4))
        } else {
            rest
        };
        Option::Some(leading_name(rest, true))
    } else {
        Option::None
    }
}

/// Index of the first occurrence of `word` in `line` at or after `i`, or -1.
pub open spec fn find_from(line: Seq<char>, word: Seq<char>, i: int) -> int
    decreases line.len() + 1 - i,
{
    if i < 0 || i + word.len() > line.len() {
        -1
    } else if line.subrange(i, i + word.len()) == word {
        i
    } else {
        find_from(line, word, i + 1)
    }
}

/// The byte column where `word` first occurs in `line`, or 0.
pub open spec fn word_col(line: Seq<char>, word: Seq<char>) -> int {
    let i = find_from(line, word, 0);
    if i >= 0 {
        utf8_len(line.take(i)) as int
    } else {
        0
    }
}

/// The span of `word` on line `n`: from its first occurrence, as long as
/// its UTF-8 encoding (columns are bytes, truncated to 32 bits).
pub open spec fn word_span(n: int, line: Seq<char>, word: Seq<char>) -> LineSpan {
    LineSpan {
        line: n as u32,
        start: word_col(line, word) as u32,
        end: (word_col(line, word) + utf8_len(word)) as u32,
    }
}

/// The first line from `i` on that declares `word` with `type`.
pub open spec fn type_decl_from(lines: Seq<Seq<char>>, word: Seq<char>, i: int) -> Option<LineSpan>
    decreases lines.len() - i,
{
    if i < 0 || i >= lines.len() {
        Option::None
    } else if type_decl_name(lines[i]) == Option::Some(word) {
        Option::Some(word_span(i, lines[i], word))
    } else {
        type_decl_from(lines, word, i + 1)
    }
}

/// Whether `line` declares `word`: an `extern` of that name or of a
/// function under it (`word.method`), or a `type` of that name.
pub open spec fn declares(line: Seq<char>, word: Seq<char>) -> bool {
    let by_extern = match extern_decl_name(line) {
        Option::Some(id) => id == word || starts_with(id, word + seq!['.']),
        Option::None => false,
    };
    by_extern || type_decl_name(line) == Option::Some(word)
}

/// The first line from `i` on that declares `word`.
pub open spec fn decl_from(lines: Seq<Seq<char>>, word: Seq<char>, i: int) -> Option<LineSpan>
    decreases lines.len() - i,
{
    if i < 0 || i >= lines.len() {
        Option::None
    } else if declares(lines[i], word) {
        Option::Some(word_span(i, lines[i], word))
    } else {
        decl_from(lines, word, i + 1)
    }
}

/// Whether the schema names `word`: a global, a function or a type alias.
pub open spec fn schema_knows(schema: DomainSchema, word: Seq<char>) -> bool {
    str_index(global_names(schema.globals@), word) >= 0 || str_index(
        function_names(schema.functions@),
        word,
    ) >= 0 || key_index(field_views(schema.type_aliases@), word) >= 0
}

/// `cs` without white space at either end.
pub(crate) fn trim_chars(cs: &Vec<char>) -> (r: Vec<char>)
    ensures
        r@ == trim_v(cs@),
{
    let mut a: usize = 0;
    proof {
        assert(cs@.skip(0) =~= cs@);
    }
    while a < cs.len() && white_space(cs[a])
        invariant
            0 <= a <= cs@.len(),
            trim_start_v(cs@) == trim_start_v(cs@.skip(a as int)),
        decreases cs@.len() - a,
    {
        proof {
            assert(cs@.skip(a as int).drop_first() =~= cs@.skip(a + 1));
        }
        a += 1;
    }
    proof {
        assert(trim_start_v(cs@.skip(a as int)) == cs@.skip(a as int));
    }
    let mut b: usize = cs.len();
    proof {
        assert(cs@.subrange(a as int, b as int) =~= cs@.skip(a as int));
    }
    while b > a && white_space(cs[b - 1])
        invariant
            a <= b <= cs@.len(),
            trim_v(cs@) == trim_end_v(cs@.subrange(a as int, b as int)),
        decreases b,
    {
        proof {
            assert(cs@.subrange(a as int, b as int).drop_last() =~= cs@.subrange(a as int, b - 1));
        }
        b -= 1;
    }
    crate::lexer::slice_chars(cs, a, b)
}

/// The characters of `cs` from `k` on.
fn skip_chars(cs: &Vec<char>, k: usize) -> (r: Vec<char>)
    requires
        k <= cs@.len(),
    ensures
        r@ == cs@.skip(k as int),
{
    let r = crate::lexer::slice_chars(cs, k, cs.len());
    proof {
        assert(r@ =~= cs@.skip(k as int));
    }
    r
}

/// The name at the start of `s`.
fn take_name(s: &Vec<char>, dotted: bool) -> (r: Vec<char>)
    ensures
        r@ == leading_name(s@, dotted),
{
    let mut i: usize = 0;
    while i < s.len() && (is_alphanumeric(s[i]) || s[i] == '_' || (dotted && s[i] == '.'))
        invariant
            0 <= i <= s@.len(),
            name_len_from(s@, 0, dotted) == name_len_from(s@, i as int, dotted),
        decreases s@.len() - i,
    {
        i += 1;
    }
    let r = crate::lexer::slice_chars(s, 0, i);
    proof {
        assert(r@ =~= s@.take(i as int));
    }
    r
}

/// The name that a `type` line declares.
fn type_name_of(line: &Vec<char>) -> (r: Option<Vec<char>>)
    ensures
        match r {
            Option::Some(n) => type_decl_name(line@) == Option::Some(n@),
            Option::None => type_decl_name(line@) is None,
        },
{
    let t = trim_chars(line);
    if line_starts_with(&t, &['t', 'y', 'p', 'e', ' ']) || line_starts_with(
        &t,
        &['t', 'y', 'p', 'e', '\t'],
    ) {
        let rest = trim_chars(&skip_chars(&t, 5));
        Option::Some(take_name(&rest, false))
    } else {
        Option::None
    }
}

/// The name that an `extern` line declares.
fn extern_name_of(line: &Vec<char>) -> (r: Option<Vec<char>>)
    ensures
        match r {
            Option::Some(n) => extern_decl_name(line@) == Option::Some(n@),
            Option::None => extern_decl_name(line@) is None,
        },
{
    let t = trim_chars(line);
    if line_starts_with(&t, &['e', 'x', 't', 'e', 'r', 'n', ' ']) || line_starts_with(
        &t,
        &['e', 'x', 't', 'e', 'r', 'n', '\t'],
    ) {
        let rest = trim_chars(&skip_chars(&t, 7));
        let rest = if line_starts_with(&rest, &['m', 'u', 't', ' ']) {
            trim_chars(&skip_chars(&rest, 4))
        } else {
            rest
        };
        Option::Some(take_name(&rest, true))
    } else {
        Option::None
    }
}

/// Whether `a` and `b` hold the same characters.
fn chars_eq(a: &Vec<char>, b: &Vec<char>) -> (r: bool)
    ensures
        r == (a@ == b@),
{
    if a.len() != b.len() {
        return false;
    }
    let mut i: usize = 0;
    while i < a.len()
        invariant
            0 <= i <= a@.len(),
            a@.len() == b@.len(),
            forall|j: int| 0 <= j < i ==> a@[j] == b@[j],
        decreases a@.len() - i,
    {
        if a[i] != b[i] {
            return false;
        }
        i += 1;
    }
    proof {
        assert(a@ =~= b@);
    }
    true
}

/// Whether `line` holds `word` at index `i`.
fn occurs_at(line: &Vec<char>, word: &Vec<char>, i: usize) -> (r: bool)
    requires
        i + word.len() <= line.len(),
    ensures
        r == (line@.subrange(i as int, i + word@.len()) == word@),
{
    let mut j: usize = 0;
    while j < word.len()
        invariant
            0 <= j <= word@.len(),
            i + word.len() <= line.len(),
            forall|k: int| 0 <= k < j ==> line@[i + k] == word@[k],
        decreases word@.len() - j,
    {
        if line[i + j] != word[j] {
            proof {
                assert(line@.subrange(i as int, i + word@.len())[j as int] != word@[j as int]);
            }
            return false;
        }
        j += 1;
    }
    proof {
        assert(line@.subrange(i as int, i + word@.len()) =~= word@);
    }
    true
}

/// The byte column of the first occurrence of `word` in `line`, or 0.
fn column_of(line: &Vec<char>, word: &Vec<char>) -> (r: usize)
    requires
        utf8_len(line@) <= usize::MAX,
    ensures
        r == word_col(line@, word@),
        r <= utf8_len(line@),
{
    let mut i: usize = 0;
    let mut byte: usize = 0;
    proof {
        assert(line@.take(0) =~= Seq::<char>::empty());
    }
    while word.len() <= line.len() - i
        invariant
            0 <= i <= line.len(),
            utf8_len(line@) <= usize::MAX,
            byte == utf8_len(line@.take(i as int)),
            find_from(line@, word@, 0) == find_from(line@, word@, i as int),
        decreases line@.len() - i,
    {
        if occurs_at(line, word, i) {
            proof {
                lemma_utf8_len_add(line@.take(i as int), line@.skip(i as int));
                assert(line@.take(i as int) + line@.skip(i as int) =~= line@);
            }
            return byte;
        }
        proof {
            if word@.len() == 0 {
                assert(line@.subrange(i as int, i as int) =~= word@);
            }
        }
        let c = line[i];
        proof {
            assert(line@.take(i + 1) =~= line@.take(i as int) + seq![c]);
            lemma_utf8_len_add(line@.take(i as int), seq![c]);
            assert(seq![c].drop_last() =~= Seq::<char>::empty());
            assert(utf8_len(Seq::<char>::empty()) == 0);
            assert(utf8_len(seq![c]) == utf8_width(c));
            lemma_utf8_len_add(line@.take(i + 1), line@.skip(i + 1));
            assert(line@.take(i + 1) + line@.skip(i + 1) =~= line@);
        }
        byte = byte + char_width(c);
        i += 1;
    }
    0
}

/// The number of bytes of `cs`.
fn bytes_of(cs: &Vec<char>) -> (r: u128)
    ensures
        r == utf8_len(cs@),
        r <= 4 * cs.len(),
{
    let mut n: u128 = 0;
    let mut i: usize = 0;
    proof {
        assert(cs@.take(0) =~= Seq::<char>::empty());
    }
    while i < cs.len()
        invariant
            0 <= i <= cs@.len(),
            n == utf8_len(cs@.take(i as int)),
            n <= 4 * i,
        decreases cs@.len() - i,
    {
        let c = cs[i];
        proof {
            assert(cs@.take(i + 1) =~= cs@.take(i as int) + seq![c]);
            lemma_utf8_len_add(cs@.take(i as int), seq![c]);
            assert(seq![c].drop_last() =~= Seq::<char>::empty());
            assert(utf8_len(Seq::<char>::empty()) == 0);
            assert(utf8_len(seq![c]) == utf8_width(c));
        }
        n = n + char_width(c) as u128;
        i += 1;
    }
    proof {
        assert(cs@.take(cs@.len() as int) =~= cs@);
    }
    n
}

/// The span of `word` on line `n`.
fn span_of(n: usize, line: &Vec<char>, word: &Vec<char>) -> (r: LineSpan)
    requires
        utf8_len(line@) <= usize::MAX,
    ensures
        r == word_span(n as int, line@, word@),
{
    let col = column_of(line, word);
    let w = bytes_of(word);
    let end: u128 = col as u128 + w;
    LineSpan { line: n as u32, start: col as u32, end: end as u32 }
}

/// Whether `id` is `word` or starts with `word` and a `.`.
fn names_word(id: &Vec<char>, word: &Vec<char>) -> (r: bool)
    ensures
        r == (id@ == word@ || starts_with(id@, word@ + seq!['.'])),
{
    if chars_eq(id, word) {
        return true;
    }
    if id.len() <= word.len() {
        return false;
    }
    let mut i: usize = 0;
    while i < word.len()
        invariant
            0 <= i <= word@.len(),
            word@.len() < id@.len(),
            forall|j: int| 0 <= j < i ==> id@[j] == word@[j],
        decreases word@.len() - i,
    {
        if id[i] != word[i] {
            proof {
                assert(id@.take(word@.len() as int + 1)[i as int] != (word@ + seq!['.'])[i as int]);
            }
            return false;
        }
        i += 1;
    }
    let dot = id[word.len()] == '.';
    proof {
        if dot {
            assert(id@.take(word@.len() as int + 1) =~= word@ + seq!['.']);
        } else {
            assert(id@.take(word@.len() as int + 1)[word@.len() as int] != (word@ + seq!['.'])[word@.len() as int]);
        }
    }
    dot
}

/// Where the line of `source` that declares `word` with `type` is: the
/// first such line, and the span of the first occurrence of `word` on it.
pub fn local_type_alias_definition(word: &str, source: &str) -> (r: Option<LineSpan>)
    requires
        source@.len() + 4 <= usize::MAX,
    ensures
        r == type_decl_from(text_lines(source@), word@, 0),
{
    let chars = str_chars(source);
    let _n = byte_len(source);
    let lines = split_lines(&chars);
    let w = str_chars(word);
    let ghost ls = text_lines(source@);
    let mut i: usize = 0;
    while i < lines.len()
        invariant
            0 <= i <= lines@.len(),
            lines@.len() == ls.len(),
            ls == text_lines(source@),
            w@ == word@,
            forall|k: int| 0 <= k < lines@.len() ==> (#[trigger] lines@[k])@ == ls[k],
            utf8_len(source@) <= usize::MAX,
            type_decl_from(ls, word@, 0) == type_decl_from(ls, word@, i as int),
        decreases lines@.len() - i,
    {
        let line = &lines[i];
        proof {
            assert(line@ == ls[i as int]);
        }
        match type_name_of(line) {
            Option::Some(n) => {
                if chars_eq(&n, &w) {
                    proof {
                        lemma_text_line_bytes(source@, i as int);
                    }
                    return Option::Some(span_of(i, line, &w));
                }
            },
            Option::None => {},
        }
        i += 1;
    }
    Option::None
}

/// Where `word`, a name of the schema, is declared in the declaration
/// source: the first line that declares it with `extern` (as itself or as
/// the namespace of a function) or with `type`, and the span of the first
/// occurrence of `word` on that line. Nothing for a word that the schema
/// does not name, or without a declaration source.
pub fn definition(schema: &DomainSchema, word: &str, decl_source: Option<&str>) -> (r: Option<
    LineSpan,
>)
    requires
        decl_source matches Option::Some(s) ==> s@.len() + 4 <= usize::MAX,
    ensures
        r == match decl_source {
            Option::Some(s) => if schema_knows(*schema, word@) {
                decl_from(text_lines(s@), word@, 0)
            } else {
                Option::None
            },
            Option::None => Option::None,
        },
{
    let source = match decl_source {
        Option::Some(s) => s,
        Option::None => {
            return Option::None;
        },
    };
    let known = find_global(&schema.globals, word).is_some() || find_function(
        &schema.functions,
        word,
    ).is_some() || find_field(&schema.type_aliases, word).is_some();
    if !known {
        return Option::None;
    }
    let chars = str_chars(source);
    let _n = byte_len(source);
    let lines = split_lines(&chars);
    let w = str_chars(word);
    let ghost ls = text_lines(source@);
    let mut i: usize = 0;
    while i < lines.len()
        invariant
            0 <= i <= lines@.len(),
            lines@.len() == ls.len(),
            ls == text_lines(source@),
            w@ == word@,
            forall|k: int| 0 <= k < lines@.len() ==> (#[trigger] lines@[k])@ == ls[k],
            utf8_len(source@) <= usize::MAX,
            schema_knows(*schema, word@),
            decl_source == Option::Some(source),
            decl_from(ls, word@, 0) == decl_from(ls, word@, i as int),
        decreases lines@.len() - i,
    {
        let line = &lines[i];
        proof {
            assert(line@ == ls[i as int]);
        }
        let ext = match extern_name_of(line) {
            Option::Some(id) => names_word(&id, &w),
            Option::None => false,
        };
        let ty = match type_name_of(line) {
            Option::Some(n) => chars_eq(&n, &w),
            Option::None => false,
        };
        if ext || ty {
            proof {
                lemma_text_line_bytes(source@, i as int);
            }
            return Option::Some(span_of(i, line, &w));
        }
        i += 1;
    }
    Option::None
}

/// Each line of a text has at most as many bytes as the text.
proof fn lemma_text_line_bytes(s: Seq<char>, i: int)
    requires
        0 <= i < text_lines(s).len(),
    ensures
        utf8_len(text_lines(s)[i]) <= utf8_len(s),
    decreases s.len(),
{
    crate::markdown::lemma_first_newline(s);
    let k = crate::markdown::first_newline(s);
    if k >= s.len() {
    } else {
        let head = crate::markdown::strip_cr(s.take(k));
        lemma_utf8_len_add(s.take(k), s.skip(k));
        assert(s.take(k) + s.skip(k) =~= s);
        lemma_utf8_len_add(s.skip(k).take(1), s.skip(k + 1));
        assert(s.skip(k).take(1) + s.skip(k + 1) =~= s.skip(k));
        if i == 0 {
            if s.take(k).len() > 0 && s.take(k).last() == '\r' {
                lemma_utf8_len_add(s.take(k).drop_last(), seq![s.take(k).last()]);
                assert(s.take(k).drop_last() + seq![s.take(k).last()] =~= s.take(k));
            }
        } else {
            lemma_text_line_bytes(s.skip(k + 1), i - 1);
        }
    }
}

// ── Go-to-definition at a position ──────────────────────────────────────

/// Where a definition is: a range of the document itself, or a span of the
/// declaration source.
#[derive(Debug, Clone, Copy, PartialEq, Eq, Structural)]
pub enum DefinitionTarget {
    Local(SourceRange),
    Declared(LineSpan),
}

/// The declaration of `word` in the declaration source `decl`, if the
/// schema names it (see `definition`).
pub open spec fn declared_v(schema: DomainSchema, word: Seq<char>, decl: Option<Seq<char>>) -> Option<LineSpan> {
    match decl {
        Option::Some(d) => if schema_knows(schema, word) {
            decl_from(text_lines(d), word, 0)
        } else {
            Option::None
        },
        Option::None => Option::None,
    }
}

/// The declaration source as characters.
pub open spec fn decl_view(decl: Option<&str>) -> Option<Seq<char>> {
    match decl {
        Option::Some(d) => Option::Some(d@),
        Option::None => Option::None,
    }
}

/// Where go-to-definition at the 0-based (`line`, `character`) position of
/// `s` (whose tree is `root`) leads, trying in turn: the `type` declaration
/// of the word there, the last key of that name of an object type before
/// it, the definition of the part of the navigation under the cursor, the
/// declaration of the navigation, the last local definition of the word
/// before it, and the declaration of the word.
pub open spec fn goto_v(schema: DomainSchema, root: Node, s: Seq<char>, line: int, character: int, decl: Option<Seq<char>>) -> Option<DefinitionTarget> {
    let p = position_index(s, line, character);
    let word = word_around(s, p, false);
    let dot = word_around(s, p, true);
    let offset = utf8_len(s.take(p)) as int;
    if word.len() == 0 {
        Option::None
    } else if type_decl_from(text_lines(s), word, 0) is Some {
        let l = type_decl_from(text_lines(s), word, 0).unwrap();
        Option::Some(
            DefinitionTarget::Local(
                SourceRange { start_line: l.line, start_col: l.start, end_line: l.line, end_col: l.end },
            ),
        )
    } else if type_key_range(root, s, word, offset) is Some {
        Option::Some(DefinitionTarget::Local(type_key_range(root, s, word, offset).unwrap()))
    } else if dot.len() > 0 && nav_target(root, s, dot, offset) is Some {
        let (a, b) = nav_target(root, s, dot, offset).unwrap();
        Option::Some(DefinitionTarget::Local(range_at(s, a, b)))
    } else if dot.len() > 0 && declared_v(schema, dot, decl) is Some {
        Option::Some(DefinitionTarget::Declared(declared_v(schema, dot, decl).unwrap()))
    } else if last_def(Element::Node(root), 0, word, offset) is Some {
        let d = last_def(Element::Node(root), 0, word, offset).unwrap();
        Option::Some(DefinitionTarget::Local(range_at(s, d.start, d.end)))
    } else {
        match declared_v(schema, word, decl) {
            Option::Some(l) => Option::Some(DefinitionTarget::Declared(l)),
            Option::None => Option::None,
        }
    }
}

/// Where go-to-definition at the 0-based (`line`, `character`) position of
/// `source` leads (see `goto_v`); `decl_source` is the text of the
/// declaration file, if there is one.
pub fn goto_definition(schema: &DomainSchema, source: &str, line: u32, character: u32, decl_source: Option<&str>) -> (r: Option<DefinitionTarget>)
    requires
        source@.len() < u32::MAX,
        source@.len() + 4 <= usize::MAX,
        decl_source matches Option::Some(d) ==> d@.len() + 4 <= usize::MAX,
    ensures
        exists|root: Node| tree_of(root, source@) && r == goto_v(*schema, root, source@, line as int, character as int, decl_view(decl_source)),
{
    let root = crate::parser::parse(source);
    let ghost s = source@;
    proof {
        assert(tree_of(root, s));
    }
    let chars = str_chars(source);
    let _total = byte_len(source);
    let (p, offset) = position_of(&chars, line, character);
    proof {
        lemma_position_index(s, line as int, character as int, 0);
    }
    let ws = start_of_word(&chars, p, false);
    let we = end_of_word(&chars, p, false);
    if ws == we {
        proof {
            assert(word_around(s, p as int, false).len() == 0);
        }
        return Option::None;
    }
    let word = chars_slice_to_string(&chars, ws, we);
    let wv = str_chars(word.as_str());
    match local_type_alias_definition(word.as_str(), source) {
        Option::Some(l) => {
            return Option::Some(
                DefinitionTarget::Local(
                    SourceRange { start_line: l.line, start_col: l.start, end_line: l.line, end_col: l.end },
                ),
            );
        },
        Option::None => {},
    }
    match type_key_span_in(&root, source, &wv, offset) {
        Option::Some((a, b)) => {
            return Option::Some(DefinitionTarget::Local(range_of(source, a, b)));
        },
        Option::None => {},
    }
    let ds = start_of_word(&chars, p, true);
    let de = end_of_word(&chars, p, true);
    if ds < de {
        let dot = chars_slice_to_string(&chars, ds, de);
        let dv = str_chars(dot.as_str());
        let db = byte_len(dot.as_str());
        match nav_in_tree(&root, source, &dv, db, offset) {
            Option::Some((a, b)) => {
                return Option::Some(DefinitionTarget::Local(range_of(source, a, b)));
            },
            Option::None => {},
        }
        match definition(schema, dot.as_str(), decl_source) {
            Option::Some(l) => {
                return Option::Some(DefinitionTarget::Declared(l));
            },
            Option::None => {},
        }
    }
    match def_span_in(&root, source, &wv, offset) {
        Option::Some((a, b)) => {
            return Option::Some(DefinitionTarget::Local(range_of(source, a, b)));
        },
        Option::None => {},
    }
    match definition(schema, word.as_str(), decl_source) {
        Option::Some(l) => Option::Some(DefinitionTarget::Declared(l)),
        Option::None => Option::None,
    }
}

} // verus!
