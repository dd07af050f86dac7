//! Semantic highlighting: which identifiers of a document are variables,
//! properties, functions, types or loop bindings, as the relative entries
//! that editors read.

use vstd::prelude::*;
use crate::cursor::brace_depth;
use crate::lexer::{lex, lex_v, word_is};
use crate::position::{lemma_line_col_bounds, line_col_after};
use crate::syntax::{SyntaxKind, Token, concat_texts, lemma_concat_texts_append, token_views};
use crate::text::{char_width, lemma_utf8_len_add, str_chars, utf8_len, utf8_width};

verus! {

/// One highlighted identifier, placed relative to the one before it: the
/// lines between their starts, and the columns between them when on the same
/// line (else its column); its length in bytes; its type (0 variable,
/// 1 property, 2 function, 3 type, 4 parameter) and modifier bits (2: from
/// the default library).
#[derive(Debug, Clone, Copy, PartialEq, Eq)]
pub struct SemanticToken {
    pub delta_line: u32,
    pub delta_start: u32,
    pub length: u32,
    pub token_type: u32,
    pub token_modifiers: u32,
}

/// A sequence of token views.
pub type Toks = Seq<(SyntaxKind, Seq<char>)>;

/// Whether loop bindings go on past a token of kind `k`, when `st` says
/// whether they went on before it: `for` starts them; `in`, `of` or any
/// other token than a name, whitespace, a comma or a colon ends them.
pub open spec fn for_next(st: bool, k: SyntaxKind) -> bool {
    if k == SyntaxKind::KwFor {
        true
    } else if k == SyntaxKind::KwIn || k == SyntaxKind::KwOf {
        false
    } else if st && k != SyntaxKind::Ident && k != SyntaxKind::Whitespace && k != SyntaxKind::Comma
        && k != SyntaxKind::Colon {
        false
    } else {
        st
    }
}

/// Whether the identifiers after the first `n` tokens are loop bindings.
pub open spec fn for_state(ts: Toks, n: int) -> bool
    decreases n,
{
    if n <= 0 || n > ts.len() {
        false
    } else {
        for_next(for_state(ts, n - 1), ts[n - 1].0)
    }
}

/// Index of the first token from `j` on that is not whitespace, or the
/// number of tokens.
pub open spec fn next_index(ts: Toks, j: int) -> int
    decreases ts.len() - j,
{
    if j < 0 || j >= ts.len() {
        ts.len() as int
    } else if ts[j].0 != SyntaxKind::Whitespace {
        j
    } else {
        next_index(ts, j + 1)
    }
}

/// The kind of the last token before index `j` that is not whitespace.
pub open spec fn prev_kind(ts: Toks, j: int) -> Option<SyntaxKind>
    decreases j,
{
    if j <= 0 || j > ts.len() {
        Option::None
    } else if ts[j - 1].0 != SyntaxKind::Whitespace {
        Option::Some(ts[j - 1].0)
    } else {
        prev_kind(ts, j - 1)
    }
}

/// Whether `t` names a built-in type predicate.
pub open spec fn is_predicate_name(t: Seq<char>) -> bool {
    t == "isString"@ || t == "isNumber"@ || t == "isInteger"@ || t == "isBoolean"@ || t
        == "isArray"@ || t == "isObject"@
}

/// Whether `t` names a built-in type.
pub open spec fn is_type_word(t: Seq<char>) -> bool {
    t == "str"@ || t == "int"@ || t == "num"@ || t == "bool"@ || t == "some"@ || t == "never"@
        || t == "unknown"@
}

/// The type and modifiers of identifier `i` of the tokens `ts` of `s`.
pub open spec fn classify(ts: Toks, s: Seq<char>, i: int) -> (u32, u32) {
    let text = ts[i].1;
    let n = next_index(ts, i + 1);
    if is_predicate_name(text) {
        (2, 2)
    } else if is_type_word(text) {
        (3, 0)
    } else if for_state(ts, i + 1) {
        (4, 0)
    } else if prev_kind(ts, i) == Option::Some(SyntaxKind::Dot) {
        (1, 0)
    } else if n < ts.len() && ts[n].0 == SyntaxKind::LParen {
        (2, 0)
    } else if n < ts.len() && ts[n].0 == SyntaxKind::Colon {
        // A colon with no space after it, inside braces, is a key's.
        let after = concat_texts(ts.take(n + 1)).len();
        if after < s.len() && s[after as int] != ' ' && brace_depth(concat_texts(ts.take(i))) > 0 {
            (1, 0)
        } else {
            (0, 0)
        }
    } else {
        (0, 0)
    }
}

/// The semantic tokens of the first `n` tokens of `ts` (the tokens of `s`),
/// with the 0-based line and column of the last one.
pub open spec fn sem_from(ts: Toks, s: Seq<char>, n: int) -> (Seq<SemanticToken>, int, int)
    decreases n,
{
    if n <= 0 || n > ts.len() {
        (Seq::empty(), 0, 0)
    } else {
        let (out, pl, pc) = sem_from(ts, s, n - 1);
        let i = n - 1;
        if ts[i].0 == SyntaxKind::Ident && ts[i].1 != "mut"@ {
            let (l, c) = line_col_after(concat_texts(ts.take(i)));
            let line = l - 1;
            let col = c - 1;
            let dl = line - pl;
            let ds = if dl == 0 { col - pc } else { col };
            let (tt, md) = classify(ts, s, i);
            (
                out.push(
                    SemanticToken {
                        delta_line: dl as u32,
                        delta_start: ds as u32,
                        length: utf8_len(ts[i].1) as u32,
                        token_type: tt,
                        token_modifiers: md,
                    },
                ),
                line,
                col,
            )
        } else {
            (out, pl, pc)
        }
    }
}

// ── Computing them ──────────────────────────────────────────────────────

/// The text of the first `j + 1` tokens is that of the first `j` and then
/// the text of token `j`.
pub(crate) proof fn lemma_take_step(ts: Toks, j: int)
    requires
        0 <= j < ts.len(),
    ensures
        concat_texts(ts.take(j + 1)) == concat_texts(ts.take(j)) + ts[j].1,
{
    assert(ts.take(j + 1).drop_last() =~= ts.take(j));
}

/// The text of the first tokens, and the text of one token, are no longer
/// than the text of all of them, in characters and in bytes.
pub(crate) proof fn lemma_take_within(ts: Toks, j: int)
    requires
        0 <= j < ts.len(),
    ensures
        concat_texts(ts.take(j + 1)).len() <= concat_texts(ts).len(),
        utf8_len(ts[j].1) <= utf8_len(concat_texts(ts)),
        utf8_len(concat_texts(ts.take(j + 1))) == utf8_len(concat_texts(ts.take(j))) + utf8_len(ts[j].1),
        utf8_len(concat_texts(ts.take(j + 1))) <= utf8_len(concat_texts(ts)),
{
    lemma_take_step(ts, j);
    assert(ts.take(j + 1) + ts.skip(j + 1) =~= ts);
    lemma_concat_texts_append(ts.take(j + 1), ts.skip(j + 1));
    lemma_utf8_len_add(concat_texts(ts.take(j + 1)), concat_texts(ts.skip(j + 1)));
    lemma_utf8_len_add(concat_texts(ts.take(j)), ts[j].1);
}

/// Whether `t` spells `lit`.
fn text_is(t: &Vec<char>, lit: &str) -> (r: bool)
    ensures
        r == (t@ == lit@),
{
    let l = str_chars(lit);
    word_is(t.as_slice(), l.as_slice())
}

/// Index of the first token from `j` on that is not whitespace (see
/// `next_index`).
fn next_idx(tokens: &Vec<Token>, j: usize) -> (r: usize)
    ensures
        r == next_index(token_views(tokens@), j as int),
        r <= tokens@.len(),
        j <= tokens@.len() ==> j <= r,
{
    let ghost ts = token_views(tokens@);
    let mut k = j;
    if k >= tokens.len() {
        return tokens.len();
    }
    while k < tokens.len() && tokens[k].kind == SyntaxKind::Whitespace
        invariant
            j <= k <= tokens@.len(),
            ts == token_views(tokens@),
            next_index(ts, j as int) == next_index(ts, k as int),
        decreases tokens@.len() - k,
    {
        proof {
            assert(ts[k as int] == tokens@[k as int]@);
        }
        k += 1;
    }
    proof {
        if k < tokens@.len() {
            assert(ts[k as int] == tokens@[k as int]@);
        }
    }
    k
}

/// The kind of the last token before `j` that is not whitespace.
fn prev_kind_of(tokens: &Vec<Token>, j: usize) -> (r: Option<SyntaxKind>)
    requires
        j <= tokens@.len(),
    ensures
        r == prev_kind(token_views(tokens@), j as int),
{
    let ghost ts = token_views(tokens@);
    let mut k = j;
    while k > 0
        invariant
            k <= j <= tokens@.len(),
            ts == token_views(tokens@),
            prev_kind(ts, j as int) == prev_kind(ts, k as int),
        decreases k,
    {
        proof {
            assert(ts[k - 1] == tokens@[k - 1]@);
        }
        if tokens[k - 1].kind != SyntaxKind::Whitespace {
            return Option::Some(tokens[k - 1].kind);
        }
        k -= 1;
    }
    Option::None
}

/// The number of bytes of the UTF-8 encoding of `v`.
pub(crate) fn utf8_count(v: &Vec<char>, bound: usize) -> (r: usize)
    requires
        utf8_len(v@) <= bound,
    ensures
        r == utf8_len(v@),
{
    let mut n: usize = 0;
    let mut k: usize = 0;
    proof {
        assert(v@.take(0) =~= Seq::<char>::empty());
    }
    while k < v.len()
        invariant
            0 <= k <= v@.len(),
            utf8_len(v@) <= bound,
            n == utf8_len(v@.take(k as int)),
        decreases v@.len() - k,
    {
        proof {
            assert(v@.take(k + 1).drop_last() =~= v@.take(k as int));
            lemma_utf8_len_add(v@.take(k + 1), v@.skip(k + 1));
            assert(v@.take(k + 1) + v@.skip(k + 1) =~= v@);
        }
        n = n + char_width(v[k]);
        k += 1;
    }
    proof {
        assert(v@.take(k as int) =~= v@);
    }
    n
}

/// The type and modifiers of identifier `i` (see `classify`), given the
/// number of characters `cc` before it, the brace depth there and whether it
/// is a loop binding.
fn classify_of(tokens: &Vec<Token>, chars: &Vec<char>, i: usize, cc: usize, depth: i64, in_for: bool) -> (r: (u32, u32))
    requires
        i < tokens@.len(),
        chars@ == concat_texts(token_views(tokens@)),
        chars@.len() < u32::MAX,
        cc == concat_texts(token_views(tokens@).take(i as int)).len(),
        depth == brace_depth(concat_texts(token_views(tokens@).take(i as int))),
        in_for == for_state(token_views(tokens@), i + 1),
    ensures
        r == classify(token_views(tokens@), chars@, i as int),
{
    let ghost ts = token_views(tokens@);
    let _len = tokens.len();
    let text = &tokens[i].text;
    proof {
        assert(ts[i as int].1 == text@);
    }
    if text_is(text, "isString") || text_is(text, "isNumber") || text_is(text, "isInteger")
        || text_is(text, "isBoolean") || text_is(text, "isArray") || text_is(text, "isObject") {
        return (2, 2);
    }
    if text_is(text, "str") || text_is(text, "int") || text_is(text, "num") || text_is(text, "bool")
        || text_is(text, "some") || text_is(text, "never") || text_is(text, "unknown") {
        return (3, 0);
    }
    if in_for {
        return (4, 0);
    }
    if prev_kind_of(tokens, i) == Option::Some(SyntaxKind::Dot) {
        return (1, 0);
    }
    let n = next_idx(tokens, i + 1);
    proof {
        if n < tokens@.len() {
            assert(ts[n as int] == tokens@[n as int]@);
        }
    }
    if n < tokens.len() && tokens[n].kind == SyntaxKind::LParen {
        return (2, 0);
    }
    if n < tokens.len() && tokens[n].kind == SyntaxKind::Colon {
        // The number of characters up to the end of the colon.
        let mut after = cc;
        let mut j = i;
        while j <= n
            invariant
                i <= j <= n + 1,
                n < tokens@.len(),
                tokens@.len() <= usize::MAX,
                ts == token_views(tokens@),
                chars@ == concat_texts(ts),
                chars@.len() < u32::MAX,
                after == concat_texts(ts.take(j as int)).len(),
            decreases n + 1 - j,
        {
            proof {
                lemma_take_step(ts, j as int);
                lemma_take_within(ts, j as int);
                assert(ts[j as int].1 == tokens@[j as int].text@);
            }
            after = after + tokens[j].text.len();
            j += 1;
        }
        if after < chars.len() && chars[after] != ' ' && depth > 0 {
            return (1, 0);
        }
        return (0, 0);
    }
    (0, 0)
}

/// Whether the loop bindings go on past a token of kind `k` (see
/// `for_next`).
fn for_step(st: bool, k: SyntaxKind) -> (r: bool)
    ensures
        r == for_next(st, k),
{
    if k == SyntaxKind::KwFor {
        true
    } else if k == SyntaxKind::KwIn || k == SyntaxKind::KwOf {
        false
    } else if st && k != SyntaxKind::Ident && k != SyntaxKind::Whitespace && k != SyntaxKind::Comma
        && k != SyntaxKind::Colon {
        false
    } else {
        st
    }
}

/// The semantic tokens of the identifiers among `tokens`, the tokens of
/// `source` (see `sem_from`).
pub fn semantic_tokens_of(tokens: &Vec<Token>, source: &str) -> (r: Vec<SemanticToken>)
    requires
        concat_texts(token_views(tokens@)) == source@,
        source@.len() < u32::MAX,
    ensures
        r@ == sem_from(token_views(tokens@), source@, tokens@.len() as int).0,
{
    let ghost ts = token_views(tokens@);
    let ghost s = source@;
    let chars = str_chars(source);
    let total = crate::cursor::byte_len(source);
    let mut out: Vec<SemanticToken> = Vec::new();
    let mut prev_line: u32 = 0;
    let mut prev_col: u32 = 0;
    let mut line: u32 = 0;
    let mut col: u32 = 0;
    let mut depth: i64 = 0;
    let mut cc: usize = 0;
    let mut in_for = false;
    let mut i: usize = 0;
    proof {
        assert(ts.take(0) =~= Seq::<(SyntaxKind, Seq<char>)>::empty());
        assert(concat_texts(ts.take(0)) =~= Seq::<char>::empty());
    }
    while i < tokens.len()
        invariant
            0 <= i <= tokens@.len(),
            ts == token_views(tokens@),
            chars@ == s,
            s == concat_texts(ts),
            s.len() < u32::MAX,
            total == utf8_len(s),
            cc == concat_texts(ts.take(i as int)).len(),
            cc <= s.len(),
            line as int + 1 == line_col_after(concat_texts(ts.take(i as int))).0,
            col as int + 1 == line_col_after(concat_texts(ts.take(i as int))).1,
            depth == brace_depth(concat_texts(ts.take(i as int))),
            -(cc as int) <= depth <= cc,
            in_for == for_state(ts, i as int),
            out@ == sem_from(ts, s, i as int).0,
            prev_line == sem_from(ts, s, i as int).1,
            prev_col == sem_from(ts, s, i as int).2,
            prev_line < line || (prev_line == line && prev_col <= col),
        decreases tokens@.len() - i,
    {
        let t = &tokens[i];
        let ghost pre = concat_texts(ts.take(i as int));
        proof {
            assert(ts[i as int] == t@);
            lemma_take_step(ts, i as int);
            lemma_take_within(ts, i as int);
        }
        in_for = for_step(in_for, t.kind);
        if t.kind == SyntaxKind::Ident && !text_is(&t.text, "mut") {
            let (tt, md) = classify_of(tokens, &chars, i, cc, depth, in_for);
            let dl = line - prev_line;
            let ds = if dl == 0 {
                col - prev_col
            } else {
                col
            };
            let len = utf8_count(&t.text, total);
            out.push(
                SemanticToken {
                    delta_line: dl,
                    delta_start: ds,
                    length: len as u32,
                    token_type: tt,
                    token_modifiers: md,
                },
            );
            prev_line = line;
            prev_col = col;
        }
        // Move past the token's text.
        let text = &t.text;
        let mut k: usize = 0;
        proof {
            assert(text@.take(0) =~= Seq::<char>::empty());
            assert(pre + text@.take(0) =~= pre);
        }
        while k < text.len()
            invariant
                0 <= k <= text@.len(),
                text == &tokens@[i as int].text,
                pre.len() + text@.len() <= s.len(),
                s.len() < u32::MAX,
                cc == (pre + text@.take(k as int)).len(),
                line as int + 1 == line_col_after(pre + text@.take(k as int)).0,
                col as int + 1 == line_col_after(pre + text@.take(k as int)).1,
                depth == brace_depth(pre + text@.take(k as int)),
                -(cc as int) <= depth <= cc,
                prev_line < line || (prev_line == line && prev_col <= col),
            decreases text@.len() - k,
        {
            let c = text[k];
            let ghost p = pre + text@.take(k as int);
            proof {
                assert((pre + text@.take(k + 1)).drop_last() =~= p);
                assert((pre + text@.take(k + 1)).last() == c);
                lemma_line_col_bounds(p);
            }
            if c == '\n' {
                line = line + 1;
                col = 0;
            } else {
                col = col + 1;
            }
            if c == '{' {
                depth = depth + 1;
            } else if c == '}' {
                depth = depth - 1;
            }
            cc = cc + 1;
            k += 1;
        }
        proof {
            assert(text@.take(k as int) =~= text@);
        }
        i += 1;
    }
    proof {
        assert(ts.len() == tokens@.len());
    }
    out
}

/// The semantic tokens of the identifiers of `source`, over the tokens
/// that the lexer reads (`lex_v`; see `semantic_tokens_of`).
pub fn semantic_tokens(source: &str) -> (r: Vec<SemanticToken>)
    requires
        source@.len() < u32::MAX,
        source@.len() + 4 <= usize::MAX,
    ensures
        r@ == sem_from(lex_v(source@), source@, lex_v(source@).len() as int).0,
{
    let tokens = lex(source);
    semantic_tokens_of(&tokens, source)
}

} // verus!
