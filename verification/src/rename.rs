//! Renaming a local variable, a key of an object type, or a property of the
//! object literals assigned to a variable, everywhere it stands for the same
//! definition.

use vstd::prelude::*;
use crate::cursor::{
    byte_len, end_of_word, lemma_position_index, position_index, position_of, start_of_word,
    word_around, word_start,
};
use crate::definition::{LineSpan, local_type_alias_definition, trim_chars, trim_v, type_decl_from};
use crate::lexer::{lex, lex_v, word_is};
use crate::locals::{
    SourceRange, def_span_in, last_def, nav_in_tree, nav_target, range_at, range_of, tree_of,
    type_key_range, type_key_span_in,
};
use crate::markdown::text_lines;
use crate::semantic::{Toks, lemma_take_step, lemma_take_within, utf8_count};
use crate::syntax::{Element, Node, SyntaxKind, Token, concat_texts, token_views};
use crate::text::{chars_to_string, lemma_utf8_len_add, str_chars, str_to_string, utf8_len};

verus! {

/// A replacement of the text of a range of a document.
#[derive(Debug)]
pub struct TextEdit {
    pub range: SourceRange,
    pub new_text: String,
}

impl View for TextEdit {
    type V = (SourceRange, Seq<char>);

    open spec fn view(&self) -> (SourceRange, Seq<char>) {
        (self.range, self.new_text@)
    }
}

/// The range of a span within one line.
pub open spec fn line_span_range(l: LineSpan) -> SourceRange {
    SourceRange { start_line: l.line, start_col: l.start, end_line: l.line, end_col: l.end }
}

/// Where `word`, read at byte `offset` of `s` (whose tree is `root`), is
/// defined: the last local definition before it, else the `type`
/// declaration of that name, else the last key of that name of an object
/// type before it.
#[verifier::opaque]
pub open spec fn var_target(root: Node, s: Seq<char>, word: Seq<char>, offset: int) -> Option<SourceRange> {
    match last_def(Element::Node(root), 0, word, offset) {
        Option::Some(d) => Option::Some(range_at(s, d.start, d.end)),
        Option::None => match type_decl_from(text_lines(s), word, 0) {
            Option::Some(l) => Option::Some(line_span_range(l)),
            Option::None => type_key_range(root, s, word, offset),
        },
    }
}

/// Where the part under byte `offset` of the navigation `w` is defined.
pub open spec fn nav_range(root: Node, s: Seq<char>, w: Seq<char>, offset: int) -> Option<SourceRange> {
    match nav_target(root, s, w, offset) {
        Option::Some((a, b)) => Option::Some(range_at(s, a, b)),
        Option::None => Option::None,
    }
}

/// The byte where token `i` of `ts` starts.
pub open spec fn tok_start(ts: Toks, i: int) -> int {
    utf8_len(concat_texts(ts.take(i))) as int
}

/// The byte where token `i` of `ts` ends.
pub open spec fn tok_end(ts: Toks, i: int) -> int {
    tok_start(ts, i) + utf8_len(ts[i].1)
}

/// Whether token `i` is an occurrence of `word` that stands for the
/// definition at `target`: for a property, the definition itself or a
/// navigation that leads to it; for a variable, a use whose definition is
/// the one at `target`.
pub open spec fn renamed_at(root: Node, ts: Toks, s: Seq<char>, word: Seq<char>, prop: bool, target: SourceRange, i: int) -> bool {
    let a = tok_start(ts, i);
    &&& ts[i].0 == SyntaxKind::Ident
    &&& ts[i].1 == word
    &&& if prop {
        ||| range_at(s, a, tok_end(ts, i)) == target
        ||| {
            let d = word_around(s, concat_texts(ts.take(i)).len() as int, true);
            d.len() > 0 && nav_range(root, s, d, a) == Option::Some(target)
        }
    } else {
        var_target(root, s, word, a) == Option::Some(target)
    }
}

/// The ranges of the occurrences among the first `n` tokens that a rename
/// replaces (see `renamed_at`).
pub open spec fn rename_ranges(root: Node, ts: Toks, s: Seq<char>, word: Seq<char>, prop: bool, target: SourceRange, n: int) -> Seq<SourceRange>
    decreases n,
{
    if n <= 0 || n > ts.len() {
        Seq::empty()
    } else {
        let e = rename_ranges(root, ts, s, word, prop, target, n - 1);
        if renamed_at(root, ts, s, word, prop, target, n - 1) {
            e.push(range_at(s, tok_start(ts, n - 1), tok_end(ts, n - 1)))
        } else {
            e
        }
    }
}

/// What renaming the name at the 0-based (`line`, `character`) position of
/// `s` (whose tree is `root` and whose tokens are `ts`) to `new_name`
/// replaces: nothing when the new name is blank, no name is there, its
/// definition is not found or no occurrence is; else the ranges of the
/// occurrences, in order.
pub open spec fn rename_v(root: Node, ts: Toks, s: Seq<char>, line: int, character: int, new_name: Seq<char>) -> Option<Seq<SourceRange>> {
    let p = position_index(s, line, character);
    let word = word_around(s, p, false);
    let ws = word_start(s, p, false);
    let prop = ws > 0 && s[ws - 1] == '.';
    let offset = utf8_len(s.take(p)) as int;
    let target = if prop {
        nav_range(root, s, word_around(s, p, true), offset)
    } else {
        var_target(root, s, word, offset)
    };
    if trim_v(new_name).len() == 0 || word.len() == 0 {
        Option::None
    } else {
        match target {
            Option::None => Option::None,
            Option::Some(t) => {
                let e = rename_ranges(root, ts, s, word, prop, t, ts.len() as int);
                if e.len() == 0 {
                    Option::None
                } else {
                    Option::Some(e)
                }
            },
        }
    }
}

/// The ranges of some edits.
pub open spec fn edit_ranges(v: Seq<TextEdit>) -> Seq<SourceRange> {
    Seq::new(v.len(), |i: int| v[i].range)
}

// ── Computing them ──────────────────────────────────────────────────────

/// The characters `a` to `b` of `cs`.
fn sub_chars(cs: &Vec<char>, a: usize, b: usize) -> (r: Vec<char>)
    requires
        a <= b <= cs@.len(),
    ensures
        r@ == cs@.subrange(a as int, b as int),
{
    let mut out: Vec<char> = Vec::new();
    let mut i = a;
    while i < b
        invariant
            a <= i <= b <= cs@.len(),
            out@ == cs@.subrange(a as int, i as int),
        decreases b - i,
    {
        out.push(cs[i]);
        proof {
            assert(out@ =~= cs@.subrange(a as int, i + 1));
        }
        i += 1;
    }
    out
}

/// A piece of `s` has no more bytes than `s`.
proof fn lemma_utf8_sub(s: Seq<char>, a: int, b: int)
    requires
        0 <= a <= b <= s.len(),
    ensures
        utf8_len(s.subrange(a, b)) <= utf8_len(s),
{
    assert(s.take(a) + s.subrange(a, b) + s.skip(b) =~= s);
    lemma_utf8_len_add(s.take(a) + s.subrange(a, b), s.skip(b));
    lemma_utf8_len_add(s.take(a), s.subrange(a, b));
}

/// Where `word`, read at byte `offset`, is defined (see `var_target`), given
/// the `type` declaration of it.
fn var_target_of(root: &Node, source: &str, word: &Vec<char>, offset: usize, alias: Option<LineSpan>) -> (r: Option<SourceRange>)
    requires
        tree_of(*root, source@),
        source@.len() < u32::MAX,
        alias == type_decl_from(text_lines(source@), word@, 0),
    ensures
        r == var_target(*root, source@, word@, offset as int),
{
    reveal(var_target);
    match def_span_in(root, source, word, offset) {
        Option::Some((a, b)) => Option::Some(range_of(source, a, b)),
        Option::None => match alias {
            Option::Some(l) => Option::Some(
                SourceRange { start_line: l.line, start_col: l.start, end_line: l.line, end_col: l.end },
            ),
            Option::None => match type_key_span_in(root, source, word, offset) {
                Option::Some((a, b)) => Option::Some(range_of(source, a, b)),
                Option::None => Option::None,
            },
        },
    }
}

/// Where the navigation around character `p` of `chars` (the characters of
/// `source`), read at byte `offset`, is defined (see `nav_range`).
fn nav_range_at(root: &Node, source: &str, chars: &Vec<char>, total: usize, p: usize, offset: usize) -> (r: Option<SourceRange>)
    requires
        tree_of(*root, source@),
        chars@ == source@,
        total == utf8_len(source@),
        source@.len() < u32::MAX,
        p <= chars@.len(),
    ensures
        r == nav_range(*root, source@, word_around(source@, p as int, true), offset as int),
{
    let ds = start_of_word(chars, p, true);
    let de = end_of_word(chars, p, true);
    let dw = sub_chars(chars, ds, de);
    proof {
        lemma_utf8_sub(chars@, ds as int, de as int);
    }
    let dwb = utf8_count(&dw, total);
    match nav_in_tree(root, source, &dw, dwb, offset) {
        Option::Some((a, b)) => Option::Some(range_of(source, a, b)),
        Option::None => Option::None,
    }
}

/// Whether `a` is the range `t`.
fn is_range(a: Option<SourceRange>, t: SourceRange) -> (r: bool)
    ensures
        r == (a == Option::Some(t)),
{
    match a {
        Option::Some(g) => g == t,
        Option::None => false,
    }
}

/// Renames the local variable, object-type key or property at the 0-based (`line`,
/// `character`) position of `source` to `new_name`: the edits that replace
/// each of its occurrences that stand for the same definition (see
/// `rename_v`), or none.
pub fn rename(source: &str, line: u32, character: u32, new_name: &str) -> (r: Option<Vec<TextEdit>>)
    requires
        source@.len() < u32::MAX,
        source@.len() + 4 <= usize::MAX,
    ensures
        exists|root: Node|
            tree_of(root, source@) && match r {
                Option::Some(v) => rename_v(root, lex_v(source@), source@, line as int, character as int, new_name@)
                    == Option::Some(edit_ranges(v@)) && forall|i: int|
                    0 <= i < v@.len() ==> (#[trigger] v@[i]).new_text@ == new_name@,
                Option::None => rename_v(root, lex_v(source@), source@, line as int, character as int, new_name@) is None,
            },
{
    let root = crate::parser::parse(source);
    let tokens = lex(source);
    let ghost ts = token_views(tokens@);
    let ghost s = source@;
    let ghost spec_r = rename_v(root, ts, s, line as int, character as int, new_name@);
    let chars = str_chars(source);
    let total = byte_len(source);
    let (p, offset) = position_of(&chars, line, character);
    proof {
        lemma_position_index(s, line as int, character as int, 0);
    }
    let ws = start_of_word(&chars, p, false);
    let we = end_of_word(&chars, p, false);
    let word = sub_chars(&chars, ws, we);
    let nn = str_chars(new_name);
    let trimmed = trim_chars(&nn);
    if trimmed.len() == 0 || ws == we {
        proof {
            assert(spec_r is None);
            assert(ts == lex_v(s));
            assert(tree_of(root, s));
        }
        return Option::None;
    }
    let prop = ws > 0 && chars[ws - 1] == '.';
    let target = if prop {
        nav_range_at(&root, source, &chars, total, p, offset)
    } else {
        let wstr = chars_to_string(&word);
        let alias = local_type_alias_definition(wstr.as_str(), source);
        var_target_of(&root, source, &word, offset, alias)
    };
    let t = match target {
        Option::Some(t) => t,
        Option::None => {
            proof {
                assert(spec_r is None);
                assert(ts == lex_v(s));
                assert(tree_of(root, s));
            }
            return Option::None;
        },
    };
    let wstr = chars_to_string(&word);
    let alias = local_type_alias_definition(wstr.as_str(), source);
    let mut edits: Vec<TextEdit> = Vec::new();
    let mut cstart: usize = 0;
    let mut bstart: usize = 0;
    let mut i: usize = 0;
    proof {
        assert(ts.take(0) =~= Seq::<(SyntaxKind, Seq<char>)>::empty());
        assert(concat_texts(ts.take(0)) =~= Seq::<char>::empty());
        assert(edit_ranges(edits@) =~= Seq::<SourceRange>::empty());
    }
    while i < tokens.len()
        invariant
            0 <= i <= tokens@.len(),
            ts == token_views(tokens@),
            s == source@,
            chars@ == s,
            s == concat_texts(ts),
            s.len() < u32::MAX,
            total == utf8_len(s),
            tree_of(root, s),
            word@ == word_around(s, p as int, false),
            alias == type_decl_from(text_lines(s), word@, 0),
            cstart == concat_texts(ts.take(i as int)).len(),
            bstart == tok_start(ts, i as int),
            bstart <= total,
            edit_ranges(edits@) == rename_ranges(root, ts, s, word@, prop, t, i as int),
            forall|k: int| 0 <= k < edits@.len() ==> (#[trigger] edits@[k]).new_text@ == new_name@,
        decreases tokens@.len() - i,
    {
        let tok = &tokens[i];
        proof {
            assert(ts[i as int] == tok@);
            lemma_take_step(ts, i as int);
            lemma_take_within(ts, i as int);
        }
        let blen = utf8_count(&tok.text, total);
        let bend = bstart + blen;
        let ghost before = edits@;
        if tok.kind == SyntaxKind::Ident && word_is(tok.text.as_slice(), word.as_slice()) {
            let hit = if prop {
                let own = range_of(source, bstart, bend);
                if own == t {
                    true
                } else {
                    let ds = start_of_word(&chars, cstart, true);
                    let de = end_of_word(&chars, cstart, true);
                    ds < de && is_range(nav_range_at(&root, source, &chars, total, cstart, bstart), t)
                }
            } else {
                is_range(var_target_of(&root, source, &word, bstart, alias), t)
            };
            if hit {
                let range = range_of(source, bstart, bend);
                edits.push(TextEdit { range, new_text: str_to_string(new_name) });
                proof {
                    assert(edit_ranges(edits@) =~= edit_ranges(before).push(range));
                }
            }
        }
        proof {
            assert(ts.take(i + 1).len() == i + 1);
        }
        cstart = cstart + tok.text.len();
        bstart = bend;
        i += 1;
    }
    proof {
        assert(ts.len() == tokens@.len());
        assert(tree_of(root, s));
    }
    if edits.len() == 0 {
        return Option::None;
    }
    Option::Some(edits)
}

} // verus!
