//! The lexer: source text to a lossless sequence of tokens.

use vstd::prelude::*;
use crate::syntax::{SyntaxKind, Token, concat_texts, token_views};
use crate::text::str_chars;

verus! {

pub open spec fn is_ws_char(c: char) -> bool {
    c == ' ' || c == '\t' || c == '\n' || c == '\r'
}

pub open spec fn is_digit_char(c: char) -> bool {
    '0' <= c <= '9'
}

pub open spec fn is_alpha_char(c: char) -> bool {
    ('a' <= c <= 'z') || ('A' <= c <= 'Z')
}

pub open spec fn is_ident_start_char(c: char) -> bool {
    is_alpha_char(c) || c == '_'
}

pub open spec fn is_ident_char_v(c: char) -> bool {
    is_alpha_char(c) || is_digit_char(c) || c == '_'
}

pub open spec fn is_hex_char(c: char) -> bool {
    is_digit_char(c) || ('a' <= c <= 'f') || ('A' <= c <= 'F') || c == '_'
}

/// The text of a token of a kind whose text is fixed (keywords and
/// punctuation); empty for the other kinds.
pub open spec fn spelling(k: SyntaxKind) -> Seq<char> {
    match k {
        SyntaxKind::KwAnd => seq!['a', 'n', 'd'],
        SyntaxKind::KwBreak => seq!['b', 'r', 'e', 'a', 'k'],
        SyntaxKind::KwContinue => seq!['c', 'o', 'n', 't', 'i', 'n', 'u', 'e'],
        SyntaxKind::KwDelete => seq!['d', 'e', 'l', 'e', 't', 'e'],
        SyntaxKind::KwDo => seq!['d', 'o'],
        SyntaxKind::KwElse => seq!['e', 'l', 's', 'e'],
        SyntaxKind::KwEnd => seq!['e', 'n', 'd'],
        SyntaxKind::KwExtern => seq!['e', 'x', 't', 'e', 'r', 'n'],
        SyntaxKind::KwFalse => seq!['f', 'a', 'l', 's', 'e'],
        SyntaxKind::KwFor => seq!['f', 'o', 'r'],
        SyntaxKind::KwIn => seq!['i', 'n'],
        SyntaxKind::KwInf => seq!['i', 'n', 'f'],
        SyntaxKind::KwNan => seq!['n', 'a', 'n'],
        SyntaxKind::KwNot => seq!['n', 'o', 't'],
        SyntaxKind::KwNull => seq!['n', 'u', 'l', 'l'],
        SyntaxKind::KwOf => seq!['o', 'f'],
        SyntaxKind::KwOr => seq!['o', 'r'],
        SyntaxKind::KwReturn => seq!['r', 'e', 't', 'u', 'r', 'n'],
        SyntaxKind::KwTrue => seq!['t', 'r', 'u', 'e'],
        SyntaxKind::KwType => seq!['t', 'y', 'p', 'e'],
        SyntaxKind::KwNone => seq!['n', 'o', 'n', 'e'],
        SyntaxKind::KwUnless => seq!['u', 'n', 'l', 'e', 's', 's'],
        SyntaxKind::KwWhen => seq!['w', 'h', 'e', 'n'],
        SyntaxKind::KwWhile => seq!['w', 'h', 'i', 'l', 'e'],
        SyntaxKind::Arrow => seq!['-', '>'],
        SyntaxKind::ColonEq => seq![':', '='],
        SyntaxKind::EqEq => seq!['=', '='],
        SyntaxKind::BangEq => seq!['!', '='],
        SyntaxKind::GtEq => seq!['>', '='],
        SyntaxKind::LtEq => seq!['<', '='],
        SyntaxKind::PlusEq => seq!['+', '='],
        SyntaxKind::MinusEq => seq!['-', '='],
        SyntaxKind::StarEq => seq!['*', '='],
        SyntaxKind::SlashEq => seq!['/', '='],
        SyntaxKind::PercentEq => seq!['%', '='],
        SyntaxKind::AmpEq => seq!['&', '='],
        SyntaxKind::PipeEq => seq!['|', '='],
        SyntaxKind::CaretEq => seq!['^', '='],
        SyntaxKind::DotDot => seq!['.', '.'],
        SyntaxKind::DotDotDot => seq!['.', '.', '.'],
        SyntaxKind::DotParen => seq!['.', '('],
        SyntaxKind::Plus => seq!['+'],
        SyntaxKind::Minus => seq!['-'],
        SyntaxKind::Star => seq!['*'],
        SyntaxKind::Slash => seq!['/'],
        SyntaxKind::Percent => seq!['%'],
        SyntaxKind::Amp => seq!['&'],
        SyntaxKind::Pipe => seq!['|'],
        SyntaxKind::Caret => seq!['^'],
        SyntaxKind::Tilde => seq!['~'],
        SyntaxKind::Eq => seq!['='],
        SyntaxKind::Gt => seq!['>'],
        SyntaxKind::Lt => seq!['<'],
        SyntaxKind::Dot => seq!['.'],
        SyntaxKind::Comma => seq![','],
        SyntaxKind::Colon => seq![':'],
        SyntaxKind::Semicolon => seq![';'],
        SyntaxKind::Hash => seq!['#'],
        SyntaxKind::At => seq!['@'],
        SyntaxKind::LParen => seq!['('],
        SyntaxKind::RParen => seq![')'],
        SyntaxKind::LBracket => seq!['['],
        SyntaxKind::RBracket => seq![']'],
        SyntaxKind::LBrace => seq!['{'],
        SyntaxKind::RBrace => seq!['}'],
        _ => Seq::empty(),
    }
}

/// Whether tokens of kind `k` always have the same text.
pub open spec fn fixed_spelling(k: SyntaxKind) -> bool {
    spelling(k).len() > 0
}

/// The kind of an identifier-shaped word: the keyword it spells, else `Ident`.
pub open spec fn keyword_of(t: Seq<char>) -> SyntaxKind {
    if t == spelling(SyntaxKind::KwAnd) {
        SyntaxKind::KwAnd
    } else     if t == spelling(SyntaxKind::KwBreak) {
        SyntaxKind::KwBreak
    } else     if t == spelling(SyntaxKind::KwContinue) {
        SyntaxKind::KwContinue
    } else     if t == spelling(SyntaxKind::KwDelete) {
        SyntaxKind::KwDelete
    } else     if t == spelling(SyntaxKind::KwDo) {
        SyntaxKind::KwDo
    } else     if t == spelling(SyntaxKind::KwElse) {
        SyntaxKind::KwElse
    } else     if t == spelling(SyntaxKind::KwEnd) {
        SyntaxKind::KwEnd
    } else     if t == spelling(SyntaxKind::KwExtern) {
        SyntaxKind::KwExtern
    } else     if t == spelling(SyntaxKind::KwFalse) {
        SyntaxKind::KwFalse
    } else     if t == spelling(SyntaxKind::KwFor) {
        SyntaxKind::KwFor
    } else     if t == spelling(SyntaxKind::KwIn) {
        SyntaxKind::KwIn
    } else     if t == spelling(SyntaxKind::KwInf) {
        SyntaxKind::KwInf
    } else     if t == spelling(SyntaxKind::KwNan) {
        SyntaxKind::KwNan
    } else     if t == spelling(SyntaxKind::KwNot) {
        SyntaxKind::KwNot
    } else     if t == spelling(SyntaxKind::KwNull) {
        SyntaxKind::KwNull
    } else     if t == spelling(SyntaxKind::KwOf) {
        SyntaxKind::KwOf
    } else     if t == spelling(SyntaxKind::KwOr) {
        SyntaxKind::KwOr
    } else     if t == spelling(SyntaxKind::KwReturn) {
        SyntaxKind::KwReturn
    } else     if t == spelling(SyntaxKind::KwTrue) {
        SyntaxKind::KwTrue
    } else     if t == spelling(SyntaxKind::KwType) {
        SyntaxKind::KwType
    } else     if t == spelling(SyntaxKind::KwNone) {
        SyntaxKind::KwNone
    } else     if t == spelling(SyntaxKind::KwUnless) {
        SyntaxKind::KwUnless
    } else     if t == spelling(SyntaxKind::KwWhen) {
        SyntaxKind::KwWhen
    } else     if t == spelling(SyntaxKind::KwWhile) {
        SyntaxKind::KwWhile
    } else {
        SyntaxKind::Ident
    }
}

/// Whether `t` starts with `p`.
pub open spec fn begins_with(t: Seq<char>, p: Seq<char>) -> bool {
    p.len() <= t.len() && t.take(p.len() as int) == p
}

/// Whether `t` is a well-formed text for a token of kind `k`: whitespace
/// is all whitespace, comments and literals start as their kind does,
/// identifiers start with a letter or `_` and spell no keyword, keywords
/// and punctuation are spelled as such, and an error token is one
/// character.
pub open spec fn token_fits(k: SyntaxKind, t: Seq<char>) -> bool {
    if fixed_spelling(k) {
        t == spelling(k)
    } else {
        match k {
            SyntaxKind::Whitespace => t.len() > 0 && forall|j: int|
                0 <= j < t.len() ==> is_ws_char(#[trigger] t[j]),
            SyntaxKind::LineComment => begins_with(t, seq!['/', '/']),
            SyntaxKind::BlockComment => begins_with(t, seq!['/', '*']),
            SyntaxKind::DecimalNumber | SyntaxKind::HexNumber | SyntaxKind::BinaryNumber => t.len()
                > 0 && is_digit_char(t[0]),
            SyntaxKind::DoubleString => t.len() > 0 && t[0] == '"',
            SyntaxKind::SingleString => t.len() > 0 && t[0] == '\'',
            SyntaxKind::TemplateLiteral => t.len() > 0 && t[0] == '`',
            SyntaxKind::Ident => t.len() > 0 && is_ident_start_char(t[0]) && keyword_of(t)
                == SyntaxKind::Ident,
            SyntaxKind::Error => t.len() == 1,
            _ => false,
        }
    }
}

// ── The token grammar ───────────────────────────────────────────────────

/// The first index from `i` whose character does not continue a run of
/// `class` (see `in_run`), or the end.
pub open spec fn run_end_v(s: Seq<char>, i: int, class: u8) -> int
    decreases s.len() - i,
{
    if i < 0 || i >= s.len() || !in_run(s, i, class) {
        i
    } else {
        run_end_v(s, i + 1, class)
    }
}

/// The first line break from `j`, or the end.
pub open spec fn line_break_from(s: Seq<char>, j: int) -> int
    decreases s.len() - j,
{
    if j < 0 || j >= s.len() || s[j] == '\n' {
        j
    } else {
        line_break_from(s, j + 1)
    }
}

/// Where a block comment whose body starts at `j` ends: past `*/`, or the
/// end.
pub open spec fn block_comment_end(s: Seq<char>, j: int) -> int
    decreases s.len() - j,
{
    if j < 0 || j >= s.len() {
        j
    } else if s[j] == '*' && char_at(s, j + 1) == '/' {
        j + 2
    } else {
        block_comment_end(s, j + 1)
    }
}

/// Where a string quoted with `q` whose body starts at `j` ends: past the
/// closing quote (a backslash escapes the next character), or the end.
pub open spec fn quoted_end_v(s: Seq<char>, j: int, q: char) -> int
    decreases s.len() - j,
{
    if j < 0 || j >= s.len() {
        j
    } else if s[j] == '\\' {
        if j + 1 < s.len() {
            quoted_end_v(s, j + 2, q)
        } else {
            quoted_end_v(s, j + 1, q)
        }
    } else if s[j] == q {
        j + 1
    } else {
        quoted_end_v(s, j + 1, q)
    }
}

/// Where a template literal whose body starts at `j`, `depth` levels inside
/// `${ }`, ends: past the closing backtick at depth 0, or the end.
pub open spec fn template_end_v(s: Seq<char>, j: int, depth: int) -> int
    decreases s.len() - j,
{
    if j < 0 || j >= s.len() {
        j
    } else {
        let c = s[j];
        if c == '\\' {
            if j + 1 < s.len() {
                template_end_v(s, j + 2, depth)
            } else {
                template_end_v(s, j + 1, depth)
            }
        } else if depth == 0 && c == '`' {
            j + 1
        } else if c == '$' && char_at(s, j + 1) == '{' {
            template_end_v(s, j + 2, depth + 1)
        } else if depth > 0 && c == '}' {
            template_end_v(s, j + 1, depth - 1)
        } else if depth > 0 && c == '{' {
            template_end_v(s, j + 1, depth + 1)
        } else {
            template_end_v(s, j + 1, depth)
        }
    }
}

/// The number token at `i` (a digit there): hexadecimal `0x..`, binary
/// `0b..`, else decimal digits with an optional fraction and exponent.
pub open spec fn number_v(s: Seq<char>, i: int) -> (SyntaxKind, int) {
    let c = s[i];
    let n = char_at(s, i + 1);
    if c == '0' && (n == 'x' || n == 'X') && is_hex_char(char_at(s, i + 2)) {
        (SyntaxKind::HexNumber, run_end_v(s, i + 2, 3))
    } else if c == '0' && (n == 'b' || n == 'B') && (char_at(s, i + 2) == '0' || char_at(s, i + 2)
        == '1') {
        (SyntaxKind::BinaryNumber, run_end_v(s, i + 2, 4))
    } else {
        let e0 = run_end_v(s, i, 2);
        let e1 = if e0 == i { i + 1 } else { e0 };
        let e2 = if char_at(s, e1) == '.' && is_digit_char(char_at(s, e1 + 1)) {
            run_end_v(s, e1 + 1, 2)
        } else {
            e1
        };
        let x = char_at(s, e2);
        let e3 = if x == 'e' || x == 'E' {
            let sg = char_at(s, e2 + 1);
            if is_digit_char(sg) {
                run_end_v(s, e2 + 1, 2)
            } else if (sg == '+' || sg == '-') && is_digit_char(char_at(s, e2 + 2)) {
                run_end_v(s, e2 + 2, 2)
            } else {
                e2
            }
        } else {
            e2
        };
        (SyntaxKind::DecimalNumber, e3)
    }
}

/// The kind of a two-character operator ending in `=` that starts with `c`,
/// or `Error`.
pub open spec fn op_eq_kind(c: char) -> SyntaxKind {
    if c == ':' {
        SyntaxKind::ColonEq
    } else if c == '=' {
        SyntaxKind::EqEq
    } else if c == '!' {
        SyntaxKind::BangEq
    } else if c == '>' {
        SyntaxKind::GtEq
    } else if c == '<' {
        SyntaxKind::LtEq
    } else if c == '+' {
        SyntaxKind::PlusEq
    } else if c == '-' {
        SyntaxKind::MinusEq
    } else if c == '*' {
        SyntaxKind::StarEq
    } else if c == '/' {
        SyntaxKind::SlashEq
    } else if c == '%' {
        SyntaxKind::PercentEq
    } else if c == '&' {
        SyntaxKind::AmpEq
    } else if c == '|' {
        SyntaxKind::PipeEq
    } else if c == '^' {
        SyntaxKind::CaretEq
    } else {
        SyntaxKind::Error
    }
}

/// The kind of the one-character token `c`, or `Error`.
pub open spec fn single_kind(c: char) -> SyntaxKind {
    if c == '+' {
        SyntaxKind::Plus
    } else if c == '-' {
        SyntaxKind::Minus
    } else if c == '*' {
        SyntaxKind::Star
    } else if c == '/' {
        SyntaxKind::Slash
    } else if c == '%' {
        SyntaxKind::Percent
    } else if c == '&' {
        SyntaxKind::Amp
    } else if c == '|' {
        SyntaxKind::Pipe
    } else if c == '^' {
        SyntaxKind::Caret
    } else if c == '~' {
        SyntaxKind::Tilde
    } else if c == '=' {
        SyntaxKind::Eq
    } else if c == '>' {
        SyntaxKind::Gt
    } else if c == '<' {
        SyntaxKind::Lt
    } else if c == '.' {
        SyntaxKind::Dot
    } else if c == ',' {
        SyntaxKind::Comma
    } else if c == ':' {
        SyntaxKind::Colon
    } else if c == ';' {
        SyntaxKind::Semicolon
    } else if c == '#' {
        SyntaxKind::Hash
    } else if c == '@' {
        SyntaxKind::At
    } else if c == '(' {
        SyntaxKind::LParen
    } else if c == ')' {
        SyntaxKind::RParen
    } else if c == '[' {
        SyntaxKind::LBracket
    } else if c == ']' {
        SyntaxKind::RBracket
    } else if c == '{' {
        SyntaxKind::LBrace
    } else if c == '}' {
        SyntaxKind::RBrace
    } else {
        SyntaxKind::Error
    }
}

/// The operator, punctuation or error token at `i`: the longest operator
/// that starts there, else one character.
pub open spec fn punct_v(s: Seq<char>, i: int) -> (SyntaxKind, int) {
    let c = s[i];
    let n = char_at(s, i + 1);
    let m = char_at(s, i + 2);
    if n == '=' && op_eq_kind(c) != SyntaxKind::Error {
        (op_eq_kind(c), i + 2)
    } else if c == '-' && n == '>' {
        (SyntaxKind::Arrow, i + 2)
    } else if c == '.' && n == '.' && m == '.' {
        (SyntaxKind::DotDotDot, i + 3)
    } else if c == '.' && n == '.' {
        (SyntaxKind::DotDot, i + 2)
    } else if c == '.' && n == '(' {
        (SyntaxKind::DotParen, i + 2)
    } else {
        (single_kind(c), i + 1)
    }
}

/// The identifier or keyword at `i`: the longest run of identifier
/// characters (with `-` between letters), its kind by `keyword_of`.
pub open spec fn word_v(s: Seq<char>, i: int) -> (SyntaxKind, int) {
    let e = run_end_v(s, i, 1);
    let e2 = if e == i { i + 1 } else { e };
    (keyword_of(s.subrange(i, e2)), e2)
}

/// The kind and end of the token that starts at `i`.
#[verifier::opaque]
pub open spec fn scan_v(s: Seq<char>, i: int) -> (SyntaxKind, int) {
    let c = s[i];
    let n = char_at(s, i + 1);
    if is_ws_char(c) {
        let e = run_end_v(s, i, 0);
        (SyntaxKind::Whitespace, if e == i { i + 1 } else { e })
    } else if c == '/' && n == '/' {
        let j = line_break_from(s, i + 2);
        (SyntaxKind::LineComment, if j < s.len() { j + 1 } else { j })
    } else if c == '/' && n == '*' {
        (SyntaxKind::BlockComment, block_comment_end(s, i + 2))
    } else if is_digit_char(c) {
        number_v(s, i)
    } else if c == '"' {
        (SyntaxKind::DoubleString, quoted_end_v(s, i + 1, '"'))
    } else if c == '\'' {
        (SyntaxKind::SingleString, quoted_end_v(s, i + 1, '\''))
    } else if c == '`' {
        (SyntaxKind::TemplateLiteral, template_end_v(s, i + 1, 0))
    } else if is_alpha_char(c) || c == '_' {
        word_v(s, i)
    } else {
        punct_v(s, i)
    }
}

/// The tokens of `s` from `pos` on, each the longest that `scan_v` reads
/// there.
pub open spec fn lex_from(s: Seq<char>, pos: int) -> Seq<(SyntaxKind, Seq<char>)>
    decreases s.len() - pos,
{
    if pos < 0 || pos >= s.len() {
        Seq::empty()
    } else {
        let (k, e) = scan_v(s, pos);
        if pos < e <= s.len() {
            seq![(k, s.subrange(pos, e))] + lex_from(s, e)
        } else {
            Seq::empty()
        }
    }
}

/// One step of `lex_from`: the token at `pos`, then the rest.
proof fn lemma_lex_step(s: Seq<char>, pos: int, k: SyntaxKind, e: int)
    requires
        0 <= pos < s.len(),
        scan_v(s, pos) == (k, e),
        pos < e <= s.len(),
    ensures
        lex_from(s, pos) == seq![(k, s.subrange(pos, e))] + lex_from(s, e),
{
}

/// The tokens of `s`.
pub open spec fn lex_v(s: Seq<char>) -> Seq<(SyntaxKind, Seq<char>)> {
    lex_from(s, 0)
}

fn is_ws(c: char) -> (r: bool)
    ensures
        r == is_ws_char(c),
{
    c == ' ' || c == '\t' || c == '\n' || c == '\r'
}

fn is_digit(c: char) -> (r: bool)
    ensures
        r == is_digit_char(c),
{
    '0' <= c && c <= '9'
}

fn is_alpha(c: char) -> (r: bool)
    ensures
        r == is_alpha_char(c),
{
    ('a' <= c && c <= 'z') || ('A' <= c && c <= 'Z')
}

fn is_ident_char(c: char) -> (r: bool)
    ensures
        r == is_ident_char_v(c),
{
    is_alpha(c) || is_digit(c) || c == '_'
}

fn is_hex(c: char) -> (r: bool)
    ensures
        r == is_hex_char(c),
{
    is_digit(c) || ('a' <= c && c <= 'f') || ('A' <= c && c <= 'F') || c == '_'
}

/// The character at `i` of `src`, or NUL past the end.
pub open spec fn char_at(src: Seq<char>, i: int) -> char {
    if 0 <= i < src.len() {
        src[i]
    } else {
        '\0'
    }
}

/// Whether the character at `j` continues a run of `class` (see `run_end`).
pub open spec fn in_run(src: Seq<char>, j: int, class: u8) -> bool {
    let c = src[j];
    if class == 0 {
        is_ws_char(c)
    } else if class == 1 {
        is_ident_char_v(c) || (c == '-' && is_alpha_char(char_at(src, j + 1)))
    } else if class == 2 {
        is_digit_char(c) || c == '_'
    } else if class == 3 {
        is_hex_char(c)
    } else {
        c == '0' || c == '1' || c == '_'
    }
}

/// The character at `i`, or NUL past the end.
fn at(src: &Vec<char>, i: usize) -> (r: char)
    ensures
        i < src@.len() ==> r == src@[i as int],
        i >= src@.len() ==> r == '\0',
{
    if i < src.len() {
        src[i]
    } else {
        '\0'
    }
}

/// The first index at or after `i` whose character fails `class` (0: whitespace,
/// 1: identifier, 2: digit or `_`, 3: hex digit, 4: binary digit or `_`).
fn run_end(src: &Vec<char>, i: usize, class: u8) -> (r: usize)
    requires
        i <= src@.len(),
        src@.len() + 4 <= usize::MAX,
    ensures
        i <= r <= src@.len(),
        class == 0 ==> forall|j: int| i <= j < r ==> is_ws_char(#[trigger] src@[j]),
        forall|j: int| i <= j < r ==> in_run(src@, j, class),
        r < src@.len() ==> !in_run(src@, r as int, class),
        r == run_end_v(src@, i as int, class),
{
    let mut j = i;
    while j < src.len()
        invariant
            i <= j <= src@.len(),
            class == 0 ==> forall|k: int| i <= k < j ==> is_ws_char(#[trigger] src@[k]),
            forall|k: int| i <= k < j ==> in_run(src@, k, class),
            run_end_v(src@, i as int, class) == run_end_v(src@, j as int, class),
        decreases src@.len() - j,
    {
        let c = src[j];
        let ok = if class == 0 {
            is_ws(c)
        } else if class == 1 {
            is_ident_char(c) || (c == '-' && is_alpha(at(src, j + 1)))
        } else if class == 2 {
            is_digit(c) || c == '_'
        } else if class == 3 {
            is_hex(c)
        } else {
            c == '0' || c == '1' || c == '_'
        };
        if !ok {
            return j;
        }
        j += 1;
    }
    j
}

/// Whether `word` spells `lit`.
pub fn word_is(word: &[char], lit: &[char]) -> (r: bool)
    ensures
        r == (word@ == lit@),
{
    if word.len() != lit.len() {
        return false;
    }
    let mut i: usize = 0;
    while i < word.len()
        invariant
            word@.len() == lit@.len(),
            0 <= i <= word@.len(),
            forall|j: int| 0 <= j < i ==> word@[j] == lit@[j],
        decreases word@.len() - i,
    {
        if word[i] != lit[i] {
            return false;
        }
        i += 1;
    }
    proof {
        assert(word@ =~= lit@);
    }
    true
}

/// The kind of an identifier-shaped word: a keyword's kind, else `Ident`.
pub fn keyword_kind(word: &[char]) -> (r: SyntaxKind)
    ensures
        r == keyword_of(word@),
{
    if word_is(word, &['a', 'n', 'd']) {
        SyntaxKind::KwAnd
    } else if word_is(word, &['b', 'r', 'e', 'a', 'k']) {
        SyntaxKind::KwBreak
    } else if word_is(word, &['c', 'o', 'n', 't', 'i', 'n', 'u', 'e']) {
        SyntaxKind::KwContinue
    } else if word_is(word, &['d', 'e', 'l', 'e', 't', 'e']) {
        SyntaxKind::KwDelete
    } else if word_is(word, &['d', 'o']) {
        SyntaxKind::KwDo
    } else if word_is(word, &['e', 'l', 's', 'e']) {
        SyntaxKind::KwElse
    } else if word_is(word, &['e', 'n', 'd']) {
        SyntaxKind::KwEnd
    } else if word_is(word, &['e', 'x', 't', 'e', 'r', 'n']) {
        SyntaxKind::KwExtern
    } else if word_is(word, &['f', 'a', 'l', 's', 'e']) {
        SyntaxKind::KwFalse
    } else if word_is(word, &['f', 'o', 'r']) {
        SyntaxKind::KwFor
    } else if word_is(word, &['i', 'n']) {
        SyntaxKind::KwIn
    } else if word_is(word, &['i', 'n', 'f']) {
        SyntaxKind::KwInf
    } else if word_is(word, &['n', 'a', 'n']) {
        SyntaxKind::KwNan
    } else if word_is(word, &['n', 'o', 't']) {
        SyntaxKind::KwNot
    } else if word_is(word, &['n', 'u', 'l', 'l']) {
        SyntaxKind::KwNull
    } else if word_is(word, &['o', 'f']) {
        SyntaxKind::KwOf
    } else if word_is(word, &['o', 'r']) {
        SyntaxKind::KwOr
    } else if word_is(word, &['r', 'e', 't', 'u', 'r', 'n']) {
        SyntaxKind::KwReturn
    } else if word_is(word, &['t', 'r', 'u', 'e']) {
        SyntaxKind::KwTrue
    } else if word_is(word, &['t', 'y', 'p', 'e']) {
        SyntaxKind::KwType
    } else if word_is(word, &['n', 'o', 'n', 'e']) {
        SyntaxKind::KwNone
    } else if word_is(word, &['u', 'n', 'l', 'e', 's', 's']) {
        SyntaxKind::KwUnless
    } else if word_is(word, &['w', 'h', 'e', 'n']) {
        SyntaxKind::KwWhen
    } else if word_is(word, &['w', 'h', 'i', 'l', 'e']) {
        SyntaxKind::KwWhile
    } else {
        SyntaxKind::Ident
    }
}

/// The end of a quoted string starting at `i` (which holds the quote):
/// just past the closing quote, or the end of the input.
fn quoted_end(src: &Vec<char>, i: usize, quote: char) -> (r: usize)
    requires
        i < src@.len(),
        src@.len() + 4 <= usize::MAX,
    ensures
        i < r <= src@.len(),
        r == quoted_end_v(src@, i + 1, quote),
{
    let mut j = i + 1;
    while j < src.len()
        invariant
            i < j <= src@.len(),
            quoted_end_v(src@, i + 1, quote) == quoted_end_v(src@, j as int, quote),
        decreases src@.len() - j,
    {
        let c = src[j];
        if c == '\\' {
            if j + 1 < src.len() {
                j += 2;
            } else {
                j += 1;
            }
        } else if c == quote {
            return j + 1;
        } else {
            j += 1;
        }
    }
    j
}

/// The end of a template literal starting at `i` (which holds the backtick):
/// just past the closing backtick outside any `${ }`, or the end of the input.
fn template_end(src: &Vec<char>, i: usize) -> (r: usize)
    requires
        i < src@.len(),
        src@.len() + 4 <= usize::MAX,
    ensures
        i < r <= src@.len(),
        r == template_end_v(src@, i + 1, 0),
{
    let mut j = i + 1;
    let mut depth: usize = 0;
    while j < src.len()
        invariant
            i < j <= src@.len(),
            depth <= j,
            template_end_v(src@, i + 1, 0) == template_end_v(src@, j as int, depth as int),
        decreases src@.len() - j,
    {
        let c = src[j];
        if c == '\\' {
            if j + 1 < src.len() {
                j += 2;
            } else {
                j += 1;
            }
        } else if depth == 0 && c == '`' {
            return j + 1;
        } else if c == '$' && at(src, j + 1) == '{' {
            depth += 1;
            j += 2;
        } else if depth > 0 && c == '}' {
            depth -= 1;
            j += 1;
        } else if depth > 0 && c == '{' {
            depth += 1;
            j += 1;
        } else {
            j += 1;
        }
    }
    j
}

/// The kind and end of the token starting at `i`.
pub fn scan_token(src: &Vec<char>, i: usize) -> (r: (SyntaxKind, usize))
    requires
        i < src@.len(),
        src@.len() + 4 <= usize::MAX,
    ensures
        i < r.1 <= src@.len(),
        token_fits(r.0, src@.subrange(i as int, r.1 as int)),
        r.0 == scan_v(src@, i as int).0,
        r.1 == scan_v(src@, i as int).1,
{
    reveal(scan_v);
    let c = src[i];
    let n = at(src, i + 1);
    if is_ws(c) {
        let e = run_end(src, i, 0);
        let e2 = if e == i { i + 1 } else { e };
        proof {
            let t = src@.subrange(i as int, e2 as int);
            assert forall|j: int| 0 <= j < t.len() implies is_ws_char(#[trigger] t[j]) by {
                assert(t[j] == src@[i + j]);
            }
        }
        return (SyntaxKind::Whitespace, e2);
    }
    if c == '/' && n == '/' {
        let mut j = i + 2;
        while j < src.len() && src[j] != '\n'
            invariant
                i + 2 <= j <= src@.len(),
                line_break_from(src@, i + 2) == line_break_from(src@, j as int),
            decreases src@.len() - j,
        {
            j += 1;
        }
        if j < src.len() {
            j += 1;
        }
        proof {
            assert(src@.subrange(i as int, j as int).take(2) =~= seq!['/', '/']);
        }
        return (SyntaxKind::LineComment, j);
    }
    if c == '/' && n == '*' {
        let mut j = i + 2;
        while j < src.len()
            invariant
                i + 2 <= j <= src@.len(),
                src@[i as int] == '/',
                src@[i + 1] == '*',
                block_comment_end(src@, i + 2) == block_comment_end(src@, j as int),
            decreases src@.len() - j,
        {
            if src[j] == '*' && at(src, j + 1) == '/' {
                proof {
                    assert(src@.subrange(i as int, j + 2).take(2) =~= seq!['/', '*']);
                    reveal(scan_v);
                }
                return (SyntaxKind::BlockComment, j + 2);
            }
            j += 1;
        }
        proof {
            assert(src@.subrange(i as int, j as int).take(2) =~= seq!['/', '*']);
        }
        return (SyntaxKind::BlockComment, j);
    }
    if is_digit(c) {
        if c == '0' && (n == 'x' || n == 'X') && is_hex(at(src, i + 2)) {
            return (SyntaxKind::HexNumber, run_end(src, i + 2, 3));
        }
        if c == '0' && (n == 'b' || n == 'B') && (at(src, i + 2) == '0' || at(src, i + 2) == '1') {
            return (SyntaxKind::BinaryNumber, run_end(src, i + 2, 4));
        }
        let mut e = run_end(src, i, 2);
        if e == i {
            e = i + 1;
        }
        if at(src, e) == '.' && is_digit(at(src, e + 1)) {
            e = run_end(src, e + 1, 2);
        }
        let x = at(src, e);
        if x == 'e' || x == 'E' {
            let s = at(src, e + 1);
            if is_digit(s) {
                e = run_end(src, e + 1, 2);
            } else if (s == '+' || s == '-') && is_digit(at(src, e + 2)) {
                e = run_end(src, e + 2, 2);
            }
        }
        return (SyntaxKind::DecimalNumber, e);
    }
    if c == '"' {
        return (SyntaxKind::DoubleString, quoted_end(src, i, '"'));
    }
    if c == '\'' {
        return (SyntaxKind::SingleString, quoted_end(src, i, '\''));
    }
    if c == '`' {
        return (SyntaxKind::TemplateLiteral, template_end(src, i));
    }
    if is_alpha(c) || c == '_' {
        return scan_word(src, i);
    }
    scan_punct(src, i)
}

/// An identifier or keyword starting at `i`.
fn scan_word(src: &Vec<char>, i: usize) -> (r: (SyntaxKind, usize))
    requires
        i < src@.len(),
        src@.len() + 4 <= usize::MAX,
        is_ident_start_char(src@[i as int]),
    ensures
        i < r.1 <= src@.len(),
        token_fits(r.0, src@.subrange(i as int, r.1 as int)),
        r.0 == word_v(src@, i as int).0,
        r.1 == word_v(src@, i as int).1,
{
    let e = run_end(src, i, 1);
    let e2 = if e == i { i + 1 } else { e };
    let word = slice_chars(src, i, e2);
    (keyword_kind(word.as_slice()), e2)
}

/// An operator, punctuation or error token starting at `i`.
fn scan_punct(src: &Vec<char>, i: usize) -> (r: (SyntaxKind, usize))
    requires
        i < src@.len(),
        src@.len() + 4 <= usize::MAX,
    ensures
        i < r.1 <= src@.len(),
        token_fits(r.0, src@.subrange(i as int, r.1 as int)),
        r.0 == punct_v(src@, i as int).0,
        r.1 == punct_v(src@, i as int).1,
{
    let c = src[i];
    let n = at(src, i + 1);
    let m = at(src, i + 2);
    if n == '=' {
        let k = if c == ':' {
            SyntaxKind::ColonEq
        } else if c == '=' {
            SyntaxKind::EqEq
        } else if c == '!' {
            SyntaxKind::BangEq
        } else if c == '>' {
            SyntaxKind::GtEq
        } else if c == '<' {
            SyntaxKind::LtEq
        } else if c == '+' {
            SyntaxKind::PlusEq
        } else if c == '-' {
            SyntaxKind::MinusEq
        } else if c == '*' {
            SyntaxKind::StarEq
        } else if c == '/' {
            SyntaxKind::SlashEq
        } else if c == '%' {
            SyntaxKind::PercentEq
        } else if c == '&' {
            SyntaxKind::AmpEq
        } else if c == '|' {
            SyntaxKind::PipeEq
        } else if c == '^' {
            SyntaxKind::CaretEq
        } else {
            SyntaxKind::Error
        };
        if k != SyntaxKind::Error {
            proof {
                assert(src@.subrange(i as int, i + 2) =~= seq![c, n]);
            }
            return (k, i + 2);
        }
    }
    if c == '-' && n == '>' {
        proof {
            assert(src@.subrange(i as int, i + 2) =~= seq![c, n]);
        }
        return (SyntaxKind::Arrow, i + 2);
    }
    if c == '.' && n == '.' && m == '.' {
        proof {
            assert(src@.subrange(i as int, i + 3) =~= seq![c, n, m]);
        }
        return (SyntaxKind::DotDotDot, i + 3);
    }
    if c == '.' && n == '.' {
        proof {
            assert(src@.subrange(i as int, i + 2) =~= seq![c, n]);
        }
        return (SyntaxKind::DotDot, i + 2);
    }
    if c == '.' && n == '(' {
        proof {
            assert(src@.subrange(i as int, i + 2) =~= seq![c, n]);
        }
        return (SyntaxKind::DotParen, i + 2);
    }
    let k = if c == '+' {
        SyntaxKind::Plus
    } else if c == '-' {
        SyntaxKind::Minus
    } else if c == '*' {
        SyntaxKind::Star
    } else if c == '/' {
        SyntaxKind::Slash
    } else if c == '%' {
        SyntaxKind::Percent
    } else if c == '&' {
        SyntaxKind::Amp
    } else if c == '|' {
        SyntaxKind::Pipe
    } else if c == '^' {
        SyntaxKind::Caret
    } else if c == '~' {
        SyntaxKind::Tilde
    } else if c == '=' {
        SyntaxKind::Eq
    } else if c == '>' {
        SyntaxKind::Gt
    } else if c == '<' {
        SyntaxKind::Lt
    } else if c == '.' {
        SyntaxKind::Dot
    } else if c == ',' {
        SyntaxKind::Comma
    } else if c == ':' {
        SyntaxKind::Colon
    } else if c == ';' {
        SyntaxKind::Semicolon
    } else if c == '#' {
        SyntaxKind::Hash
    } else if c == '@' {
        SyntaxKind::At
    } else if c == '(' {
        SyntaxKind::LParen
    } else if c == ')' {
        SyntaxKind::RParen
    } else if c == '[' {
        SyntaxKind::LBracket
    } else if c == ']' {
        SyntaxKind::RBracket
    } else if c == '{' {
        SyntaxKind::LBrace
    } else if c == '}' {
        SyntaxKind::RBrace
    } else {
        SyntaxKind::Error
    };
    proof {
        assert(src@.subrange(i as int, i + 1) =~= seq![c]);
    }
    (k, i + 1)
}

/// The characters of `src` from `a` to `b`.
pub fn slice_chars(src: &Vec<char>, a: usize, b: usize) -> (r: Vec<char>)
    requires
        a <= b <= src@.len(),
    ensures
        r@ == src@.subrange(a as int, b as int),
{
    let mut out: Vec<char> = Vec::new();
    let mut j = a;
    while j < b
        invariant
            a <= j <= b <= src@.len(),
            out@ == src@.subrange(a as int, j as int),
        decreases b - j,
    {
        out.push(src[j]);
        proof {
            assert(src@.subrange(a as int, j + 1) =~= src@.subrange(a as int, j as int).push(
                src@[j as int],
            ));
        }
        j += 1;
    }
    out
}

/// Splits source characters into tokens. Every token covers at least one
/// character and its text fits its kind (`token_fits`), and together they
/// cover the source exactly, in order.
pub fn lex_chars(src: &Vec<char>) -> (r: Vec<Token>)
    requires
        src@.len() + 4 <= usize::MAX,
    ensures
        concat_texts(token_views(r@)) == src@,
        forall|i: int| 0 <= i < r@.len() ==> (#[trigger] r@[i]).text@.len() > 0,
        forall|i: int| 0 <= i < r@.len() ==> token_fits((#[trigger] r@[i]).kind, r@[i].text@),
        token_views(r@) == lex_v(src@),
{
    let mut tokens: Vec<Token> = Vec::new();
    let mut pos: usize = 0;
    proof {
        assert(token_views(tokens@) + lex_from(src@, 0) =~= lex_v(src@));
    }
    while pos < src.len()
        invariant
            0 <= pos <= src@.len(),
            token_views(tokens@) + lex_from(src@, pos as int) == lex_v(src@),
            src@.len() + 4 <= usize::MAX,
            concat_texts(token_views(tokens@)) == src@.subrange(0, pos as int),
            forall|i: int| 0 <= i < tokens@.len() ==> (#[trigger] tokens@[i]).text@.len() > 0,
            forall|i: int| 0 <= i < tokens@.len() ==> token_fits(
                (#[trigger] tokens@[i]).kind,
                tokens@[i].text@,
            ),
        decreases src@.len() - pos,
    {
        let (kind, end) = scan_token(src, pos);
        let text = slice_chars(src, pos, end);
        let ghost before = tokens@;
        tokens.push(Token { kind, text });
        proof {
            assert(token_views(tokens@).drop_last() =~= token_views(before));
            lemma_lex_step(src@, pos as int, kind, end as int);
            assert(token_views(tokens@) =~= token_views(before).push((kind, src@.subrange(pos as int, end as int))));
            assert(token_views(tokens@) + lex_from(src@, end as int) =~= token_views(before) + lex_from(src@, pos as int));
            assert(src@.subrange(0, end as int) =~= src@.subrange(0, pos as int) + src@.subrange(
                pos as int,
                end as int,
            ));
        }
        pos = end;
    }
    proof {
        assert(src@.subrange(0, src@.len() as int) =~= src@);
        assert(token_views(tokens@) + lex_from(src@, pos as int) =~= token_views(tokens@));
    }
    tokens
}


/// Splits Rex source into tokens: at each position the longest token that
/// starts there (`lex_v`). They cover the source exactly, in order, and each
/// token's text fits its kind (`token_fits`).
pub fn lex(source: &str) -> (r: Vec<Token>)
    requires
        source@.len() + 4 <= usize::MAX,
    ensures
        token_views(r@) == lex_v(source@),
        concat_texts(token_views(r@)) == source@,
        forall|i: int| 0 <= i < r@.len() ==> (#[trigger] r@[i]).text@.len() > 0,
        forall|i: int| 0 <= i < r@.len() ==> token_fits((#[trigger] r@[i]).kind, r@[i].text@),
{
    let chars = str_chars(source);
    lex_chars(&chars)
}
/// Whether every character of `d` is a decimal digit.
pub open spec fn all_digit_chars(d: Seq<char>) -> bool {
    forall|j: int| 0 <= j < d.len() ==> is_digit_char(#[trigger] d[j])
}

/// A run of digits from `i` ends where the digits end.
proof fn lemma_digit_run(s: Seq<char>, i: int, end: int)
    requires
        0 <= i <= end <= s.len(),
        forall|j: int| i <= j < end ==> is_digit_char(#[trigger] s[j]),
        end == s.len() || (!is_digit_char(s[end]) && s[end] != '_'),
    ensures
        run_end_v(s, i, 2) == end,
    decreases end - i,
{
    if i < end {
        lemma_digit_run(s, i + 1, end);
    }
}

/// Digits, a point and digits make one decimal number token: for digit
/// runs `d1` and `d2`, the tokens of `d1.d2` are that one number.
pub proof fn law_decimal_fraction_is_one_token(d1: Seq<char>, d2: Seq<char>)
    requires
        d1.len() > 0,
        d2.len() > 0,
        all_digit_chars(d1),
        all_digit_chars(d2),
    ensures
        lex_v(d1 + seq!['.'] + d2) == seq![(SyntaxKind::DecimalNumber, d1 + seq!['.'] + d2)],
{
    let s = d1 + seq!['.'] + d2;
    let p = d1.len() as int;
    assert(s[0] == d1[0]);
    assert(is_digit_char(s[0]));
    assert forall|j: int| 0 <= j < p implies is_digit_char(#[trigger] s[j]) by {
        assert(s[j] == d1[j]);
    }
    assert(s[p] == '.');
    lemma_digit_run(s, 0, p);
    assert forall|j: int| p + 1 <= j < s.len() implies is_digit_char(#[trigger] s[j]) by {
        assert(s[j] == d2[j - p - 1]);
    }
    assert(s[p + 1] == d2[0]);
    lemma_digit_run(s, p + 1, s.len() as int);
    assert(char_at(s, p) == '.');
    assert(is_digit_char(char_at(s, p + 1)));
    assert(char_at(s, s.len() as int) == '\0');
    if d1[0] == '0' {
        assert(char_at(s, 1) != 'x' && char_at(s, 1) != 'X' && char_at(s, 1) != 'b' && char_at(s, 1)
            != 'B') by {
            if p > 1 {
                assert(s[1] == d1[1]);
            }
        }
    }
    assert(number_v(s, 0) == (SyntaxKind::DecimalNumber, s.len() as int));
    assert(scan_v(s, 0) == (SyntaxKind::DecimalNumber, s.len() as int)) by {
        reveal(scan_v);
    }
    lemma_lex_step(s, 0, SyntaxKind::DecimalNumber, s.len() as int);
    assert(s.subrange(0, s.len() as int) =~= s);
    assert(lex_from(s, s.len() as int) == Seq::<(SyntaxKind, Seq<char>)>::empty());
    assert(lex_v(s) =~= seq![(SyntaxKind::DecimalNumber, s)]);
}

} // verus!
