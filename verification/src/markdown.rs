//! Formatting the Rex code blocks of a markdown document.

use vstd::prelude::*;

use crate::text::{chars_to_string, str_chars};

verus! {

/// Index of the first line break of `s`, or its length.
pub open spec fn first_newline(s: Seq<char>) -> int
    decreases s.len(),
{
    if s.len() == 0 {
        0
    } else if s[0] == '\n' {
        0
    } else {
        1 + first_newline(s.drop_first())
    }
}

/// A line without the carriage return of a `\r\n` ending.
pub open spec fn strip_cr(line: Seq<char>) -> Seq<char> {
    if line.len() > 0 && line.last() == '\r' {
        line.drop_last()
    } else {
        line
    }
}

/// The lines of a text, split as `str::lines` does: at `\n` or `\r\n`, the
/// endings not included, a final line ending optional.
pub open spec fn text_lines(s: Seq<char>) -> Seq<Seq<char>>
    decreases s.len(),
{
    if s.len() == 0 {
        Seq::empty()
    } else {
        let k = first_newline(s);
        if k >= s.len() {
            seq![s]
        } else {
            proof {
                lemma_first_newline(s);
            }
            seq![strip_cr(s.take(k))] + text_lines(s.skip(k + 1))
        }
    }
}

pub proof fn lemma_first_newline(s: Seq<char>)
    ensures
        0 <= first_newline(s) <= s.len(),
        first_newline(s) < s.len() ==> s[first_newline(s)] == '\n',
        forall|j: int| 0 <= j < first_newline(s) ==> s[j] != '\n',
    decreases s.len(),
{
    if s.len() > 0 && s[0] != '\n' {
        lemma_first_newline(s.drop_first());
        assert forall|j: int| 0 <= j < first_newline(s) implies s[j] != '\n' by {
            if j > 0 {
                assert(s[j] == s.drop_first()[j - 1]);
            }
        }
    }
}

/// Whether a line starts with `prefix`.
pub open spec fn starts_with(line: Seq<char>, prefix: Seq<char>) -> bool {
    line.len() >= prefix.len() && line.take(prefix.len() as int) == prefix
}

/// A fence line: it starts with three backticks.
pub open spec fn is_fence(line: Seq<char>) -> bool {
    starts_with(line, seq!['`', '`', '`'])
}

/// The opening fence of a Rex block: "```rex", but not "```rexc",
/// "```rexd" or "```rext".
pub open spec fn is_rex_open(line: Seq<char>) -> bool {
    starts_with(line, seq!['`', '`', '`', 'r', 'e', 'x']) && !starts_with(
        line,
        seq!['`', '`', '`', 'r', 'e', 'x', 'c'],
    ) && !starts_with(line, seq!['`', '`', '`', 'r', 'e', 'x', 'd']) && !starts_with(
        line,
        seq!['`', '`', '`', 'r', 'e', 'x', 't'],
    )
}

/// The document after the lines from `i` on, where `in_rex` says whether a
/// Rex block is open and `fs` holds the formatted text of the blocks still
/// to close, in order. Lines outside blocks and the fences are kept, each
/// ending with a line break; a closed block's lines become its formatted
/// text; the lines of a block left open at the end are dropped.
pub open spec fn md_out(lines: Seq<Seq<char>>, i: int, in_rex: bool, fs: Seq<Seq<char>>) -> Seq<
    char,
>
    decreases lines.len() - i,
{
    if i < 0 || i >= lines.len() {
        Seq::empty()
    } else if in_rex {
        if is_fence(lines[i]) {
            let f = if fs.len() > 0 {
                fs[0]
            } else {
                Seq::empty()
            };
            f + seq!['\n'] + lines[i] + seq!['\n'] + md_out(lines, i + 1, false, fs.drop_first())
        } else {
            md_out(lines, i + 1, true, fs)
        }
    } else if is_rex_open(lines[i]) {
        lines[i] + seq!['\n'] + md_out(lines, i + 1, true, fs)
    } else {
        lines[i] + seq!['\n'] + md_out(lines, i + 1, false, fs)
    }
}

/// The bodies of the Rex blocks that close from line `i` on, in order: the
/// lines between the opening and the closing fence, each ending with a line
/// break. `in_rex` says whether a block is open, with the lines `body` so far.
pub open spec fn md_bodies(lines: Seq<Seq<char>>, i: int, in_rex: bool, body: Seq<char>) -> Seq<Seq<char>>
    decreases lines.len() - i,
{
    if i < 0 || i >= lines.len() {
        Seq::empty()
    } else if in_rex {
        if is_fence(lines[i]) {
            seq![body] + md_bodies(lines, i + 1, false, Seq::empty())
        } else {
            md_bodies(lines, i + 1, true, body + lines[i] + seq!['\n'])
        }
    } else if is_rex_open(lines[i]) {
        md_bodies(lines, i + 1, true, Seq::empty())
    } else {
        md_bodies(lines, i + 1, false, Seq::empty())
    }
}

/// Whether `f` is `t` without its trailing white space.
pub open spec fn trims_to(t: Seq<char>, f: Seq<char>) -> bool {
    exists|k: int|
        0 <= k <= t.len() && f == t.take(k) && (forall|j: int|
            k <= j < t.len() ==> is_white_space(#[trigger] t[j])) && (k == 0 || !is_white_space(
            t[k - 1],
        ))
}

/// Whether `f` is the formatted text of the block `body`: what `format`
/// makes of it (see `formats_to`) without trailing white space; a body too
/// long to lex is only trimmed.
pub open spec fn block_formatted(body: Seq<char>, f: Seq<char>) -> bool {
    if body.len() + 4 <= usize::MAX {
        exists|r: Seq<char>| crate::format::formats_to(body, r) && #[trigger] trims_to(r, f)
    } else {
        trims_to(body, f)
    }
}

/// Whether `c` is white space (the Unicode `White_Space` property, which
/// `char::is_whitespace` tests).
pub open spec fn is_white_space(c: char) -> bool {
    ('\t' <= c && c <= '\r') || c == ' ' || c == '\u{85}' || c == '\u{A0}' || c == '\u{1680}' || (
    '\u{2000}' <= c && c <= '\u{200A}') || c == '\u{2028}' || c == '\u{2029}' || c == '\u{202F}'
        || c == '\u{205F}' || c == '\u{3000}'
}

pub(crate) fn white_space(c: char) -> (r: bool)
    ensures
        r == is_white_space(c),
{
    ('\t' <= c && c <= '\r') || c == ' ' || c == '\u{85}' || c == '\u{A0}' || c == '\u{1680}' || (
    '\u{2000}' <= c && c <= '\u{200A}') || c == '\u{2028}' || c == '\u{2029}' || c == '\u{202F}'
        || c == '\u{205F}' || c == '\u{3000}'
}

/// Whether `line` starts with the characters of `prefix`.
pub(crate) fn line_starts_with(line: &Vec<char>, prefix: &[char]) -> (r: bool)
    ensures
        r == starts_with(line@, prefix@),
{
    if line.len() < prefix.len() {
        return false;
    }
    let mut i: usize = 0;
    while i < prefix.len()
        invariant
            0 <= i <= prefix@.len(),
            prefix@.len() <= line@.len(),
            forall|j: int| 0 <= j < i ==> line@[j] == prefix@[j],
        decreases prefix@.len() - i,
    {
        if line[i] != prefix[i] {
            proof {
                assert(line@.take(prefix@.len() as int)[i as int] != prefix@[i as int]);
            }
            return false;
        }
        i += 1;
    }
    proof {
        assert(line@.take(prefix@.len() as int) =~= prefix@);
    }
    true
}

/// Splits characters into lines as `str::lines` does.
pub(crate) fn split_lines(s: &Vec<char>) -> (r: Vec<Vec<char>>)
    ensures
        r@.len() == text_lines(s@).len(),
        forall|i: int| 0 <= i < r@.len() ==> (#[trigger] r@[i])@ == text_lines(s@)[i],
{
    let n = s.len();
    let mut out: Vec<Vec<char>> = Vec::new();
    let mut start: usize = 0;
    proof {
        assert(s@.skip(0) =~= s@);
    }
    while start < n
        invariant
            0 <= start <= n,
            n == s@.len(),
            out@.len() + text_lines(s@.skip(start as int)).len() == text_lines(s@).len(),
            forall|i: int| 0 <= i < out@.len() ==> (#[trigger] out@[i])@ == text_lines(s@)[i],
            forall|i: int|
                0 <= i < text_lines(s@.skip(start as int)).len() ==> text_lines(s@)[out@.len() + i]
                    == #[trigger] text_lines(s@.skip(start as int))[i],
        decreases n - start,
    {
        let ghost rest = s@.skip(start as int);
        proof {
            lemma_first_newline(rest);
        }
        let mut k = start;
        while k < n && s[k] != '\n'
            invariant
                start <= k <= n,
                n == s@.len(),
                forall|j: int| start <= j < k ==> s@[j] != '\n',
            decreases n - k,
        {
            k += 1;
        }
        proof {
            assert forall|j: int| 0 <= j < k - start implies rest[j] != '\n' by {
                assert(rest[j] == s@[start + j]);
            }
            if k < n {
                assert(rest[k - start] == '\n');
            }
            if first_newline(rest) < k - start {
                assert(rest[first_newline(rest)] == s@[start + first_newline(rest)]);
            }
            if first_newline(rest) > k - start {
                assert(rest[k - start] == s@[k as int]);
            }
            assert(first_newline(rest) == k - start);
        }
        let mut end = k;
        if k < n && k > start && s[k - 1] == '\r' {
            end = k - 1;
        }
        let line = crate::lexer::slice_chars(s, start, end);
        let ghost before = out@;
        out.push(line);
        proof {
            assert(rest.take(k - start) =~= s@.subrange(start as int, k as int));
            if k >= n {
                assert(rest =~= s@.subrange(start as int, n as int));
                assert(text_lines(rest) == seq![rest]);
                assert(text_lines(s@.skip(n as int)) =~= Seq::<Seq<char>>::empty());
            } else {
                assert(rest.skip(k - start + 1) =~= s@.skip(k + 1));
                assert(text_lines(rest) == seq![strip_cr(rest.take(k - start))] + text_lines(
                    s@.skip(k + 1),
                ));
                assert(line@ =~= strip_cr(rest.take(k - start)));
            }
            assert(text_lines(rest)[0] == line@);
            assert forall|i: int| 0 <= i < out@.len() implies (#[trigger] out@[i])@ == text_lines(
                s@,
            )[i] by {
                if i == before.len() {
                    assert(text_lines(s@)[before.len() as int] == text_lines(rest)[0]);
                }
            }
            let next = if k >= n {
                n as int
            } else {
                k + 1
            };
            assert forall|i: int|
                0 <= i < text_lines(s@.skip(next)).len() implies text_lines(s@)[out@.len() + i]
                == #[trigger] text_lines(s@.skip(next))[i] by {
                assert(text_lines(rest)[i + 1] == text_lines(s@.skip(next))[i]);
                assert(text_lines(s@)[before.len() + (i + 1) as int] == text_lines(rest)[i + 1]);
            }
        }
        start = if k >= n {
            n
        } else {
            k + 1
        };
    }
    proof {
        assert(s@.skip(n as int) =~= Seq::<char>::empty());
    }
    out
}

/// `text` without its trailing white space (`str::trim_end`).
fn trim_end_chars(text: &Vec<char>) -> (r: Vec<char>)
    ensures
        exists|k: int|
            0 <= k <= text@.len() && r@ == text@.take(k) && (forall|j: int|
                k <= j < text@.len() ==> is_white_space(#[trigger] text@[j])) && (k == 0
                || !is_white_space(text@[k - 1])),
{
    let mut end = text.len();
    while end > 0 && white_space(text[end - 1])
        invariant
            end <= text@.len(),
            forall|j: int| end <= j < text@.len() ==> is_white_space(#[trigger] text@[j]),
        decreases end,
    {
        end -= 1;
    }
    let r = crate::lexer::slice_chars(text, 0, end);
    proof {
        assert(r@ =~= text@.take(end as int));
    }
    r
}

/// Formats the Rex blocks of a markdown document (fenced "```rex"); all
/// other lines are kept.
pub fn format_markdown(content: &str) -> (r: String)
    requires
        content@.len() + 4 <= usize::MAX,
    ensures
        exists|fs: Seq<Seq<char>>|
            r@ == #[trigger] md_out(text_lines(content@), 0, false, fs) && fs.len() == md_bodies(
                text_lines(content@),
                0,
                false,
                Seq::empty(),
            ).len() && forall|k: int|
                0 <= k < fs.len() ==> block_formatted(
                    md_bodies(text_lines(content@), 0, false, Seq::empty())[k],
                    #[trigger] fs[k],
                ),
{
    let chars = str_chars(content);
    let lines = split_lines(&chars);
    let ghost ls = text_lines(content@);
    let mut out: Vec<char> = Vec::new();
    let mut body: Vec<char> = Vec::new();
    let mut in_rex = false;
    let ghost mut fs: Seq<Seq<char>> = Seq::empty();
    let ghost mut done: Seq<Seq<char>> = Seq::empty();
    let ghost all = md_bodies(ls, 0, false, Seq::empty());
    let mut i: usize = 0;
    proof {
        assert(done + md_bodies(ls, 0, false, body@) =~= all);
    }
    proof {
        assert forall|tail: Seq<Seq<char>>|
            #![trigger md_out(ls, 0, false, tail)]
            md_out(ls, 0, false, fs + tail) == out@ + md_out(ls, 0, false, tail) by {
            assert(fs + tail =~= tail);
            assert(out@ + md_out(ls, 0, false, tail) =~= md_out(ls, 0, false, tail));
        }
    }
    while i < lines.len()
        invariant
            0 <= i <= lines@.len(),
            lines@.len() == ls.len(),
            forall|j: int| 0 <= j < lines@.len() ==> (#[trigger] lines@[j])@ == ls[j],
            ls == text_lines(content@),
            forall|tail: Seq<Seq<char>>|
                #![trigger md_out(ls, i as int, in_rex, tail)]
                md_out(ls, 0, false, fs + tail) == out@ + md_out(ls, i as int, in_rex, tail),
            all == md_bodies(ls, 0, false, Seq::empty()),
            done + md_bodies(ls, i as int, in_rex, body@) == all,
            !in_rex ==> body@ == Seq::<char>::empty(),
            fs.len() == done.len(),
            forall|k: int| 0 <= k < fs.len() ==> block_formatted(done[k], #[trigger] fs[k]),
        decreases lines@.len() - i,
    {
        let line = &lines[i];
        let ghost before = out@;
        let ghost fs0 = fs;
        let ghost done0 = done;
        let ghost body0 = body@;
        if in_rex {
            if line_starts_with(line, &['`', '`', '`']) {
                // A block is a part of the document, so it is far below the
                // lexer's length limit; the text is kept as it is past that.
                let fchars = if body.len() <= usize::MAX - 4 {
                    let src = chars_to_string(&body);
                    let formatted = crate::format::format(src.as_str());
                    proof {
                        assert(crate::format::formats_to(body0, formatted@));
                    }
                    str_chars(formatted.as_str())
                } else {
                    body.clone()
                };
                let trimmed = trim_end_chars(&fchars);
                proof {
                    assert(trims_to(fchars@, trimmed@));
                    assert(block_formatted(body0, trimmed@));
                }
                push_chars_vec(&mut out, &trimmed);
                out.push('\n');
                push_chars_vec(&mut out, line);
                out.push('\n');
                body = Vec::new();
                in_rex = false;
                proof {
                    fs = fs0.push(trimmed@);
                    done = done0.push(body0);
                    assert(md_bodies(ls, i as int, true, body0) == seq![body0] + md_bodies(
                        ls,
                        i + 1,
                        false,
                        Seq::empty(),
                    ));
                    assert(done + md_bodies(ls, i + 1, false, Seq::empty()) =~= done0 + md_bodies(
                        ls,
                        i as int,
                        true,
                        body0,
                    ));
                    assert forall|k: int| 0 <= k < fs.len() implies block_formatted(
                        done[k],
                        #[trigger] fs[k],
                    ) by {
                        if k < fs0.len() {
                            assert(fs[k] == fs0[k] && done[k] == done0[k]);
                        }
                    }
                    assert forall|tail: Seq<Seq<char>>|
                        #![trigger md_out(ls, i + 1, false, tail)]
                        md_out(ls, 0, false, fs + tail) == out@ + md_out(ls, i + 1, false, tail) by {
                        let t2 = seq![trimmed@] + tail;
                        assert(fs + tail =~= fs0 + t2);
                        assert(t2.drop_first() =~= tail);
                        assert(md_out(ls, i as int, true, t2) == trimmed@ + seq!['\n'] + ls[i as int]
                            + seq!['\n'] + md_out(ls, i + 1, false, tail));
                        assert(before + (trimmed@ + seq!['\n'] + ls[i as int] + seq!['\n']
                            + md_out(ls, i + 1, false, tail)) =~= out@ + md_out(
                            ls,
                            i + 1,
                            false,
                            tail,
                        ));
                    }
                }
            } else {
                push_chars_vec(&mut body, line);
                body.push('\n');
                proof {
                    assert(body@ =~= body0 + ls[i as int] + seq!['\n']);
                    assert(md_bodies(ls, i as int, true, body0) == md_bodies(ls, i + 1, true, body@));
                    assert forall|tail: Seq<Seq<char>>|
                        #![trigger md_out(ls, i + 1, true, tail)]
                        md_out(ls, 0, false, fs + tail) == out@ + md_out(ls, i + 1, true, tail) by {
                        assert(md_out(ls, i as int, true, tail) == md_out(ls, i + 1, true, tail));
                    }
                }
            }
        } else {
            let opens = line_starts_with(line, &['`', '`', '`', 'r', 'e', 'x']) && !line_starts_with(
                line,
                &['`', '`', '`', 'r', 'e', 'x', 'c'],
            ) && !line_starts_with(line, &['`', '`', '`', 'r', 'e', 'x', 'd'])
                && !line_starts_with(line, &['`', '`', '`', 'r', 'e', 'x', 't']);
            push_chars_vec(&mut out, line);
            out.push('\n');
            if opens {
                in_rex = true;
            }
            proof {
                assert(md_bodies(ls, i as int, false, body0) == md_bodies(ls, i + 1, in_rex, body@));
                assert forall|tail: Seq<Seq<char>>|
                    #![trigger md_out(ls, i + 1, in_rex, tail)]
                    md_out(ls, 0, false, fs + tail) == out@ + md_out(ls, i + 1, in_rex, tail) by {
                    assert(md_out(ls, i as int, false, tail) == ls[i as int] + seq!['\n'] + md_out(
                        ls,
                        i + 1,
                        in_rex,
                        tail,
                    ));
                    assert(before + (ls[i as int] + seq!['\n'] + md_out(ls, i + 1, in_rex, tail))
                        =~= out@ + md_out(ls, i + 1, in_rex, tail));
                }
            }
        }
        i += 1;
    }
    proof {
        assert(md_bodies(ls, i as int, in_rex, body@) == Seq::<Seq<char>>::empty());
        assert(done =~= done + Seq::<Seq<char>>::empty());
        let tail = Seq::<Seq<char>>::empty();
        assert(fs + tail =~= fs);
        assert(md_out(ls, i as int, in_rex, tail) == Seq::<char>::empty());
        assert(md_out(ls, 0, false, fs + tail) == out@ + md_out(ls, i as int, in_rex, tail));
        assert(out@ + Seq::<char>::empty() =~= out@);
    }
    chars_to_string(&out)
}

/// Appends the characters of `cs` to `out`.
fn push_chars_vec(out: &mut Vec<char>, cs: &Vec<char>)
    ensures
        final(out)@ == old(out)@ + cs@,
{
    let mut i: usize = 0;
    while i < cs.len()
        invariant
            0 <= i <= cs@.len(),
            out@ == old(out)@ + cs@.take(i as int),
        decreases cs@.len() - i,
    {
        out.push(cs[i]);
        proof {
            assert(cs@.take(i + 1) =~= cs@.take(i as int).push(cs@[i as int]));
        }
        i += 1;
    }
    proof {
        assert(cs@.take(cs@.len() as int) =~= cs@);
    }
}

/// The lines from `a` to `b`, each followed by a line break.
pub open spec fn copied(lines: Seq<Seq<char>>, a: int, b: int) -> Seq<char>
    decreases b - a,
{
    if a >= b {
        Seq::empty()
    } else {
        lines[a] + seq!['\n'] + copied(lines, a + 1, b)
    }
}

/// Outside Rex blocks, lines that do not open one are copied unchanged.
proof fn lemma_copied(lines: Seq<Seq<char>>, i: int, k: int, fs: Seq<Seq<char>>)
    requires
        0 <= i <= k <= lines.len(),
        forall|j: int| i <= j < k ==> !is_rex_open(#[trigger] lines[j]),
    ensures
        md_out(lines, i, false, fs) == copied(lines, i, k) + md_out(lines, k, false, fs),
    decreases k - i,
{
    if i < k {
        assert(!is_rex_open(lines[i]));
        lemma_copied(lines, i + 1, k, fs);
        assert(lines[i] + seq!['\n'] + (copied(lines, i + 1, k) + md_out(lines, k, false, fs))
            =~= lines[i] + seq!['\n'] + copied(lines, i + 1, k) + md_out(lines, k, false, fs));
    } else {
        assert(Seq::<char>::empty() + md_out(lines, k, false, fs) =~= md_out(lines, k, false, fs));
    }
}

/// A line that starts with three backticks.
proof fn lemma_rex_open_is_fence(line: Seq<char>)
    ensures
        is_rex_open(line) ==> is_fence(line),
{
    if is_rex_open(line) {
        assert(line.take(3) =~= line.take(6).take(3));
        assert(seq!['`', '`', '`', 'r', 'e', 'x'].take(3) =~= seq!['`', '`', '`']);
    }
}

/// A fenced block opened by "```rexc", "```rexd" or "```rext" is not Rex
/// source: outside a Rex block, its opening line, its lines and its
/// closing fence are all copied unchanged.
pub proof fn law_other_fenced_blocks_copied(lines: Seq<Seq<char>>, i: int, k: int, fs: Seq<Seq<char>>)
    requires
        0 <= i < k < lines.len(),
        starts_with(lines[i], seq!['`', '`', '`', 'r', 'e', 'x', 'c']) || starts_with(
            lines[i],
            seq!['`', '`', '`', 'r', 'e', 'x', 'd'],
        ) || starts_with(lines[i], seq!['`', '`', '`', 'r', 'e', 'x', 't']),
        forall|j: int| i < j < k ==> !is_fence(#[trigger] lines[j]),
        lines[k] == seq!['`', '`', '`'],
    ensures
        md_out(lines, i, false, fs) == copied(lines, i, k + 1) + md_out(lines, k + 1, false, fs),
{
    assert forall|j: int| i <= j < k + 1 implies !is_rex_open(#[trigger] lines[j]) by {
        lemma_rex_open_is_fence(lines[j]);
        if j == k {
            assert(lines[j].len() < 6);
        }
    }
    lemma_copied(lines, i, k + 1, fs);
}

} // verus!
