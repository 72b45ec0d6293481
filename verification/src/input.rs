//! Deciding when the input line is finished, and the small pieces of text
//! logic behind the line editor (prompt, completion word, inline hints).
use vstd::prelude::*;

use nu_ansi_term::Style;

use crate::highlight::{highlight_styled, highlight_styled_spec, styled_view};
use crate::text::{alphanumeric, is_alphanumeric, push_char, string_views};
use crate::text::{
    chars_of, ends_with, ends_with_str, ends_with_v, eq_str, find_char, find_char_from, is_ws,
    is_ws_exec, lines, lines_v, slice, starts_with, starts_with_str, string_of, trim, trim_end,
    trim_end_v, trim_v, views,
};

verus! {

// ---------------------------------------------------------------------------
// Delimiter balance
// ---------------------------------------------------------------------------

/// Where the delimiter scan stands: inside a line comment, how deep in block
/// comments, inside a string or a character literal, and the open counts of
/// `(`, `[` and `{`.
pub struct DelimScan {
    pub line_comment: bool,
    pub block: int,
    pub string: bool,
    pub chr: bool,
    pub paren: int,
    pub bracket: int,
    pub brace: int,
}

pub open spec fn scan_start() -> DelimScan {
    DelimScan {
        line_comment: false,
        block: 0,
        string: false,
        chr: false,
        paren: 0,
        bracket: 0,
        brace: 0,
    }
}

/// One step of the scan at position `i`: where it goes next, and the new state.
pub open spec fn delim_step(s: Seq<char>, i: int, st: DelimScan) -> (int, DelimScan) {
    let ch = s[i];
    let next = if i + 1 < s.len() { s[i + 1] } else { '\0' };
    if st.line_comment {
        (i + 1, if ch == '\n' { DelimScan { line_comment: false, ..st } } else { st })
    } else if st.block > 0 {
        if ch == '{' && next == '-' {
            (i + 2, DelimScan { block: st.block + 1, ..st })
        } else if ch == '-' && next == '}' {
            (i + 2, DelimScan { block: st.block - 1, ..st })
        } else {
            (i + 1, st)
        }
    } else if st.string {
        if ch == '\\' {
            (i + 2, st)
        } else {
            (i + 1, if ch == '"' { DelimScan { string: false, ..st } } else { st })
        }
    } else if st.chr {
        if ch == '\\' {
            (i + 2, st)
        } else {
            (i + 1, if ch == '\'' { DelimScan { chr: false, ..st } } else { st })
        }
    } else if ch == '-' && next == '-' {
        (i + 2, DelimScan { line_comment: true, ..st })
    } else if ch == '{' && next == '-' {
        (i + 2, DelimScan { block: st.block + 1, ..st })
    } else if ch == '"' {
        (i + 1, DelimScan { string: true, ..st })
    } else if ch == '\'' {
        (i + 1, DelimScan { chr: true, ..st })
    } else if ch == '(' {
        (i + 1, DelimScan { paren: st.paren + 1, ..st })
    } else if ch == ')' {
        (i + 1, DelimScan { paren: st.paren - 1, ..st })
    } else if ch == '[' {
        (i + 1, DelimScan { bracket: st.bracket + 1, ..st })
    } else if ch == ']' {
        (i + 1, DelimScan { bracket: st.bracket - 1, ..st })
    } else if ch == '{' {
        (i + 1, DelimScan { brace: st.brace + 1, ..st })
    } else if ch == '}' {
        (i + 1, DelimScan { brace: st.brace - 1, ..st })
    } else {
        (i + 1, st)
    }
}

/// The scan state at the end of `s`, from position `i` in state `st`.
pub open spec fn delims_from(s: Seq<char>, i: int, st: DelimScan) -> DelimScan
    decreases s.len() + 1 - i,
{
    if i < 0 || i >= s.len() {
        st
    } else {
        let step = delim_step(s, i, st);
        proof {
            lemma_delim_step_advances(s, i, st);
        }
        delims_from(s, step.0, step.1)
    }
}

pub proof fn lemma_delim_step_advances(s: Seq<char>, i: int, st: DelimScan)
    requires
        0 <= i < s.len(),
    ensures
        delim_step(s, i, st).0 > i,
{
}

/// More `(`, `[` or `{` opened than closed, outside strings, character
/// literals and comments.
pub open spec fn unbalanced(s: Seq<char>) -> bool {
    let f = delims_from(s, 0, scan_start());
    f.paren > 0 || f.bracket > 0 || f.brace > 0
}

/// The scan of a text placed after `p` goes as the scan of the text alone.
proof fn lemma_delims_shift(p: Seq<char>, t: Seq<char>, j: int, st: DelimScan)
    requires
        0 <= j,
    ensures
        delims_from(p + t, p.len() + j, st) == delims_from(t, j, st),
    decreases t.len() + 1 - j,
{
    let s = p + t;
    let i = p.len() + j;
    if j < t.len() {
        assert(s[i] == t[j]);
        if j + 1 < t.len() {
            assert(s[i + 1] == t[j + 1]);
        }
        let a = delim_step(s, i, st);
        let b = delim_step(t, j, st);
        assert(a.0 == b.0 + p.len() && a.1 == b.1);
        lemma_delim_step_advances(t, j, st);
        lemma_delims_shift(p, t, b.0, b.1);
    }
}

/// Scan state outside comments, strings and character literals.
pub open spec fn at_rest(st: DelimScan) -> bool {
    !st.line_comment && st.block == 0 && !st.string && !st.chr
}

/// A character that the scan passes over without any effect outside
/// strings and comments.
pub open spec fn inert_char(c: char) -> bool {
    c != '"' && c != '\'' && c != '(' && c != ')' && c != '[' && c != ']' && c != '{' && c != '}'
        && c != '-' && c != '\\'
}

/// Characters that leave a scan at rest where it was.
proof fn lemma_inert_run(s: Seq<char>, i: int, n: int, st: DelimScan)
    requires
        0 <= i <= n <= s.len(),
        at_rest(st),
        forall|j: int| i <= j < n ==> inert_char(#[trigger] s[j]),
    ensures
        delims_from(s, i, st) == delims_from(s, n, st),
    decreases n - i,
{
    if i < n {
        assert(inert_char(s[i]));
        assert(delim_step(s, i, st) == (i + 1, st));
        lemma_inert_run(s, i + 1, n, st);
    }
}

/// Inside a string, characters other than `"` and `\` change nothing.
proof fn lemma_string_run(s: Seq<char>, i: int, n: int, st: DelimScan)
    requires
        0 <= i <= n <= s.len(),
        !st.line_comment && st.block == 0 && st.string,
        forall|j: int| i <= j < n ==> (#[trigger] s[j]) != '"' && s[j] != '\\',
    ensures
        delims_from(s, i, st) == delims_from(s, n, st),
    decreases n - i,
{
    if i < n {
        assert(s[i] != '"' && s[i] != '\\');
        assert(delim_step(s, i, st) == (i + 1, st));
        lemma_string_run(s, i + 1, n, st);
    }
}

/// Brackets inside a closed string literal are not counted: after a run of
/// plain characters (letters, digits, spaces and the like), a string
/// literal `"..."` (without `\` or `"` inside) leaves the counts as they
/// were, so the text is unbalanced exactly when what follows the literal is.
pub proof fn law_string_brackets_not_counted(pre: Seq<char>, b: Seq<char>, t: Seq<char>)
    requires
        forall|j: int| 0 <= j < pre.len() ==> inert_char(#[trigger] pre[j]),
        forall|j: int| 0 <= j < b.len() ==> (#[trigger] b[j]) != '"' && b[j] != '\\',
    ensures
        unbalanced(pre + seq!['"'] + b + seq!['"'] + t) == unbalanced(t),
{
    let q = seq!['"'] + b + seq!['"'];
    let s = pre + q + t;
    let st = scan_start();
    let n0 = pre.len() as int;
    let n1 = n0 + 1;
    let n2 = n1 + b.len();
    assert(s == pre + (q + t));
    assert forall|j: int| 0 <= j < n0 implies inert_char(#[trigger] s[j]) by {
        assert(s[j] == pre[j]);
    }
    lemma_inert_run(s, 0, n0, st);
    assert(s[n0] == '"');
    let st2 = DelimScan { string: true, ..st };
    assert(delim_step(s, n0, st) == (n1, st2));
    assert forall|j: int| n1 <= j < n2 implies (#[trigger] s[j]) != '"' && s[j] != '\\' by {
        assert(s[j] == b[j - n1]);
    }
    lemma_string_run(s, n1, n2, st2);
    assert(s[n2] == '"');
    assert(delim_step(s, n2, st2) == (n2 + 1, st));
    assert(s =~= (pre + q) + t);
    lemma_delims_shift(pre + q, t, 0, st);
    assert((pre + q).len() == n2 + 1);
    assert(delims_from(s, n0, st) == delims_from(s, n1, st2));
    assert(delims_from(s, n2, st2) == delims_from(s, n2 + 1, st));
    assert(delims_from(s, 0, st) == delims_from(t, 0, st));
    assert(pre + seq!['"'] + b + seq!['"'] + t =~= s);
}

proof fn lemma_comment_run(s: Seq<char>, i: int, st: DelimScan)
    requires
        0 <= i <= s.len(),
        st.line_comment,
        forall|j: int| i <= j < s.len() ==> (#[trigger] s[j]) != '\n',
    ensures
        delims_from(s, i, st) == st,
    decreases s.len() - i,
{
    if i < s.len() {
        assert(s[i] != '\n');
        assert(delim_step(s, i, st) == (i + 1, st));
        lemma_comment_run(s, i + 1, st);
    }
}

/// Brackets in a line comment are not counted: plain characters, then `--`
/// and a comment to the end of the line, are never unbalanced.
pub proof fn law_comment_brackets_not_counted(pre: Seq<char>, c: Seq<char>)
    requires
        forall|j: int| 0 <= j < pre.len() ==> inert_char(#[trigger] pre[j]),
        forall|j: int| 0 <= j < c.len() ==> (#[trigger] c[j]) != '\n',
    ensures
        !unbalanced(pre + seq!['-', '-'] + c),
{
    let s = pre + seq!['-', '-'] + c;
    let st = scan_start();
    let n0 = pre.len() as int;
    assert forall|j: int| 0 <= j < n0 implies inert_char(#[trigger] s[j]) by {
        assert(s[j] == pre[j]);
    }
    lemma_inert_run(s, 0, n0, st);
    assert(s[n0] == '-' && s[n0 + 1] == '-');
    let st2 = DelimScan { line_comment: true, ..st };
    assert(delim_step(s, n0, st) == (n0 + 2, st2));
    assert forall|j: int| n0 + 2 <= j < s.len() implies (#[trigger] s[j]) != '\n' by {
        assert(s[j] == c[j - n0 - 2]);
    }
    lemma_comment_run(s, n0 + 2, st2);
    assert(delims_from(s, n0, st) == delims_from(s, n0 + 2, st2));
}

/// An opening bracket that nothing closes leaves the text unbalanced.
pub proof fn law_open_bracket_unbalanced(pre: Seq<char>, o: char, post: Seq<char>)
    requires
        o == '(' || o == '[' || o == '{',
        forall|j: int| 0 <= j < pre.len() ==> inert_char(#[trigger] pre[j]),
        forall|j: int| 0 <= j < post.len() ==> inert_char(#[trigger] post[j]),
    ensures
        unbalanced(pre + seq![o] + post),
{
    let s = pre + seq![o] + post;
    let st = scan_start();
    let n0 = pre.len() as int;
    assert forall|j: int| 0 <= j < n0 implies inert_char(#[trigger] s[j]) by {
        assert(s[j] == pre[j]);
    }
    lemma_inert_run(s, 0, n0, st);
    assert(s[n0] == o);
    if n0 + 1 < s.len() {
        assert(s[n0 + 1] == post[0]);
        assert(inert_char(post[0]));
    }
    let st2 = delim_step(s, n0, st).1;
    assert(delim_step(s, n0, st).0 == n0 + 1);
    assert(at_rest(st2));
    assert forall|j: int| n0 + 1 <= j < s.len() implies inert_char(#[trigger] s[j]) by {
        assert(s[j] == post[j - n0 - 1]);
    }
    lemma_inert_run(s, n0 + 1, s.len() as int, st2);
    assert(delims_from(s, n0, st) == delims_from(s, n0 + 1, st2));
    assert(delims_from(s, s.len() as int, st2) == st2);
}

/// Whether a `"` not preceded by `\` toggles an odd number of times from `i` on.
pub open spec fn unclosed_from(s: Seq<char>, i: int, quoted: bool, prev: char) -> bool
    decreases s.len() - i,
{
    if i < 0 || i >= s.len() {
        quoted
    } else {
        let q = if s[i] == '"' && prev != '\\' { !quoted } else { quoted };
        unclosed_from(s, i + 1, q, s[i])
    }
}

pub open spec fn unclosed_string(s: Seq<char>) -> bool {
    unclosed_from(s, 0, false, '\0')
}

// ---------------------------------------------------------------------------
// Continuations
// ---------------------------------------------------------------------------

/// Index of the last whitespace character of `s`.
pub open spec fn last_ws(s: Seq<char>) -> Option<int>
    decreases s.len(),
{
    if s.len() == 0 {
        None
    } else if is_ws(s.last()) {
        Some(s.len() - 1)
    } else {
        last_ws(s.drop_last())
    }
}

/// The last word of `s`: what follows its last whitespace, or all of it.
pub open spec fn last_word(s: Seq<char>) -> Seq<char> {
    match last_ws(s) {
        Some(i) => s.skip(i + 1),
        None => s,
    }
}

/// A line that asks for more: it ends with an operator that needs a right
/// side, or its last word is a layout keyword.
pub open spec fn continues(line: Seq<char>) -> bool {
    let s = trim_end(line);
    ends_with(s, "->"@) || ends_with(s, "=>"@) || ends_with(s, "="@) || ends_with(s, "++"@)
        || ends_with(s, "<>"@) || ends_with(s, "$"@) || ends_with(s, "."@) || ends_with(s, "|"@)
        || ends_with(s, ","@) || ends_with(s, "::"@) || last_word(s) == "do"@ || last_word(s)
        == "where"@ || last_word(s) == "of"@ || last_word(s) == "let"@ || last_word(s) == "in"@
        || last_word(s) == "then"@ || last_word(s) == "else"@
}

/// The last line is indented and an earlier line asks for more.
pub open spec fn in_indented_block(s: Seq<char>) -> bool {
    let ls = lines(s);
    ls.len() >= 2 && (starts_with(ls.last(), " "@) || starts_with(ls.last(), "\t"@)) && exists|k: int|
        0 <= k < ls.len() - 1 && continues(trim(#[trigger] ls[k]))
}

/// The last line of `s` (`lines().last().unwrap_or("")`).
pub open spec fn last_line(s: Seq<char>) -> Seq<char> {
    if lines(s).len() > 0 {
        lines(s).last()
    } else {
        seq![]
    }
}

/// Some line of `s` is `:}` once trimmed.
pub open spec fn has_block_close(s: Seq<char>) -> bool {
    exists|k: int| 0 <= k < lines(s).len() && trim(#[trigger] lines(s)[k]) == ":}"@
}

/// Whether the editor should wait for another line.
pub open spec fn incomplete(input: Seq<char>) -> bool {
    let t = trim(input);
    if t.len() == 0 {
        false
    } else if starts_with(t, ":{"@) {
        !has_block_close(input)
    } else if starts_with(t, ":"@) {
        false
    } else if ends_with(input, "\n"@) {
        false
    } else if unbalanced(t) || unclosed_string(t) {
        true
    } else {
        let ll = trim(last_line(t));
        ends_with(ll, "\\"@) || continues(ll) || (find_char(t, '\n') is Some && in_indented_block(t))
    }
}

// ---------------------------------------------------------------------------
// Implementation
// ---------------------------------------------------------------------------

fn has_unbalanced_delimiters(s: &Vec<char>) -> (r: bool)
    ensures
        r == unbalanced(s@),
{
    let n = s.len();
    let mut line_comment = false;
    let mut block: usize = 0;
    let mut string = false;
    let mut chr = false;
    let mut paren_open: usize = 0;
    let mut paren_close: usize = 0;
    let mut bracket_open: usize = 0;
    let mut bracket_close: usize = 0;
    let mut brace_open: usize = 0;
    let mut brace_close: usize = 0;
    let mut i: usize = 0;
    while i < n
        invariant
            n == s@.len(),
            i <= n,
            block + paren_open + paren_close + bracket_open + bracket_close + brace_open
                + brace_close <= i,
            delims_from(
                s@,
                i as int,
                DelimScan {
                    line_comment,
                    block: block as int,
                    string,
                    chr,
                    paren: paren_open - paren_close,
                    bracket: bracket_open - bracket_close,
                    brace: brace_open - brace_close,
                },
            ) == delims_from(s@, 0, scan_start()),
        decreases n - i,
    {
        let ch = s[i];
        let next = if i + 1 < n {
            s[i + 1]
        } else {
            '\0'
        };
        let ghost i0 = i as int;
        let ghost st0 = DelimScan {
            line_comment,
            block: block as int,
            string,
            chr,
            paren: paren_open - paren_close,
            bracket: bracket_open - bracket_close,
            brace: brace_open - brace_close,
        };
        if line_comment {
            if ch == '\n' {
                line_comment = false;
            }
            i = i + 1;
        } else if block > 0 {
            if ch == '{' && next == '-' {
                block = block + 1;
                i = i + 2;
            } else if ch == '-' && next == '}' {
                block = block - 1;
                i = i + 2;
            } else {
                i = i + 1;
            }
        } else if string {
            if ch == '\\' {
                i = if i + 1 < n { i + 2 } else { n };
            } else {
                if ch == '"' {
                    string = false;
                }
                i = i + 1;
            }
        } else if chr {
            if ch == '\\' {
                i = if i + 1 < n { i + 2 } else { n };
            } else {
                if ch == '\'' {
                    chr = false;
                }
                i = i + 1;
            }
        } else if ch == '-' && next == '-' {
            line_comment = true;
            i = i + 2;
        } else if ch == '{' && next == '-' {
            block = block + 1;
            i = i + 2;
        } else {
            if ch == '"' {
                string = true;
            } else if ch == '\'' {
                chr = true;
            } else if ch == '(' {
                paren_open = paren_open + 1;
            } else if ch == ')' {
                paren_close = paren_close + 1;
            } else if ch == '[' {
                bracket_open = bracket_open + 1;
            } else if ch == ']' {
                bracket_close = bracket_close + 1;
            } else if ch == '{' {
                brace_open = brace_open + 1;
            } else if ch == '}' {
                brace_close = brace_close + 1;
            }
            i = i + 1;
        }
        proof {
            let cur = DelimScan {
                line_comment,
                block: block as int,
                string,
                chr,
                paren: paren_open - paren_close,
                bracket: bracket_open - bracket_close,
                brace: brace_open - brace_close,
            };
            let step = delim_step(s@, i0, st0);
            assert(delims_from(s@, i0, st0) == delims_from(s@, step.0, step.1));
            if step.0 != i {
                assert(step.0 >= n && i >= n);
                assert(step.1 == cur);
            } else {
                assert(step.1 == cur);
            }
        }
    }
    paren_open > paren_close || bracket_open > bracket_close || brace_open > brace_close
}

fn has_unclosed_string(s: &Vec<char>) -> (r: bool)
    ensures
        r == unclosed_string(s@),
{
    let mut quoted = false;
    let mut prev = '\0';
    let mut i: usize = 0;
    while i < s.len()
        invariant
            i <= s@.len(),
            unclosed_from(s@, i as int, quoted, prev) == unclosed_string(s@),
        decreases s.len() - i,
    {
        let ch = s[i];
        if ch == '"' && prev != '\\' {
            quoted = !quoted;
        }
        prev = ch;
        i = i + 1;
    }
    quoted
}

fn last_word_v(s: &Vec<char>) -> (r: Vec<char>)
    ensures
        r@ == last_word(s@),
{
    let n = s.len();
    let mut i: usize = n;
    assert(s@.take(n as int) =~= s@);
    while i > 0 && !is_ws_exec(s[i - 1])
        invariant
            i <= n,
            n == s@.len(),
            last_ws(s@) == last_ws(s@.take(i as int)),
        decreases i,
    {
        assert(s@.take(i as int).drop_last() =~= s@.take(i - 1));
        i = i - 1;
    }
    if i == 0 {
        assert(s@.take(0) =~= Seq::<char>::empty());
        s.clone()
    } else {
        assert(s@.take(i as int).last() == s@[i - 1]);
        let r = slice(s, i, n);
        assert(r@ =~= s@.skip(i as int));
        r
    }
}

fn ends_with_continuation(line: &Vec<char>) -> (r: bool)
    ensures
        r == continues(line@),
{
    let s = trim_end_v(line);
    if ends_with_str(&s, "->") || ends_with_str(&s, "=>") || ends_with_str(&s, "=") || ends_with_str(
        &s,
        "++",
    ) || ends_with_str(&s, "<>") || ends_with_str(&s, "$") || ends_with_str(&s, ".")
        || ends_with_str(&s, "|") || ends_with_str(&s, ",") || ends_with_str(&s, "::") {
        return true;
    }
    let w = last_word_v(&s);
    eq_str(&w, "do") || eq_str(&w, "where") || eq_str(&w, "of") || eq_str(&w, "let") || eq_str(
        &w,
        "in",
    ) || eq_str(&w, "then") || eq_str(&w, "else")
}

fn is_in_indented_block(s: &Vec<char>) -> (r: bool)
    ensures
        r == in_indented_block(s@),
{
    let ls = lines_v(s);
    let ghost lsv = views(ls@);
    assert(lsv == lines(s@));
    if ls.len() < 2 {
        return false;
    }
    let last = &ls[ls.len() - 1];
    assert(lsv.last() == last@);
    if !starts_with_str(last, " ") && !starts_with_str(last, "\t") {
        return false;
    }
    let mut i: usize = 0;
    while i < ls.len() - 1
        invariant
            ls@.len() >= 2,
            i <= ls@.len() - 1,
            lsv == views(ls@),
            lsv == lines(s@),
            forall|k: int| 0 <= k < i ==> !continues(trim(#[trigger] lsv[k])),
            starts_with(lsv.last(), " "@) || starts_with(lsv.last(), "\t"@),
        decreases ls.len() - 1 - i,
    {
        let t = trim_v(&ls[i]);
        assert(lsv[i as int] == ls@[i as int]@);
        if ends_with_continuation(&t) {
            assert(continues(trim(lines(s@)[i as int])));
            return true;
        }
        i = i + 1;
    }
    false
}

fn has_block_close_v(input: &Vec<char>) -> (r: bool)
    ensures
        r == has_block_close(input@),
{
    let ls = lines_v(input);
    let mut i: usize = 0;
    while i < ls.len()
        invariant
            i <= ls@.len(),
            views(ls@) == lines(input@),
            forall|k: int| 0 <= k < i ==> trim(#[trigger] lines(input@)[k]) != ":}"@,
        decreases ls.len() - i,
    {
        assert(lines(input@)[i as int] == ls@[i as int]@);
        let t = trim_v(&ls[i]);
        if eq_str(&t, ":}") {
            return true;
        }
        i = i + 1;
    }
    false
}

/// Whether the line editor should wait for more input before sending it to
/// GHCi. A `:{` block waits for its `:}`; other commands never wait; a
/// trailing newline submits at once. Otherwise the input waits while a
/// bracket, string or character literal is open, or while its last line
/// ends with `\`, an operator that needs a right side (`->`, `=`, `$`, ...)
/// or a layout keyword (`do`, `where`, `of`, ...), or while it is inside an
/// indented block that such a line opened.
pub fn is_incomplete(input: &str) -> (r: bool)
    ensures
        r == incomplete(input@),
{
    let v = chars_of(input);
    let t = trim_v(&v);
    if t.len() == 0 {
        return false;
    }
    if starts_with_str(&t, ":{") {
        return !has_block_close_v(&v);
    }
    if starts_with_str(&t, ":") {
        return false;
    }
    if ends_with_str(&v, "\n") {
        return false;
    }
    if has_unbalanced_delimiters(&t) {
        return true;
    }
    if has_unclosed_string(&t) {
        return true;
    }
    let ls = lines_v(&t);
    let ll: Vec<char> = if ls.len() > 0 {
        trim_v(&ls[ls.len() - 1])
    } else {
        trim_v(&Vec::new())
    };
    assert(ll@ == trim(last_line(t@)));
    if ends_with_str(&ll, "\\") {
        return true;
    }
    if ends_with_continuation(&ll) {
        return true;
    }
    let has_nl = match find_char_from(&t, '\n', 0) {
        Some(_) => true,
        None => false,
    };
    assert(t@.skip(0) =~= t@);
    has_nl && is_in_indented_block(&t)
}

// ---------------------------------------------------------------------------
// Prompt
// ---------------------------------------------------------------------------

/// The prompt: `λ>` before the input, nothing in JSON mode.
pub struct GhciPrompt {
    pub json_mode: bool,
}

impl GhciPrompt {
    pub fn render_prompt_left(&self) -> (r: &'static str)
        ensures
            r@ == (if self.json_mode {
                ""@
            } else {
                "\u{03bb}>"@
            }),
    {
        if self.json_mode {
            ""
        } else {
            "\u{03bb}>"
        }
    }

    pub fn render_prompt_right(&self) -> (r: &'static str)
        ensures
            r@ == ""@,
    {
        ""
    }

    pub fn render_prompt_indicator(&self) -> (r: &'static str)
        ensures
            r@ == " "@,
    {
        " "
    }

    pub fn render_prompt_multiline_indicator(&self) -> (r: &'static str)
        ensures
            r@ == "   "@,
    {
        "   "
    }

    /// `(search: term) `, or `(failing search: term) ` when nothing matches.
    pub fn render_prompt_history_search_indicator(&self, failing: bool, term: &str) -> (r: String)
        ensures
            r@ == "("@ + (if failing {
                "failing "@
            } else {
                Seq::<char>::empty()
            }) + "search: "@ + term@ + ") "@,
    {
        let mut r = String::new();
        r.append("(");
        if failing {
            r.append("failing ");
        }
        r.append("search: ");
        r.append(term);
        r.append(") ");
        assert(r@ =~= "("@ + (if failing {
            "failing "@
        } else {
            Seq::<char>::empty()
        }) + "search: "@ + term@ + ") "@);
        r
    }
}

// ---------------------------------------------------------------------------
// Highlighting and validation for the line editor
// ---------------------------------------------------------------------------

/// Highlights the line being edited.
pub struct HaskellHighlighter;

impl HaskellHighlighter {
    /// The styled pieces of the line; none for an empty line.
    pub fn highlight(&self, line: &str) -> (r: Vec<(Style, String)>)
        ensures
            styled_view(r@) == (if line@.len() == 0 {
                seq![]
            } else {
                highlight_styled_spec(line@)
            }),
    {
        if line.is_empty() {
            let r: Vec<(Style, String)> = Vec::new();
            assert(styled_view(r@) =~= seq![]);
            r
        } else {
            highlight_styled(line)
        }
    }
}

/// Tells the line editor whether the input is finished.
pub struct HaskellValidator;

impl HaskellValidator {
    /// `true` when the editor should wait for more input.
    pub fn validate(&self, line: &str) -> (r: bool)
        ensures
            r == incomplete(line@),
    {
        is_incomplete(line)
    }
}

// ---------------------------------------------------------------------------
// The word under completion
// ---------------------------------------------------------------------------

/// Characters that end a word for completion.
pub open spec fn is_word_sep(c: char) -> bool {
    is_ws(c) || c == '(' || c == '[' || c == ','
}

/// Where the last word of `s` starts: after the last separator, or at 0.
pub open spec fn word_start(s: Seq<char>) -> int
    decreases s.len(),
{
    if s.len() == 0 {
        0
    } else if is_word_sep(s.last()) {
        s.len() as int
    } else {
        word_start(s.drop_last())
    }
}

/// The word being typed at the end of `s`.
pub open spec fn current_word(s: Seq<char>) -> Seq<char> {
    s.skip(word_start(s))
}

/// The text before the word being typed.
pub open spec fn before_word(s: Seq<char>) -> Seq<char> {
    s.take(word_start(s))
}

fn word_start_v(v: &Vec<char>) -> (r: usize)
    ensures
        r == word_start(v@),
        r <= v@.len(),
{
    let mut i: usize = v.len();
    assert(v@.take(i as int) =~= v@);
    while i > 0 && !(is_ws_exec(v[i - 1]) || v[i - 1] == '(' || v[i - 1] == '[' || v[i - 1] == ',')
        invariant
            i <= v@.len(),
            word_start(v@) == word_start(v@.take(i as int)),
        decreases i,
    {
        assert(v@.take(i as int).drop_last() =~= v@.take(i - 1));
        i = i - 1;
    }
    proof {
        if i > 0 {
            assert(v@.take(i as int).last() == v@[i - 1]);
        }
    }
    i
}

/// The word before the cursor that completion replaces; `prefix` is the line
/// up to the cursor. The word starts after the last whitespace, `(`, `[` or
/// `,`.
pub fn completion_word(prefix: &str) -> (r: String)
    ensures
        r@ == current_word(prefix@),
{
    let v = chars_of(prefix);
    let k = word_start_v(&v);
    let n = v.len();
    let w = slice(&v, k, n);
    assert(w@ =~= v@.skip(k as int));
    string_of(&w)
}

// ---------------------------------------------------------------------------
// Inline hints
// ---------------------------------------------------------------------------

/// The completions that GHCi gave for a line, kept to answer later keys of
/// the same word without asking again.
#[derive(Debug, Clone)]
pub struct HintCache {
    /// The text before the word.
    pub before: String,
    /// The word as it was when GHCi was asked.
    pub word: String,
    pub completions: Vec<String>,
}

/// What a hint needs next.
#[derive(Debug, Clone, PartialEq, Eq)]
pub enum HintLookup {
    /// Show no hint.
    Skip,
    /// Show this rest of the word, or nothing.
    Show(Option<String>),
    /// Ask GHCi for the completions of the line, then call
    /// [`hint_from_completions`].
    Ask,
}

/// The first completion that starts with `w`.
pub open spec fn first_with_prefix(cs: Seq<Seq<char>>, w: Seq<char>) -> Option<Seq<char>>
    decreases cs.len(),
{
    if cs.len() == 0 {
        None
    } else if starts_with(cs[0], w) {
        Some(cs[0])
    } else {
        first_with_prefix(cs.drop_first(), w)
    }
}

/// The rest of `first` after the word, where `first` extends it.
pub open spec fn suffix_of(first: Seq<char>, w: Seq<char>) -> Option<Seq<char>> {
    if first.len() > w.len() && starts_with(first, w) {
        Some(first.skip(w.len() as int))
    } else {
        None
    }
}

/// Whether a line is worth a hint: the cursor at its end, the line not
/// empty and the word at least two bytes long.
pub open spec fn wants_hint(line: Seq<char>, at_end: bool) -> bool {
    at_end && line.len() > 0 && crate::pretty::width(current_word(line)) >= 2
}

/// What the cache answers for the word of `line`: a completion, when the text
/// before the word is the same and the word only grew.
pub open spec fn cache_answer(cache: Option<(Seq<char>, Seq<char>, Seq<Seq<char>>)>, line: Seq<char>) -> Option<Seq<char>> {
    match cache {
        Some((before, word, cs)) => if before == before_word(line) && starts_with(
            current_word(line),
            word,
        ) {
            first_with_prefix(cs, current_word(line))
        } else {
            None
        },
        None => None,
    }
}

pub open spec fn cache_view(cache: Option<HintCache>) -> Option<(Seq<char>, Seq<char>, Seq<Seq<char>>)> {
    match cache {
        Some(c) => Some((c.before@, c.word@, string_views(c.completions@))),
        None => None,
    }
}

fn first_with_prefix_v(cs: &Vec<String>, w: &Vec<char>) -> (r: Option<String>)
    ensures
        match r {
            Some(s) => first_with_prefix(string_views(cs@), w@) == Some(s@),
            None => first_with_prefix(string_views(cs@), w@) is None,
        },
{
    let ghost all = string_views(cs@);
    let mut i: usize = 0;
    assert(all.skip(0) =~= all);
    while i < cs.len()
        invariant
            i <= cs@.len(),
            all == string_views(cs@),
            first_with_prefix(all, w@) == first_with_prefix(all.skip(i as int), w@),
        decreases cs.len() - i,
    {
        let c = chars_of(cs[i].as_str());
        assert(all.skip(i as int)[0] == c@);
        assert(all.skip(i as int).drop_first() =~= all.skip(i + 1));
        if crate::text::starts_with_v(&c, w) {
            return Some(string_of(&c));
        }
        i = i + 1;
    }
    assert(all.skip(i as int) =~= Seq::<Seq<char>>::empty());
    None
}

fn suffix_v(first: &Vec<char>, w: &Vec<char>) -> (r: Option<String>)
    ensures
        match r {
            Some(s) => suffix_of(first@, w@) == Some(s@),
            None => suffix_of(first@, w@) is None,
        },
{
    if first.len() > w.len() && crate::text::starts_with_v(first, w) {
        let n = first.len();
        let t = slice(first, w.len(), n);
        assert(t@ =~= first@.skip(w@.len() as int));
        Some(string_of(&t))
    } else {
        None
    }
}

/// The hint for the line being edited, from the cache where it answers.
/// `at_end` tells whether the cursor is at the end of the line.
pub fn hint_lookup(cache: &Option<HintCache>, line: &str, at_end: bool) -> (r: HintLookup)
    ensures
        !wants_hint(line@, at_end) ==> r == HintLookup::Skip,
        wants_hint(line@, at_end) ==> match cache_answer(cache_view(*cache), line@) {
            Some(first) => r matches HintLookup::Show(o) && crate::text::opt_string_view(o)
                == suffix_of(first, current_word(line@)),
            None => r == HintLookup::Ask,
        },
{
    let v = chars_of(line);
    let k = word_start_v(&v);
    let n = v.len();
    let word = slice(&v, k, n);
    let before = slice(&v, 0, k);
    assert(word@ =~= current_word(v@));
    assert(before@ =~= before_word(v@));
    if !at_end || n == 0 || crate::pretty::width_of(&word) < 2 {
        return HintLookup::Skip;
    }
    match cache {
        Some(c) => {
            let cb = chars_of(c.before.as_str());
            let cw = chars_of(c.word.as_str());
            if crate::text::eq_v(&cb, &before) && crate::text::starts_with_v(&word, &cw) {
                match first_with_prefix_v(&c.completions, &word) {
                    Some(f) => {
                        let fv = chars_of(f.as_str());
                        HintLookup::Show(suffix_v(&fv, &word))
                    },
                    None => HintLookup::Ask,
                }
            } else {
                HintLookup::Ask
            }
        },
        None => HintLookup::Ask,
    }
}

/// After GHCi answered `completions` for `line`: the cache to keep and the
/// rest of the first completion that extends the word, if any.
pub fn hint_from_completions(line: &str, completions: Vec<String>) -> (r: (HintCache, Option<String>))
    ensures
        r.0.before@ == before_word(line@),
        r.0.word@ == current_word(line@),
        string_views(r.0.completions@) == string_views(completions@),
        crate::text::opt_string_view(r.1) == (match first_with_prefix(
            string_views(completions@),
            current_word(line@),
        ) {
            Some(first) => suffix_of(first, current_word(line@)),
            None => None,
        }),
{
    let v = chars_of(line);
    let k = word_start_v(&v);
    let n = v.len();
    let word = slice(&v, k, n);
    let before = slice(&v, 0, k);
    assert(word@ =~= current_word(v@));
    assert(before@ =~= before_word(v@));
    let hint = match first_with_prefix_v(&completions, &word) {
        Some(f) => {
            let fv = chars_of(f.as_str());
            suffix_v(&fv, &word)
        },
        None => None,
    };
    let cache = HintCache { before: string_of(&before), word: string_of(&word), completions };
    (cache, hint)
}

/// A character that continues a word of a hint.
pub open spec fn hint_word_char(c: char) -> bool {
    alphanumeric(c) || c == '_' || c == '\''
}

/// How much of a hint the next-token key accepts: the characters up to the
/// end of the first word, with what comes before it.
pub open spec fn token_len(s: Seq<char>, found: bool) -> int
    decreases s.len(),
{
    if s.len() == 0 {
        0
    } else if hint_word_char(s[0]) {
        1 + token_len(s.drop_first(), true)
    } else if found {
        0
    } else {
        1 + token_len(s.drop_first(), false)
    }
}

/// The part of a hint up to the end of its next word.
pub open spec fn hint_token(s: Seq<char>) -> Seq<char> {
    s.take(token_len(s, false))
}

proof fn lemma_token_len(s: Seq<char>, found: bool)
    ensures
        0 <= token_len(s, found) <= s.len(),
    decreases s.len(),
{
    if s.len() > 0 {
        lemma_token_len(s.drop_first(), true);
        lemma_token_len(s.drop_first(), false);
    }
}

/// The part of the hint up to the end of its next word, for accepting a hint
/// word by word.
pub fn next_hint_token(hint: &str) -> (r: String)
    ensures
        r@ == hint_token(hint@),
{
    let v = chars_of(hint);
    let n = v.len();
    let mut i: usize = 0;
    let mut found = false;
    let mut stop = false;
    proof {
        lemma_token_len(v@, false);
        assert(v@.skip(0) =~= v@);
    }
    while i < n && !stop
        invariant
            i <= n,
            n == v@.len(),
            stop ==> token_len(v@, false) == i,
            !stop ==> token_len(v@, false) == i + token_len(v@.skip(i as int), found),
        decreases n - i + (if stop {
            0int
        } else {
            1int
        }),
    {
        let c = v[i];
        assert(v@.skip(i as int)[0] == c);
        assert(v@.skip(i as int).drop_first() =~= v@.skip(i + 1));
        if is_alphanumeric(c) || c == '_' || c == '\'' {
            found = true;
            i = i + 1;
        } else if found {
            stop = true;
        } else {
            i = i + 1;
        }
    }
    proof {
        if !stop {
            assert(v@.skip(i as int) =~= Seq::<char>::empty());
        }
    }
    let t = slice(&v, 0, i);
    string_of(&t)
}

// ---------------------------------------------------------------------------
// The program's own commands among the completions
// ---------------------------------------------------------------------------

/// The commands that the program adds to GHCi's.
pub open spec fn own_commands() -> Seq<Seq<char>> {
    seq![
        ":scratch"@,
        ":config"@,
        ":config_pretty_errors"@,
        ":config_pretty_print"@,
        ":config_show_timing"@,
        ":config_max_output_lines"@,
        ":config_max_output_chars"@,
        ":edit"@,
        ":undo"@,
        ":doc"@,
        ":hoogle"@,
    ]
}

/// The own commands, from the `i`-th on, that complete `word` and are not
/// among `cs` already.
pub open spec fn extra_commands(word: Seq<char>, cs: Seq<Seq<char>>, i: int) -> Seq<Seq<char>>
    decreases own_commands().len() - i,
{
    if i < 0 || i >= own_commands().len() {
        seq![]
    } else {
        let c = own_commands()[i];
        (if starts_with(c, word) && !cs.contains(c) {
            seq![c]
        } else {
            seq![]
        }) + extra_commands(word, cs, i + 1)
    }
}

/// GHCi's completions of a word, followed, for a word that starts with `:`,
/// by the program's own commands that complete it and GHCi did not give.
pub open spec fn with_own(word: Seq<char>, cs: Seq<Seq<char>>) -> Seq<Seq<char>> {
    if starts_with(word, ":"@) {
        cs + extra_commands(word, cs, 0)
    } else {
        cs
    }
}

fn own_command(i: usize) -> (r: &'static str)
    requires
        i < 11,
    ensures
        r@ == own_commands()[i as int],
{
    if i == 0 {
        ":scratch"
    } else if i == 1 {
        ":config"
    } else if i == 2 {
        ":config_pretty_errors"
    } else if i == 3 {
        ":config_pretty_print"
    } else if i == 4 {
        ":config_show_timing"
    } else if i == 5 {
        ":config_max_output_lines"
    } else if i == 6 {
        ":config_max_output_chars"
    } else if i == 7 {
        ":edit"
    } else if i == 8 {
        ":undo"
    } else if i == 9 {
        ":doc"
    } else {
        ":hoogle"
    }
}

fn contains_string(cs: &Vec<String>, c: &Vec<char>) -> (r: bool)
    ensures
        r == string_views(cs@).contains(c@),
{
    let mut i: usize = 0;
    while i < cs.len()
        invariant
            i <= cs@.len(),
            forall|j: int| 0 <= j < i ==> string_views(cs@)[j] != c@,
        decreases cs.len() - i,
    {
        let x = chars_of(cs[i].as_str());
        if crate::text::eq_v(&x, c) {
            assert(string_views(cs@)[i as int] == c@);
            return true;
        }
        i = i + 1;
    }
    false
}

/// The longest candidate list whose candidates are shown with their types.
pub const TYPED_LIST_MAX: usize = 10;

/// Whether a completion menu of `count` candidates shows the type of each:
/// only a short list does, since each type is one more query to GHCi.
pub fn types_shown(count: usize) -> (r: bool)
    ensures
        r == (count <= TYPED_LIST_MAX),
{
    count <= TYPED_LIST_MAX
}

/// Adds the program's own commands (`:scratch`, `:config_*`, `:edit`,
/// `:undo`, `:doc`, `:hoogle`) that complete `word` to GHCi's completions.
pub fn with_own_commands(word: &str, completions: Vec<String>) -> (r: Vec<String>)
    ensures
        string_views(r@) == with_own(word@, string_views(completions@)),
{
    let w = chars_of(word);
    if !starts_with_str(&w, ":") {
        return completions;
    }
    let ghost cs = string_views(completions@);
    let mut extra: Vec<String> = Vec::new();
    let mut i: usize = 11;
    assert(extra_commands(w@, cs, 11) =~= Seq::<Seq<char>>::empty());
    while i > 0
        invariant
            i <= 11,
            cs == string_views(completions@),
            own_commands().len() == 11,
            string_views(extra@) == extra_commands(w@, cs, i as int),
        decreases i,
    {
        let c = own_command(i - 1);
        let cv = chars_of(c);
        let ghost tail = string_views(extra@);
        if crate::text::starts_with_v(&cv, &w) && !contains_string(&completions, &cv) {
            extra.insert(0, c.to_string());
            assert(string_views(extra@) =~= seq![cv@] + tail);
        } else {
            assert(Seq::<Seq<char>>::empty() + tail =~= tail);
        }
        i = i - 1;
    }
    let mut r = completions;
    let ghost before = string_views(r@);
    let mut j: usize = 0;
    while j < extra.len()
        invariant
            j <= extra@.len(),
            string_views(r@) == before + string_views(extra@).take(j as int),
        decreases extra.len() - j,
    {
        let ghost prev = string_views(r@);
        r.push(extra[j].clone());
        assert(string_views(r@) =~= prev.push(extra@[j as int]@));
        assert(string_views(extra@).take(j + 1) =~= string_views(extra@).take(j as int).push(
            extra@[j as int]@,
        ));
        j = j + 1;
    }
    assert(string_views(extra@).take(extra@.len() as int) =~= string_views(extra@));
    r
}

// ---------------------------------------------------------------------------
// When the editor waits
// ---------------------------------------------------------------------------

/// Blank input never waits; a GHCi command other than `:{` never waits; a
/// trailing newline submits at once; a `:{` block waits exactly until a
/// line closes it.
pub proof fn law_incomplete_submits(input: Seq<char>)
    ensures
        trim(input).len() == 0 ==> !incomplete(input),
        starts_with(trim(input), ":"@) && !starts_with(trim(input), ":{"@) ==> !incomplete(input),
        !starts_with(trim(input), ":"@) && ends_with(input, "\n"@) ==> !incomplete(input),
        starts_with(trim(input), ":{"@) ==> (incomplete(input) <==> !has_block_close(input)),
{
    reveal_strlit(":{");
    reveal_strlit(":");
    if starts_with(trim(input), ":{"@) {
        assert(trim(input).len() >= 2);
    }
    if starts_with(trim(input), ":{"@) {
        let t = trim(input);
        assert(t.take(2) == ":{"@);
        assert(t[0] == t.take(2)[0]);
        assert(":{"@[0] == ':');
        assert(t.take(1) =~= ":"@);
    }
}

proof fn lemma_no_quote_run(s: Seq<char>, i: int, n: int, q: bool, prev: char)
    requires
        0 <= i <= n <= s.len(),
        forall|j: int| i <= j < n ==> (#[trigger] s[j]) != '"',
    ensures
        unclosed_from(s, i, q, prev) == unclosed_from(s, n, q, if n > i { s[n - 1] } else { prev }),
    decreases n - i,
{
    if i < n {
        assert(s[i] != '"');
        lemma_no_quote_run(s, i + 1, n, q, s[i]);
    }
}

proof fn lemma_last_ws_range(s: Seq<char>)
    ensures
        last_ws(s) matches Some(i) ==> 0 <= i < s.len() && is_ws(s[i]),
    decreases s.len(),
{
    if s.len() > 0 && !is_ws(s.last()) {
        lemma_last_ws_range(s.drop_last());
    }
}

/// A text ending with `"` neither ends with an operator nor has a layout
/// keyword as its last word.
proof fn lemma_quote_end_no_continuation(s: Seq<char>)
    requires
        s.len() > 0,
        s.last() == '"',
    ensures
        !continues(s),
        !ends_with(s, "\\"@),
{
    reveal_strlit("->");
    reveal_strlit("=>");
    reveal_strlit("=");
    reveal_strlit("++");
    reveal_strlit("<>");
    reveal_strlit("$");
    reveal_strlit(".");
    reveal_strlit("|");
    reveal_strlit(",");
    reveal_strlit("::");
    reveal_strlit("do");
    reveal_strlit("where");
    reveal_strlit("of");
    reveal_strlit("let");
    reveal_strlit("in");
    reveal_strlit("then");
    reveal_strlit("else");
    reveal_strlit("\\");
    assert(!is_ws('"'));
    assert(trim_end(s) == s);
    lemma_last_ws_range(s.drop_last());
    let w = last_word(s);
    assert(last_ws(s) == last_ws(s.drop_last()));
    assert(w.len() > 0 && w.last() == '"');
    assert forall|p: Seq<char>| p.len() > 0 && p.last() != '"' implies !ends_with(s, p) && w != p by {
        if ends_with(s, p) {
            assert(s.skip(s.len() - p.len()).last() == s.last());
        }
    }
    assert("->"@.last() != '"');
    assert("=>"@.last() != '"');
    assert("="@.last() != '"');
    assert("++"@.last() != '"');
    assert("<>"@.last() != '"');
    assert("$"@.last() != '"');
    assert("."@.last() != '"');
    assert("|"@.last() != '"');
    assert(","@.last() != '"');
    assert("::"@.last() != '"');
    assert("do"@.last() != '"');
    assert("where"@.last() != '"');
    assert("of"@.last() != '"');
    assert("let"@.last() != '"');
    assert("in"@.last() != '"');
    assert("then"@.last() != '"');
    assert("else"@.last() != '"');
    assert("\\"@.last() != '"');
}

/// A one-line input whose only brackets sit inside a closed string literal
/// is submitted at once: `putStrLn "(x"` does not wait for a `)`.
pub proof fn law_string_line_submits(pre: Seq<char>, b: Seq<char>)
    requires
        pre.len() > 0,
        !is_ws(pre[0]),
        forall|j: int| 0 <= j < pre.len() ==> inert_char(#[trigger] pre[j]) && pre[j] != '\n',
        forall|j: int|
            0 <= j < b.len() ==> (#[trigger] b[j]) != '"' && b[j] != '\\' && b[j] != '\n',
    ensures
        !incomplete(pre + seq!['"'] + b + seq!['"']),
{
    let s = pre + seq!['"'] + b + seq!['"'];
    let n0 = pre.len() as int;
    let n2 = n0 + 1 + b.len();
    assert(s[0] == pre[0]);
    assert(s.last() == '"');
    assert(!is_ws('"'));
    crate::text::lemma_solid_is_trimmed(s);
    let tt = trim(s);
    assert(tt == s);
    if starts_with(tt, ":"@) {
        law_incomplete_submits(s);
        reveal_strlit(":{");
        reveal_strlit(":");
        if starts_with(tt, ":{"@) {
            assert(s[1] == tt.take(2)[1]);
            if pre.len() >= 2 {
                assert(s[1] == pre[1]);
                assert(inert_char(pre[1]));
            } else {
                assert(s[1] == '"');
            }
            assert(false);
        }
    } else {
        law_string_brackets_not_counted(pre, b, seq![]);
        assert(s + seq![] =~= s);
        assert(!unbalanced(seq![])) by {
            assert(delims_from(Seq::<char>::empty(), 0, scan_start()) == scan_start());
        }
        assert forall|j: int| 0 <= j < n0 implies (#[trigger] s[j]) != '"' by {
            assert(s[j] == pre[j]);
        }
        lemma_no_quote_run(s, 0, n0, false, '\0');
        let p0: char = if n0 > 0 { s[n0 - 1] } else { '\0' };
        assert(p0 != '\\') by {
            assert(s[n0 - 1] == pre[n0 - 1]);
        }
        assert(s[n0] == '"');
        assert forall|j: int| n0 + 1 <= j < n2 implies (#[trigger] s[j]) != '"' by {
            assert(s[j] == b[j - n0 - 1]);
        }
        lemma_no_quote_run(s, n0 + 1, n2, true, '"');
        let p1: char = if n2 > n0 + 1 { s[n2 - 1] } else { '"' };
        assert(p1 != '\\') by {
            if n2 > n0 + 1 {
                assert(s[n2 - 1] == b[b.len() - 1]);
            }
        }
        assert(s[n2] == '"');
        assert(n2 + 1 == s.len());
        assert(unclosed_from(s, n0, false, p0) == unclosed_from(s, n0 + 1, true, '"'));
        assert(unclosed_from(s, n2, true, p1) == unclosed_from(s, n2 + 1, false, '"'));
        assert(!unclosed_from(s, n2 + 1, false, '"'));
        assert(!unclosed_string(s));
        assert forall|j: int| 0 <= j < s.len() implies (#[trigger] s[j]) != '\n' by {
            if j < n0 {
                assert(s[j] == pre[j]);
            } else if n0 < j < n2 {
                assert(s[j] == b[j - n0 - 1]);
            }
        }
        crate::text::lemma_find_char_range(s, '\n');
        assert(find_char(s, '\n') is None);
        assert(lines(s) == seq![s]);
        assert(last_line(s) == s);
        lemma_quote_end_no_continuation(s);
        reveal_strlit(":{");
        reveal_strlit(":");
        assert(!starts_with(tt, ":{"@)) by {
            if starts_with(tt, ":{"@) {
                assert(tt.take(2)[0] == ':');
                assert(tt.take(1) =~= ":"@);
            }
        }
        assert(trim(last_line(tt)) == s);
        reveal_strlit("\n");
        assert(!ends_with(s, "\n"@)) by {
            assert("\n"@.last() == '\n');
            if ends_with(s, "\n"@) {
                assert(s.skip(s.len() - 1).last() == s.last());
            }
        }
    }
}

} // verus!
