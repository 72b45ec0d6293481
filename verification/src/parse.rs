//! Reading what GHCi prints: values, types and diagnostics.
use vstd::prelude::*;

use crate::text::{
    all_digits, before_char, before_char_v, chars_of, contains, digits_value, ends_with,
    find, find_char, find_char_from, find_str, find_v, is_lower, join, join_v, lines, lines_v,
    parse_usize, parse_usize_spec, slice, split_char, split_char_v, starts_with,
    starts_with_str, strip_prefix_or, strip_prefix_str, strip_suffix_or, strip_suffix_str,
    string_of, trim, trim_start, trim_start_v, trim_v, views, contains_str, is_ws, is_ws_exec,
    eq_str,
};

verus! {

/// Marker printed before and after each answer GHCi gives.
pub const SENTINEL: &'static str = "___GHCITTY_SENTINEL___";

/// A position in the input, as GHCi reports it.
#[derive(Debug, Clone, Copy, PartialEq, Eq)]
pub struct DiagLocation {
    pub line: usize,
    pub col: usize,
}

/// One GHC error or warning.
#[derive(Debug, Clone, PartialEq)]
pub struct Diagnostic {
    pub severity: String,
    pub message: String,
    pub location: Option<DiagLocation>,
    pub code: Option<String>,
    pub expected: Option<String>,
    pub actual: Option<String>,
    pub suggestion: Option<String>,
}

/// The outcome of evaluating one expression.
#[derive(Debug, Clone, PartialEq)]
pub struct EvalResult {
    pub expr: String,
    pub type_str: Option<String>,
    pub value: String,
    pub diagnostics: Vec<Diagnostic>,
}

/// A diagnostic with its texts as character sequences.
pub struct DiagnosticView {
    pub severity: Seq<char>,
    pub message: Seq<char>,
    pub location: Option<DiagLocation>,
    pub code: Option<Seq<char>>,
    pub expected: Option<Seq<char>>,
    pub actual: Option<Seq<char>>,
    pub suggestion: Option<Seq<char>>,
}

pub open spec fn opt_view(o: Option<String>) -> Option<Seq<char>> {
    match o {
        Some(s) => Some(s@),
        None => None,
    }
}

impl View for Diagnostic {
    type V = DiagnosticView;

    open spec fn view(&self) -> DiagnosticView {
        DiagnosticView {
            severity: self.severity@,
            message: self.message@,
            location: self.location,
            code: opt_view(self.code),
            expected: opt_view(self.expected),
            actual: opt_view(self.actual),
            suggestion: opt_view(self.suggestion),
        }
    }
}

pub open spec fn diag_views(v: Seq<Diagnostic>) -> Seq<DiagnosticView> {
    v.map_values(|d: Diagnostic| d@)
}

// ---------------------------------------------------------------------------
// Specification
// ---------------------------------------------------------------------------

/// The text between the sentinels, trimmed; a missing sentinel is no error.
pub open spec fn between_sentinels(raw: Seq<char>) -> Seq<char> {
    trim(strip_suffix_or(trim(strip_prefix_or(trim(raw), SENTINEL@)), SENTINEL@))
}

/// What is read between the sentinels has no whitespace left at its ends:
/// reading it again changes nothing.
pub proof fn law_between_sentinels_trimmed(raw: Seq<char>)
    ensures
        trim(between_sentinels(raw)) == between_sentinels(raw),
{
    crate::text::lemma_trim_idempotent(
        strip_suffix_or(trim(strip_prefix_or(trim(raw), SENTINEL@)), SENTINEL@),
    );
}

/// `x` is a stretch of `s`: the characters of `s` from some `a` to some `b`.
pub open spec fn is_piece(x: Seq<char>, s: Seq<char>) -> bool {
    exists|a: int, b: int| 0 <= a <= b <= s.len() && s.subrange(a, b) == x
}

/// What is read between the sentinels is a stretch of the raw answer:
/// nothing is added, dropped from its middle, or reordered.
pub proof fn law_between_sentinels_piece(raw: Seq<char>)
    ensures
        is_piece(between_sentinels(raw), raw),
{
    let s = SENTINEL@;
    let (a1, b1) = crate::text::lemma_trim_piece(raw);
    let t1 = trim(raw);
    let p = strip_prefix_or(t1, s);
    let a2: int = if crate::text::starts_with(t1, s) { s.len() as int } else { 0 };
    assert(p =~= t1.subrange(a2, t1.len() as int));
    let (a3, b3) = crate::text::lemma_trim_piece(p);
    let t3 = trim(p);
    let q = strip_suffix_or(t3, s);
    let b4: int = if crate::text::ends_with(t3, s) { t3.len() - s.len() } else { t3.len() as int };
    assert(q =~= t3.subrange(0, b4));
    let (a5, b5) = crate::text::lemma_trim_piece(q);
    let lo = a1 + a2 + a3 + a5;
    let hi = a1 + a2 + a3 + b5;
    assert(raw.subrange(lo, hi) =~= between_sentinels(raw));
}

/// An answer framed by the sentinels, with no space at its ends, is read
/// back as it is.
pub proof fn law_sentinel_round_trip(s: Seq<char>)
    requires
        trim(s) == s,
    ensures
        between_sentinels(SENTINEL@ + "\n"@ + s + "\n"@ + SENTINEL@) == s,
{
    let m = SENTINEL@;
    let nl = "\n"@;
    reveal_strlit("___GHCITTY_SENTINEL___");
    reveal_strlit("\n");
    assert(m.len() == 22 && m[0] == '_' && m.last() == '_');
    assert(nl =~= seq!['\n']);
    let raw = m + nl + s + nl + m;
    assert(raw[0] == '_');
    assert(raw.last() == '_');
    crate::text::lemma_solid_is_trimmed(raw);
    assert(raw.take(m.len() as int) =~= m);
    let y = nl + (s + nl + m);
    assert(raw.skip(m.len() as int) =~= y);
    assert(strip_prefix_or(trim(raw), m) == y);
    crate::text::lemma_trim_start_after_spaces(nl, s + nl + m);
    crate::text::lemma_trimmed_ends(s);
    let z = s + nl + m;
    assert(z.last() == '_');
    if s.len() == 0 {
        assert(z =~= nl + m);
        crate::text::lemma_trim_start_after_spaces(nl, m);
        crate::text::lemma_solid_is_trimmed(m);
        assert(trim(y) == m);
        assert(m.take(0) =~= Seq::<char>::empty());
        assert(m.skip(0) =~= m);
        assert(crate::text::ends_with(m, m));
        assert(strip_suffix_or(m, m) =~= Seq::<char>::empty());
        assert(trim(Seq::<char>::empty()) =~= Seq::<char>::empty());
    } else {
        assert(z[0] == s[0]);
        crate::text::lemma_solid_is_trimmed(z);
        assert(trim(y) == z);
        assert(z.skip(z.len() - m.len()) =~= m);
        let w = s + nl;
        assert(z.take(z.len() - m.len()) =~= w);
        assert(strip_suffix_or(z, m) == w);
        crate::text::lemma_solid_is_trimmed(s);
        crate::text::lemma_trim_end_before_spaces(s, nl);
        assert(w[0] == s[0]);
        assert(trim_start(w) == w);
        assert(trim(w) == s);
    }
}

/// The trimmed lines of `s`.
pub open spec fn trimmed_lines(ls: Seq<Seq<char>>) -> Seq<Seq<char>> {
    ls.map_values(|l: Seq<char>| trim(l))
}

/// What `:type` printed, as one line: the lines trimmed and joined by spaces.
pub open spec fn type_line(raw: Seq<char>) -> Seq<char> {
    join(trimmed_lines(lines(between_sentinels(raw))), seq![' '])
}

/// The type in `expr :: type`, if the answer has a `::`.
pub open spec fn type_of_answer(raw: Seq<char>) -> Option<Seq<char>> {
    match find(type_line(raw), "::"@) {
        Some(i) => Some(trim(type_line(raw).skip(i + 2))),
        None => None,
    }
}

/// A line that opens a diagnostic.
pub open spec fn opens_diagnostic(l: Seq<char>) -> bool {
    starts_with(l, "<interactive>:"@) || starts_with(l, "<no location info>:"@) || starts_with(
        l,
        "error:"@,
    ) || starts_with(l, "warning:"@)
}

/// A line that continues an open diagnostic: indented or empty.
pub open spec fn continues_diagnostic(l: Seq<char>) -> bool {
    starts_with(l, " "@) || starts_with(l, "\t"@) || l.len() == 0
}

/// The answer's lines sorted into value lines and diagnostic blocks.
pub open spec fn sort_lines(ls: Seq<Seq<char>>) -> (Seq<Seq<char>>, Seq<Seq<char>>)
    decreases ls.len(),
{
    if ls.len() == 0 {
        (seq![], seq![])
    } else {
        let (vals, blocks) = sort_lines(ls.drop_last());
        let l = ls.last();
        if opens_diagnostic(l) {
            (vals, blocks.push(l))
        } else if blocks.len() > 0 && continues_diagnostic(l) {
            (vals, blocks.update(blocks.len() - 1, blocks.last() + seq!['\n'] + l))
        } else {
            (vals.push(l), blocks)
        }
    }
}

/// `[GHC-NNNNN]` in `s`, brackets included.
pub open spec fn ghc_code(s: Seq<char>) -> Option<Seq<char>> {
    match find(s, "[GHC-"@) {
        Some(st) => match find_char(s.skip(st), ']') {
            Some(k) => Some(s.subrange(st, st + k + 1)),
            None => None,
        },
        None => None,
    }
}

/// The first line of a block (`lines().next().unwrap_or("")`).
pub open spec fn first_line(s: Seq<char>) -> Seq<char> {
    if lines(s).len() > 0 {
        lines(s)[0]
    } else {
        seq![]
    }
}

/// `<interactive>:LINE:COL:` at the start of the first line.
pub open spec fn location_of(first: Seq<char>) -> Option<DiagLocation> {
    let parts = split_char(first, ':');
    if starts_with(first, "<interactive>:"@) && parts.len() >= 3 && parse_usize_spec(parts[1]) is Some
        && parse_usize_spec(parts[2]) is Some {
        Some(DiagLocation { line: parse_usize_spec(parts[1])->0, col: parse_usize_spec(parts[2])->0 })
    } else {
        None
    }
}

/// Severity and code, read from the first `warning:`, else the first `error:`.
pub open spec fn severity_and_code(first: Seq<char>) -> (Seq<char>, Option<Seq<char>>) {
    match find(first, "warning:"@) {
        Some(i) => ("warning"@, ghc_code(first.skip(i))),
        None => match find(first, "error:"@) {
            Some(i) => ("error"@, ghc_code(first.skip(i))),
            None => ("error"@, None),
        },
    }
}

/// A body line, trimmed and without a leading bullet.
pub open spec fn body_content(line: Seq<char>) -> Seq<char> {
    let t = trim(line);
    trim(if t.len() > 0 && t[0] == '\u{2022}' { t.drop_first() } else { t })
}

/// What follows the first `:`, trimmed.
pub open spec fn after_colon(c: Seq<char>) -> Seq<char> {
    match find_char(c, ':') {
        Some(i) => trim(c.skip(i + 1)),
        None => seq![],
    }
}

/// The fields a body line can fill.
pub enum BodyField {
    Expected,
    Actual,
    Suggestion,
}

/// The value a body line gives to a field, if it gives one.
pub open spec fn field_value(c: Seq<char>, f: BodyField) -> Option<Seq<char>> {
    match f {
        BodyField::Expected => if starts_with(c, "Expected:"@) || starts_with(c, "Expected type:"@) {
            Some(after_colon(c))
        } else {
            None
        },
        BodyField::Actual => if starts_with(c, "Actual:"@) || starts_with(c, "Actual type:"@) {
            Some(after_colon(c))
        } else {
            None
        },
        BodyField::Suggestion => if starts_with(c, "Perhaps you meant"@) || starts_with(
            c,
            "Did you mean"@,
        ) || starts_with(c, "Suggested fix:"@) {
            Some(c)
        } else {
            None
        },
    }
}

/// The value that the last body line giving one gives to a field.
pub open spec fn last_field(ls: Seq<Seq<char>>, f: BodyField) -> Option<Seq<char>>
    decreases ls.len(),
{
    if ls.len() == 0 {
        None
    } else {
        match field_value(body_content(ls.last()), f) {
            Some(v) => Some(v),
            None => last_field(ls.drop_last(), f),
        }
    }
}

/// The lines after the first.
pub open spec fn body_lines(block: Seq<char>) -> Seq<Seq<char>> {
    if lines(block).len() > 0 {
        lines(block).drop_first()
    } else {
        seq![]
    }
}

/// The diagnostic that a block of GHC output describes.
pub open spec fn diagnostic_of(block: Seq<char>) -> DiagnosticView {
    let first = first_line(block);
    let (sev, code) = severity_and_code(first);
    DiagnosticView {
        severity: sev,
        message: block,
        location: location_of(first),
        code: code,
        expected: last_field(body_lines(block), BodyField::Expected),
        actual: last_field(body_lines(block), BodyField::Actual),
        suggestion: last_field(body_lines(block), BodyField::Suggestion),
    }
}

proof fn lemma_ghc_code_shape(s: Seq<char>)
    ensures
        ghc_code(s) matches Some(c) ==> starts_with(c, "[GHC-"@) && c.len() >= 6 && c.last() == ']'
            && (forall|j: int| 0 <= j < c.len() - 1 ==> c[j] != ']') && is_piece(c, s),
{
    reveal_strlit("[GHC-");
    crate::text::lemma_find_from_range(s, "[GHC-"@, 0);
    match find(s, "[GHC-"@) {
        Some(st) => {
            let r = s.skip(st);
            crate::text::lemma_find_char_range(r, ']');
            match find_char(r, ']') {
                Some(k) => {
                    let c = s.subrange(st, st + k + 1);
                    assert(s.subrange(st, st + 5) == "[GHC-"@);
                    assert forall|j: int| 0 <= j < 5 implies r[j] != ']' by {
                        assert(r[j] == s.subrange(st, st + 5)[j]);
                    }
                    assert(k >= 5);
                    assert(c.take(5) =~= "[GHC-"@);
                    assert(c.last() == r[k]);
                    assert forall|j: int| 0 <= j < c.len() - 1 implies c[j] != ']' by {
                        assert(c[j] == r[j]);
                    }
                },
                None => {},
            }
        },
        None => {},
    }
}

/// A diagnostic's code, when it has one, is a `[GHC-...]` tag taken from its
/// first line: it starts with `[GHC-`, ends at the first `]` after that, and
/// holds no other `]`.
pub proof fn law_code_from_first_line(block: Seq<char>)
    ensures
        diagnostic_of(block).code matches Some(c) ==> starts_with(c, "[GHC-"@) && c.len() >= 6
            && c.last() == ']' && (forall|j: int| 0 <= j < c.len() - 1 ==> c[j] != ']') && is_piece(
            c,
            first_line(block),
        ),
{
    let first = first_line(block);
    let w = find(first, "warning:"@);
    let e = find(first, "error:"@);
    crate::text::lemma_find_from_range(first, "warning:"@, 0);
    crate::text::lemma_find_from_range(first, "error:"@, 0);
    let i: int = match w {
        Some(i) => i,
        None => match e {
            Some(i) => i,
            None => 0,
        },
    };
    if w is Some || e is Some {
        let s = first.skip(i);
        lemma_ghc_code_shape(s);
        if ghc_code(s) is Some {
            let c = ghc_code(s)->0;
            let (a, b) = choose|a: int, b: int| 0 <= a <= b <= s.len() && s.subrange(a, b) == c;
            assert(first.subrange(i + a, i + b) =~= c);
        }
    }
}

proof fn lemma_split_front(a: Seq<char>, c: char, rest: Seq<char>)
    requires
        !a.contains(c),
    ensures
        split_char(a + seq![c] + rest, c) == seq![a] + split_char(rest, c),
{
    let s = a + seq![c] + rest;
    crate::text::lemma_find_char_range(s, c);
    assert forall|j: int| 0 <= j < a.len() implies s[j] != c by {
        assert(s[j] == a[j]);
    }
    assert(s[a.len() as int] == c);
    assert(find_char(s, c) == Some(a.len() as int));
    assert(s.take(a.len() as int) =~= a);
    assert(s.skip((a.len() + 1) as int) =~= rest);
}

proof fn lemma_decimal_no_colon(n: nat)
    ensures
        !crate::text::decimal(n).contains(':'),
        parse_usize_spec(crate::text::decimal(n)) == (if n <= usize::MAX {
            Some(n as usize)
        } else {
            None::<usize>
        }),
{
    crate::text::lemma_decimal_reads_back(n);
    let d = crate::text::decimal(n);
    assert forall|j: int| 0 <= j < d.len() implies d[j] != ':' by {
        assert(crate::text::is_digit(d[j]));
    }
    assert(crate::text::unsigned_part(d) == d);
}

/// `<interactive>:LINE:COL:` at the start of a diagnostic's first line gives
/// its location, whatever follows.
pub proof fn law_location_read(l: usize, c: usize, rest: Seq<char>)
    ensures
        location_of("<interactive>:"@ + crate::text::decimal(l as nat) + ":"@ + crate::text::decimal(
            c as nat,
        ) + ":"@ + rest) == Some(DiagLocation { line: l, col: c }),
{
    reveal_strlit("<interactive>:");
    reveal_strlit("<interactive>");
    reveal_strlit(":");
    let head = "<interactive>"@;
    let dl = crate::text::decimal(l as nat);
    let dc = crate::text::decimal(c as nat);
    let s = "<interactive>:"@ + dl + ":"@ + dc + ":"@ + rest;
    lemma_decimal_no_colon(l as nat);
    lemma_decimal_no_colon(c as nat);
    assert(!head.contains(':')) by {
        assert forall|j: int| 0 <= j < head.len() implies head[j] != ':' by {}
    }
    assert(s =~= head + seq![':'] + (dl + seq![':'] + (dc + seq![':'] + rest)));
    lemma_split_front(head, ':', dl + seq![':'] + (dc + seq![':'] + rest));
    lemma_split_front(dl, ':', dc + seq![':'] + rest);
    lemma_split_front(dc, ':', rest);
    let parts = split_char(s, ':');
    assert(parts[1] == dl);
    assert(parts[2] == dc);
    assert(starts_with(s, "<interactive>:"@)) by {
        assert(s.take(14) =~= "<interactive>:"@);
    }
}

/// Severity, code and location come from the first line alone: two blocks
/// with the same first line agree on them, whatever their bodies say.
pub proof fn law_header_from_first_line(a: Seq<char>, b: Seq<char>)
    requires
        first_line(a) == first_line(b),
    ensures
        diagnostic_of(a).severity == diagnostic_of(b).severity,
        diagnostic_of(a).code == diagnostic_of(b).code,
        diagnostic_of(a).location == diagnostic_of(b).location,
        diagnostic_of(a).message == a,
{
}

/// A diagnostic is a warning exactly when its first line says `warning:`
/// somewhere, whatever else that line says (`error:` included); any other
/// block, with `error:` or with neither, is an error.
pub proof fn law_severity_from_first_line(block: Seq<char>)
    ensures
        contains(first_line(block), "warning:"@) ==> diagnostic_of(block).severity == "warning"@,
        !contains(first_line(block), "warning:"@) ==> diagnostic_of(block).severity == "error"@,
{
}

/// The value text of an answer.
pub open spec fn eval_value(raw: Seq<char>) -> Seq<char> {
    join(sort_lines(lines(between_sentinels(raw))).0, seq!['\n'])
}

/// The diagnostics of an answer, in order.
pub open spec fn eval_diagnostics(raw: Seq<char>) -> Seq<DiagnosticView> {
    sort_lines(lines(between_sentinels(raw))).1.map_values(|b: Seq<char>| diagnostic_of(b))
}

/// Position of the first `=` in `s` from `i` on that stands outside strings
/// and parentheses and is not part of `==`, `/=`, `<=`, `>=` or `!=`.
/// `quoted` says whether position `i` is inside a string, `depth` counts
/// open parentheses, `prev` is the character before `i`.
pub open spec fn bare_equals_from(s: Seq<char>, i: int, quoted: bool, depth: int, prev: char) -> Option<int>
    decreases s.len() - i,
{
    if i < 0 || i >= s.len() {
        None
    } else {
        let ch = s[i];
        let next = if i + 1 < s.len() { s[i + 1] } else { '\0' };
        let q = if ch == '"' && prev != '\\' { !quoted } else { quoted };
        if !q && ch == '=' && depth == 0 && next != '=' && prev != '=' && prev != '/' && prev != '<'
            && prev != '>' && prev != '!' {
            Some(i)
        } else {
            let d = if !q && ch == '(' {
                depth + 1
            } else if !q && ch == ')' {
                depth - 1
            } else {
                depth
            };
            bare_equals_from(s, i + 1, q, d, ch)
        }
    }
}

pub open spec fn bare_equals(s: Seq<char>) -> Option<int> {
    bare_equals_from(s, 0, false, 0, '\0')
}

/// The characters that, before `=`, make an operator (`==`, `/=`, `<=`,
/// `>=`, `!=`) rather than a binding.
pub open spec fn joins_equals(c: char) -> bool {
    c == '=' || c == '/' || c == '<' || c == '>' || c == '!'
}

proof fn lemma_bare_equals_from(s: Seq<char>, i: int, quoted: bool, depth: int, prev: char)
    requires
        0 <= i <= s.len(),
        i > 0 ==> prev == s[i - 1],
    ensures
        bare_equals_from(s, i, quoted, depth, prev) matches Some(k) ==> i <= k < s.len() && s[k]
            == '=' && (k + 1 < s.len() ==> s[k + 1] != '=') && (k > i ==> !joins_equals(s[k - 1]))
            && (k == i ==> !joins_equals(prev)),
    decreases s.len() - i,
{
    if i < s.len() {
        let ch = s[i];
        let next = if i + 1 < s.len() { s[i + 1] } else { '\0' };
        let q = if ch == '"' && prev != '\\' { !quoted } else { quoted };
        let d = if !q && ch == '(' {
            depth + 1
        } else if !q && ch == ')' {
            depth - 1
        } else {
            depth
        };
        lemma_bare_equals_from(s, i + 1, q, d, ch);
    }
}

/// The `=` that makes a definition stands alone: it is never the second
/// character of `==`, `/=`, `<=`, `>=` or `!=`, nor followed by another `=`.
/// So `x /= 5` or `a == b` is an expression, not a definition of `x` or `a`.
pub proof fn law_binding_equals_stands_alone(s: Seq<char>)
    ensures
        bare_equals(s) matches Some(k) ==> 0 <= k < s.len() && s[k] == '=' && (k + 1 < s.len()
            ==> s[k + 1] != '=') && (k > 0 ==> !joins_equals(s[k - 1])),
{
    lemma_bare_equals_from(s, 0, false, 0, '\0');
}

/// Characters that move nothing in the search for the binding `=`.
pub open spec fn eq_neutral(c: char) -> bool {
    c != '"' && c != '(' && c != ')'
}

proof fn lemma_eq_run(s: Seq<char>, i: int, n: int, quoted: bool, d: int, prev: char)
    requires
        0 <= i <= n <= s.len(),
        forall|j: int| i <= j < n ==> eq_neutral(#[trigger] s[j]),
        !quoted && d == 0 ==> forall|j: int| i <= j < n ==> (#[trigger] s[j]) != '=',
    ensures
        bare_equals_from(s, i, quoted, d, prev) == bare_equals_from(
            s,
            n,
            quoted,
            d,
            if n > i { s[n - 1] } else { prev },
        ),
    decreases n - i,
{
    if i < n {
        assert(eq_neutral(s[i]));
        lemma_eq_run(s, i + 1, n, quoted, d, s[i]);
    }
}

/// An `=` inside parentheses or inside a string literal is never the
/// binding sign: text without `=` around a parenthesized part, or around a
/// string literal, holds no binding `=`, whatever is inside.
pub proof fn law_nested_equals_ignored(pre: Seq<char>, x: Seq<char>, post: Seq<char>, quote: bool)
    requires
        forall|j: int|
            0 <= j < pre.len() ==> eq_neutral(#[trigger] pre[j]) && pre[j] != '=' && pre[j] != '\\',
        forall|j: int| 0 <= j < x.len() ==> eq_neutral(#[trigger] x[j]) && x[j] != '\\',
        forall|j: int| 0 <= j < post.len() ==> eq_neutral(#[trigger] post[j]) && post[j] != '=',
    ensures
        bare_equals(pre + seq![if quote { '"' } else { '(' }] + x + seq![if quote { '"' } else { ')' }] + post) is None,
{
    let o = if quote { '"' } else { '(' };
    let cl = if quote { '"' } else { ')' };
    let s = pre + seq![o] + x + seq![cl] + post;
    let n0 = pre.len() as int;
    let n1 = n0 + 1;
    let n2 = n1 + x.len();
    assert forall|j: int| 0 <= j < n0 implies eq_neutral(#[trigger] s[j]) && s[j] != '=' by {
        assert(s[j] == pre[j]);
    }
    lemma_eq_run(s, 0, n0, false, 0, '\0');
    let p0: char = if n0 > 0 { s[n0 - 1] } else { '\0' };
    assert(p0 != '\\') by {
        if n0 > 0 {
            assert(s[n0 - 1] == pre[n0 - 1]);
        }
    }
    assert(s[n0] == o);
    let q1 = quote;
    let d1: int = if quote { 0 } else { 1 };
    assert(bare_equals_from(s, n0, false, 0, p0) == bare_equals_from(s, n1, q1, d1, o));
    assert forall|j: int| n1 <= j < n2 implies eq_neutral(#[trigger] s[j]) by {
        assert(s[j] == x[j - n1]);
    }
    lemma_eq_run(s, n1, n2, q1, d1, o);
    let p1: char = if n2 > n1 { s[n2 - 1] } else { o };
    assert(p1 != '\\') by {
        if n2 > n1 {
            assert(s[n2 - 1] == x[x.len() - 1]);
        }
    }
    assert(s[n2] == cl);
    assert(bare_equals_from(s, n2, q1, d1, p1) == bare_equals_from(s, n2 + 1, false, 0, cl));
    assert forall|j: int| n2 + 1 <= j < s.len() implies eq_neutral(#[trigger] s[j]) && s[j] != '=' by {
        assert(s[j] == post[j - n2 - 1]);
    }
    lemma_eq_run(s, n2 + 1, s.len() as int, false, 0, cl);
}

/// A one-line input that does not start with `let` and whose every `=`
/// closes an operator (`==`, `/=`, `<=`, `>=`, `!=`) is no declaration: it
/// is evaluated as an expression.
pub proof fn law_operator_equals_is_expression(input: Seq<char>)
    requires
        !starts_with(trim(input), "let "@),
        !trim(input).contains('\n'),
        forall|k: int|
            0 <= k < trim(input).len() && trim(input)[k] == '=' ==> k > 0 && joins_equals(
                #[trigger] trim(input)[k - 1],
            ),
    ensures
        !is_binding(input),
{
    let t = trim(input);
    crate::text::lemma_find_char_range(t, '\n');
    if t.len() > 0 {
        assert(find_char(t, '\n') is None);
        assert(lines(t) == seq![t]);
        assert(first_line(t) == t);
        law_binding_equals_stands_alone(t);
        if bare_equals(t) is Some {
            let k = bare_equals(t)->0;
            assert(t[k] == '=');
        }
    }
}

/// A line that makes a `let` an expression: `in` alone, at its start, or
/// between spaces.
pub open spec fn is_in_line(l: Seq<char>) -> bool {
    let t = trim(l);
    t == "in"@ || starts_with(t, "in "@) || contains(t, " in "@)
}

/// Some line of `s` makes a `let` an expression.
pub open spec fn has_in(s: Seq<char>) -> bool {
    exists|k: int| 0 <= k < lines(s).len() && is_in_line(#[trigger] lines(s)[k])
}

/// Some line after the first starts (after spaces) with a guard `|`.
pub open spec fn has_guard(s: Seq<char>) -> bool {
    exists|k: int| 1 <= k < lines(s).len() && starts_with(trim(#[trigger] lines(s)[k]), "|"@)
}

/// A declaration: `let x = ...` without `in`, or a definition `f x = ...`
/// or a guarded one, starting with a lowercase letter or `_`.
pub open spec fn is_binding(input: Seq<char>) -> bool {
    let t = trim(input);
    if starts_with(t, "let "@) {
        !has_in(t.skip(4))
    } else if t.len() > 0 && (is_lower(t[0]) || t[0] == '_') {
        let fl = first_line(t);
        (bare_equals(fl) matches Some(e) && trim(fl.take(e)).len() > 0) || (find_char(t, '\n') is Some
            && has_guard(t))
    } else {
        false
    }
}

/// The leading run of `s` up to whitespace or `=`.
pub open spec fn name_run(s: Seq<char>) -> Seq<char>
    decreases s.len(),
{
    if s.len() == 0 || is_ws(s[0]) || s[0] == '=' {
        seq![]
    } else {
        seq![s[0]] + name_run(s.drop_first())
    }
}

/// The name a declaration binds: an operator in parentheses, or the first word.
pub open spec fn bound_name(input: Seq<char>) -> Option<Seq<char>> {
    let start = trim_start(strip_prefix_or(trim(input), "let "@));
    let name = if start.len() > 0 && start[0] == '(' {
        before_char(start.drop_first(), ')')
    } else {
        name_run(start)
    };
    if name.len() == 0 {
        None
    } else {
        Some(name)
    }
}

// ---------------------------------------------------------------------------
// Implementation
// ---------------------------------------------------------------------------

/// The answer between the sentinels, trimmed. A missing sentinel on either
/// side is tolerated.
pub fn extract_between_sentinels(raw: &str) -> (r: String)
    ensures
        r@ == between_sentinels(raw@),
{
    let v = chars_of(raw);
    let s1 = trim_v(&v);
    let s2 = strip_prefix_str(&s1, SENTINEL);
    let s3 = trim_v(&s2);
    let s4 = strip_suffix_str(&s3, SENTINEL);
    let s5 = trim_v(&s4);
    string_of(&s5)
}

fn between_sentinels_v(raw: &str) -> (r: Vec<char>)
    ensures
        r@ == between_sentinels(raw@),
{
    let s = extract_between_sentinels(raw);
    chars_of(s.as_str())
}

/// The type GHCi printed for `:type`: everything after the first `::`, with
/// a type that spans several lines joined into one.
pub fn parse_type_output(raw: &str) -> (r: Option<String>)
    ensures
        opt_view(r) == type_of_answer(raw@),
{
    let cleaned = between_sentinels_v(raw);
    let ls = lines_v(&cleaned);
    let mut trimmed: Vec<Vec<char>> = Vec::new();
    let mut i: usize = 0;
    while i < ls.len()
        invariant
            i <= ls@.len(),
            views(ls@) == lines(cleaned@),
            views(trimmed@) == trimmed_lines(views(ls@)).take(i as int),
        decreases ls.len() - i,
    {
        let t = trim_v(&ls[i]);
        let ghost before = views(trimmed@);
        trimmed.push(t);
        assert(views(trimmed@) =~= before.push(trim(ls@[i as int]@)));
        assert(views(ls@)[i as int] == ls@[i as int]@);
        assert(trimmed_lines(views(ls@))[i as int] == trim(ls@[i as int]@));
        assert(views(trimmed@) =~= trimmed_lines(views(ls@)).take(i + 1));
        i = i + 1;
    }
    assert(trimmed_lines(views(ls@)).take(ls@.len() as int) =~= trimmed_lines(views(ls@)));
    let mut sp: Vec<char> = Vec::new();
    sp.push(' ');
    assert(sp@ =~= seq![' ']);
    let full = join_v(&trimmed, &sp);
    let n = full.len();
    match find_str(&full, "::") {
        Some(idx) => {
            proof {
                reveal_strlit("::");
            }
            let after = slice(&full, idx + 2, n);
            let t = trim_v(&after);
            assert(after@ =~= full@.skip(idx + 2));
            Some(string_of(&t))
        },
        None => None,
    }
}

fn opens_diagnostic_exec(l: &Vec<char>) -> (r: bool)
    ensures
        r == opens_diagnostic(l@),
{
    starts_with_str(l, "<interactive>:") || starts_with_str(l, "<no location info>:")
        || starts_with_str(l, "error:") || starts_with_str(l, "warning:")
}

/// Splits an answer into its value and its diagnostics. Lines that start
/// `<interactive>:`, `<no location info>:`, `error:` or `warning:` open a
/// diagnostic; indented or empty lines after one continue it; all other
/// lines are the value.
#[verifier::rlimit(40)]
pub fn parse_eval_output(raw: &str) -> (r: (String, Vec<Diagnostic>))
    ensures
        r.0@ == eval_value(raw@),
        diag_views(r.1@) == eval_diagnostics(raw@),
{
    let cleaned = between_sentinels_v(raw);
    let ls = lines_v(&cleaned);
    let ghost lsv = views(ls@);
    let mut vals: Vec<Vec<char>> = Vec::new();
    let mut blocks: Vec<Vec<char>> = Vec::new();
    let mut i: usize = 0;
    while i < ls.len()
        invariant
            i <= ls@.len(),
            lsv == views(ls@),
            lsv == lines(cleaned@),
            (views(vals@), views(blocks@)) == sort_lines(lsv.take(i as int)),
        decreases ls.len() - i,
    {
        let l = &ls[i];
        assert(lsv.take(i + 1).drop_last() =~= lsv.take(i as int));
        assert(lsv.take(i + 1).last() == l@);
        if opens_diagnostic_exec(l) {
            blocks.push(l.clone());
            assert(views(blocks@) =~= sort_lines(lsv.take(i as int)).1.push(l@));
        } else if blocks.len() > 0 && (starts_with_str(l, " ") || starts_with_str(l, "\t")
            || l.len() == 0) {
            let last = blocks.len() - 1;
            let mut b = blocks[last].clone();
            let ghost before = views(blocks@);
            assert(before.last() == blocks@[last as int]@);
            b.push('\n');
            crate::text::extend(&mut b, l);
            assert(b@ =~= before.last() + seq!['\n'] + l@);
            blocks.set(last, b);
            assert(views(blocks@) =~= before.update(last as int, before.last() + seq!['\n'] + l@));
        } else {
            vals.push(l.clone());
            assert(views(vals@) =~= sort_lines(lsv.take(i as int)).0.push(l@));
        }
        i = i + 1;
    }
    assert(lsv.take(ls@.len() as int) =~= lsv);
    let mut nl: Vec<char> = Vec::new();
    nl.push('\n');
    assert(nl@ =~= seq!['\n']);
    let value = join_v(&vals, &nl);
    let mut diags: Vec<Diagnostic> = Vec::new();
    let mut j: usize = 0;
    while j < blocks.len()
        invariant
            j <= blocks@.len(),
            views(blocks@) == sort_lines(lsv).1,
            lsv == lines(cleaned@),
            diag_views(diags@) =~= views(blocks@).take(j as int).map_values(
                |b: Seq<char>| diagnostic_of(b),
            ),
        decreases blocks.len() - j,
    {
        let d = parse_diagnostic_chars(&blocks[j]);
        let ghost before = diag_views(diags@);
        diags.push(d);
        assert(diag_views(diags@) =~= before.push(diagnostic_of(blocks@[j as int]@)));
        assert(views(blocks@).take(j + 1) =~= views(blocks@).take(j as int).push(blocks@[j as int]@));
        j = j + 1;
    }
    assert(views(blocks@).take(blocks@.len() as int) =~= views(blocks@));
    (string_of(&value), diags)
}

/// `[GHC-NNNNN]` in `s`, brackets included.
pub fn extract_ghc_code(s: &Vec<char>) -> (r: Option<String>)
    ensures
        opt_view(r) == ghc_code(s@),
{
    let n = s.len();
    match find_str(s, "[GHC-") {
        Some(st) => {
            proof {
                crate::text::lemma_find_from_range(s@, "[GHC-"@, 0);
            }
            match find_char_from(s, ']', st) {
                Some(e) => {
                    let code = slice(s, st, e + 1);
                    Some(string_of(&code))
                },
                None => None,
            }
        },
        None => None,
    }
}

fn opt_string(v: &Option<Vec<char>>) -> (r: Option<String>)
    ensures
        opt_view(r) == (match v {
            Some(x) => Some(x@),
            None => None::<Seq<char>>,
        }),
{
    match v {
        Some(x) => Some(string_of(x)),
        None => None,
    }
}

fn body_content_v(line: &Vec<char>) -> (r: Vec<char>)
    ensures
        r@ == body_content(line@),
{
    let t = trim_v(line);
    if t.len() > 0 && t[0] == '\u{2022}' {
        let rest = slice(&t, 1, t.len());
        assert(rest@ =~= t@.drop_first());
        trim_v(&rest)
    } else {
        trim_v(&t)
    }
}

fn after_colon_v(c: &Vec<char>) -> (r: Vec<char>)
    ensures
        r@ == after_colon(c@),
{
    let n = c.len();
    match find_char_from(c, ':', 0) {
        Some(i) => {
            assert(c@.skip(0) =~= c@);
            let rest = slice(c, i + 1, c.len());
            assert(rest@ =~= c@.skip(i + 1));
            trim_v(&rest)
        },
        None => {
            assert(c@.skip(0) =~= c@);
            Vec::new()
        },
    }
}

fn field_value_v(c: &Vec<char>, f: BodyField) -> (r: Option<Vec<char>>)
    ensures
        (match r {
            Some(x) => Some(x@),
            None => None::<Seq<char>>,
        }) == field_value(c@, f),
{
    match f {
        BodyField::Expected => if starts_with_str(c, "Expected:") || starts_with_str(
            c,
            "Expected type:",
        ) {
            Some(after_colon_v(c))
        } else {
            None
        },
        BodyField::Actual => if starts_with_str(c, "Actual:") || starts_with_str(c, "Actual type:") {
            Some(after_colon_v(c))
        } else {
            None
        },
        BodyField::Suggestion => if starts_with_str(c, "Perhaps you meant") || starts_with_str(
            c,
            "Did you mean",
        ) || starts_with_str(c, "Suggested fix:") {
            Some(c.clone())
        } else {
            None
        },
    }
}

fn location_v(first: &Vec<char>) -> (r: Option<DiagLocation>)
    ensures
        r == location_of(first@),
{
    if !starts_with_str(first, "<interactive>:") {
        return None;
    }
    let parts = split_char_v(first, ':');
    if parts.len() < 3 {
        return None;
    }
    assert(views(parts@)[1] == parts@[1]@ && views(parts@)[2] == parts@[2]@);
    match (parse_usize(&parts[1]), parse_usize(&parts[2])) {
        (Some(line), Some(col)) => Some(DiagLocation { line, col }),
        _ => None,
    }
}

/// Reads one diagnostic block: location, severity, GHC code, the expected
/// and actual types, and a suggestion.
pub fn parse_diagnostic(block: &str) -> (d: Diagnostic)
    ensures
        d@ == diagnostic_of(block@),
{
    let v = chars_of(block);
    parse_diagnostic_chars(&v)
}

fn parse_diagnostic_chars(block: &Vec<char>) -> (d: Diagnostic)
    ensures
        d@ == diagnostic_of(block@),
{
    let ls = lines_v(block);
    let ghost lsv = views(ls@);
    let first: Vec<char> = if ls.len() > 0 {
        ls[0].clone()
    } else {
        Vec::new()
    };
    assert(first@ == first_line(block@));
    let location = location_v(&first);
    let n = first.len();
    let (severity, code) = match find_str(&first, "warning:") {
        Some(idx) => {
            let rest = slice(&first, idx, n);
            assert(rest@ =~= first@.skip(idx as int));
            (string_of(&chars_of("warning")), extract_ghc_code(&rest))
        },
        None => match find_str(&first, "error:") {
            Some(idx) => {
                let rest = slice(&first, idx, n);
                assert(rest@ =~= first@.skip(idx as int));
                (string_of(&chars_of("error")), extract_ghc_code(&rest))
            },
            None => (string_of(&chars_of("error")), None),
        },
    };
    let mut expected: Option<Vec<char>> = None;
    let mut actual: Option<Vec<char>> = None;
    let mut suggestion: Option<Vec<char>> = None;
    let ghost body = body_lines(block@);
    let mut i: usize = 1;
    while i < ls.len()
        invariant
            1 <= i <= ls@.len() || (ls@.len() == 0 && i == 1),
            lsv == views(ls@),
            lsv == lines(block@),
            body == body_lines(block@),
            (match expected { Some(x) => Some(x@), None => None::<Seq<char>> }) == last_field(
                body.take(i - 1),
                BodyField::Expected,
            ),
            (match actual { Some(x) => Some(x@), None => None::<Seq<char>> }) == last_field(
                body.take(i - 1),
                BodyField::Actual,
            ),
            (match suggestion { Some(x) => Some(x@), None => None::<Seq<char>> }) == last_field(
                body.take(i - 1),
                BodyField::Suggestion,
            ),
        decreases ls.len() - i,
    {
        let content = body_content_v(&ls[i]);
        assert(body.take(i as int).drop_last() =~= body.take(i - 1));
        assert(body.take(i as int).last() == ls@[i as int]@);
        match field_value_v(&content, BodyField::Expected) {
            Some(x) => {
                expected = Some(x);
            },
            None => {},
        }
        match field_value_v(&content, BodyField::Actual) {
            Some(x) => {
                actual = Some(x);
            },
            None => {},
        }
        match field_value_v(&content, BodyField::Suggestion) {
            Some(x) => {
                suggestion = Some(x);
            },
            None => {},
        }
        i = i + 1;
    }
    proof {
        if ls@.len() > 0 {
            assert(body.take(ls@.len() - 1) =~= body);
        } else {
            assert(body.take(0) =~= body);
        }
    }
    Diagnostic {
        severity,
        message: string_of(block),
        location,
        code,
        expected: opt_string(&expected),
        actual: opt_string(&actual),
        suggestion: opt_string(&suggestion),
    }
}

/// A diagnostic with only a severity and a message.
pub fn simple_diagnostic(severity: &str, message: String) -> (d: Diagnostic)
    ensures
        d@ == (DiagnosticView {
            severity: severity@,
            message: message@,
            location: None,
            code: None,
            expected: None,
            actual: None,
            suggestion: None,
        }),
{
    Diagnostic {
        severity: severity.to_string(),
        message,
        location: None,
        code: None,
        expected: None,
        actual: None,
        suggestion: None,
    }
}

fn find_bare_equals(line: &Vec<char>) -> (r: Option<usize>)
    ensures
        r matches Some(i) ==> bare_equals(line@) == Some(i as int) && i < line@.len(),
        r is None ==> bare_equals(line@) is None,
{
    let n = line.len();
    let mut quoted = false;
    let mut opens: usize = 0;
    let mut closes: usize = 0;
    let mut prev = '\0';
    let mut i: usize = 0;
    while i < n
        invariant
            n == line@.len(),
            i <= n,
            opens + closes <= i,
            bare_equals_from(line@, i as int, quoted, opens - closes, prev) == bare_equals(line@),
        decreases n - i,
    {
        let ch = line[i];
        let next = if i + 1 < n {
            line[i + 1]
        } else {
            '\0'
        };
        if ch == '"' && prev != '\\' {
            quoted = !quoted;
        }
        if !quoted {
            if ch == '(' {
                opens = opens + 1;
            } else if ch == ')' {
                closes = closes + 1;
            } else if ch == '=' && opens == closes {
                if next != '=' && prev != '=' && prev != '/' && prev != '<' && prev != '>' && prev
                    != '!' {
                    return Some(i);
                }
            }
        }
        prev = ch;
        i = i + 1;
    }
    None
}

fn is_in_line_v(l: &Vec<char>) -> (r: bool)
    ensures
        r == is_in_line(l@),
{
    let t = trim_v(l);
    eq_str(&t, "in") || starts_with_str(&t, "in ") || contains_str(&t, " in ")
}

fn has_top_level_in(s: &Vec<char>) -> (r: bool)
    ensures
        r == has_in(s@),
{
    let ls = lines_v(s);
    let mut i: usize = 0;
    while i < ls.len()
        invariant
            i <= ls@.len(),
            views(ls@) == lines(s@),
            forall|k: int| 0 <= k < i ==> !is_in_line(#[trigger] lines(s@)[k]),
        decreases ls.len() - i,
    {
        assert(lines(s@)[i as int] == ls@[i as int]@);
        if is_in_line_v(&ls[i]) {
            return true;
        }
        i = i + 1;
    }
    false
}

fn has_guard_v(t: &Vec<char>) -> (r: bool)
    ensures
        r == has_guard(t@),
{
    let ls = lines_v(t);
    let mut i: usize = 1;
    while i < ls.len()
        invariant
            1 <= i,
            i <= ls@.len() || ls@.len() == 0,
            views(ls@) == lines(t@),
            forall|k: int| 1 <= k < i ==> !starts_with(trim(#[trigger] lines(t@)[k]), "|"@),
        decreases ls.len() - i,
    {
        assert(lines(t@)[i as int] == ls@[i as int]@);
        let l = trim_v(&ls[i]);
        if starts_with_str(&l, "|") {
            return true;
        }
        i = i + 1;
    }
    false
}

/// Whether the input declares something: `let x = ...` that is not a
/// `let ... in ...` expression, a definition `f x y = ...` whose first line
/// has a bare `=`, or a guarded definition whose later lines start with `|`.
/// A declaration starts with a lowercase letter or `_`.
pub fn is_let_binding(input: &str) -> (r: bool)
    ensures
        r == is_binding(input@),
{
    let v = chars_of(input);
    let t = trim_v(&v);
    let n = t.len();
    if starts_with_str(&t, "let ") {
        proof {
            reveal_strlit("let ");
        }
        let rest = slice(&t, 4, n);
        assert(rest@ =~= t@.skip(4));
        return !has_top_level_in(&rest);
    }
    if n > 0 && (('a' <= t[0] && t[0] <= 'z') || t[0] == '_') {
        let ls = lines_v(&t);
        let first: Vec<char> = if ls.len() > 0 {
            ls[0].clone()
        } else {
            Vec::new()
        };
        assert(first@ == first_line(t@));
        match find_bare_equals(&first) {
            Some(e) => {
                let before = slice(&first, 0, e);
                let b = trim_v(&before);
                assert(before@ =~= first@.take(e as int));
                if b.len() > 0 {
                    return true;
                }
            },
            None => {},
        }
        match find_char_from(&t, '\n', 0) {
            Some(_) => {
                assert(t@.skip(0) =~= t@);
                return has_guard_v(&t);
            },
            None => {
                assert(t@.skip(0) =~= t@);
                return false;
            },
        }
    }
    false
}

/// `name_run` is the prefix up to the first whitespace or `=`.
proof fn lemma_name_run(s: Seq<char>, k: int)
    requires
        0 <= k <= s.len(),
        forall|j: int| 0 <= j < k ==> !is_ws(#[trigger] s[j]) && s[j] != '=',
        k == s.len() || is_ws(s[k]) || s[k] == '=',
    ensures
        name_run(s) == s.take(k),
    decreases k,
{
    if k > 0 {
        let d = s.drop_first();
        assert forall|j: int| 0 <= j < k - 1 implies !is_ws(#[trigger] d[j]) && d[j] != '=' by {
            assert(d[j] == s[j + 1]);
        }
        lemma_name_run(d, k - 1);
        assert(s.take(k) =~= seq![s[0]] + d.take(k - 1));
    } else {
        assert(s.take(0) =~= Seq::<char>::empty());
    }
}

/// The name a declaration binds: an operator in parentheses
/// (`let (+++) a b = ...` gives `+++`), else the first word.
pub fn let_bound_name(input: &str) -> (r: Option<String>)
    ensures
        opt_view(r) == bound_name(input@),
{
    let v = chars_of(input);
    let t = trim_v(&v);
    let s0 = strip_prefix_str(&t, "let ");
    let start = trim_start_v(&s0);
    let n = start.len();
    let name: Vec<char> = if n > 0 && start[0] == '(' {
        let rest = slice(&start, 1, n);
        assert(rest@ =~= start@.drop_first());
        before_char_v(&rest, ')')
    } else {
        let mut k: usize = 0;
        while k < n && !is_ws_exec(start[k]) && start[k] != '='
            invariant
                k <= n,
                n == start@.len(),
                forall|j: int| 0 <= j < k ==> !is_ws(#[trigger] start@[j]) && start@[j] != '=',
            decreases n - k,
        {
            k = k + 1;
        }
        proof {
            lemma_name_run(start@, k as int);
        }
        slice(&start, 0, k)
    };
    if name.len() == 0 {
        None
    } else {
        Some(string_of(&name))
    }
}

} // verus!
