//! Debugger front end: reads GHCi's `Stopped in ...` output into a frame
//! and renders a source and locals panel.
//!
//! Detection is a pure transform: callers pass GHCi's output to `observe`,
//! which gives a frame on a breakpoint hit. Reading source files is done by
//! the program around the library, which keeps them in a `DebuggerState`.
use vstd::prelude::*;

use nu_ansi_term::Style;

use crate::highlight::{highlight_input, highlight_spec};
use crate::pretty::{sat, spaces, width, width_of, push_spaces};
use crate::style::{bold_style, dim_style, err_style, hint_style, painted, plain};
use crate::text::{
    chars_of, contains, contains_str, decimal, decimal_v, ends_with, eq_str, find, find_char,
    find_char_from, find_str, first_word, first_word_v, is_digit, lines, lines_v, parse_usize,
    parse_usize_spec, rfind, rfind_char, rfind_char_v, rfind_str, slice, starts_with, starts_with_str, string_of,
    trim, trim_start, trim_start_v, trim_v, views,
};

verus! {

/// A local variable at a breakpoint.
#[derive(Debug, Clone, PartialEq, Eq)]
pub struct Local {
    pub name: String,
    pub ty: Option<String>,
    /// `_` for an unforced thunk.
    pub value: String,
}

/// Where GHCi stopped: the function, the source span, and the locals.
#[derive(Debug, Clone, PartialEq, Eq)]
pub struct Frame {
    pub function: String,
    pub file: String,
    pub line: usize,
    pub col_start: usize,
    pub col_end: usize,
    pub locals: Vec<Local>,
}

pub struct LocalView {
    pub name: Seq<char>,
    pub ty: Option<Seq<char>>,
    pub value: Seq<char>,
}

impl View for Local {
    type V = LocalView;

    open spec fn view(&self) -> LocalView {
        LocalView { name: self.name@, ty: crate::parse::opt_view(self.ty), value: self.value@ }
    }
}

pub open spec fn local_views(v: Seq<Local>) -> Seq<LocalView> {
    v.map_values(|l: Local| l@)
}

pub struct FrameView {
    pub function: Seq<char>,
    pub file: Seq<char>,
    pub line: usize,
    pub col_start: usize,
    pub col_end: usize,
    pub locals: Seq<LocalView>,
}

impl View for Frame {
    type V = FrameView;

    open spec fn view(&self) -> FrameView {
        FrameView {
            function: self.function@,
            file: self.file@,
            line: self.line,
            col_start: self.col_start,
            col_end: self.col_end,
            locals: local_views(self.locals@),
        }
    }
}

// ---------------------------------------------------------------------------
// Commands
// ---------------------------------------------------------------------------

pub open spec fn resumes(head: Seq<char>) -> bool {
    head == ":continue"@ || head == ":c"@ || head == ":abandon"@ || head == ":step"@ || head
        == ":s"@ || head == ":steplocal"@ || head == ":stepmodule"@ || head == ":back"@ || head
        == ":forward"@
}

/// Commands that may leave the breakpoint; when no new `Stopped` frame
/// follows one, the debugger is no longer active.
pub fn is_step_or_continue(cmd: &str) -> (r: bool)
    ensures
        r == resumes(first_word(cmd@)),
{
    let h = first_word_v(&chars_of(cmd));
    eq_str(&h, ":continue") || eq_str(&h, ":c") || eq_str(&h, ":abandon") || eq_str(&h, ":step")
        || eq_str(&h, ":s") || eq_str(&h, ":steplocal") || eq_str(&h, ":stepmodule") || eq_str(
        &h,
        ":back",
    ) || eq_str(&h, ":forward")
}

// ---------------------------------------------------------------------------
// Reading a stop
// ---------------------------------------------------------------------------

/// `s` split at its first `c`.
pub open spec fn split_once_char(s: Seq<char>, c: char) -> Option<(Seq<char>, Seq<char>)> {
    match find_char(s, c) {
        Some(i) => Some((s.take(i), s.skip(i + 1))),
        None => None,
    }
}

/// `l,c` as two numbers.
pub open spec fn pair_of(s: Seq<char>) -> Option<(usize, usize)> {
    match split_once_char(s, ',') {
        Some((a, b)) => match (parse_usize_spec(trim(a)), parse_usize_spec(trim(b))) {
            (Some(x), Some(y)) => Some((x, y)),
            _ => None,
        },
        None => None,
    }
}

/// `(l1,c1)-(l2,c2)`: the start line and column, and the end column when
/// the span ends on the same line (else `usize::MAX`, to the end of line).
pub open spec fn paren_span(s: Seq<char>) -> Option<(usize, usize, usize)> {
    if !starts_with(s, "("@) {
        None
    } else {
        let s1 = s.drop_first();
        match find_char(s1, ')') {
            None => None,
            Some(e1) => match pair_of(s1.take(e1)) {
                None => None,
                Some((l1, c1)) => {
                    let after = s1.skip(e1 + 1);
                    if !starts_with(after, "-("@) {
                        None
                    } else {
                        let a2 = after.skip(2);
                        match find_char(a2, ')') {
                            None => None,
                            Some(e2) => match pair_of(a2.take(e2)) {
                                None => None,
                                Some((l2, c2)) => Some(
                                    (l1, c1, if l2 == l1 { c2 } else { usize::MAX }),
                                ),
                            },
                        }
                    }
                },
            },
        }
    }
}

/// `7` or `7-19`.
pub open spec fn col_span_of(s: Seq<char>) -> Option<(usize, usize)> {
    match find_char(s, '-') {
        Some(d) => match (parse_usize_spec(s.take(d)), parse_usize_spec(s.skip(d + 1))) {
            (Some(a), Some(b)) => Some((a, b)),
            _ => None,
        },
        None => match parse_usize_spec(s) {
            Some(v) => Some((v, v)),
            None => None,
        },
    }
}

/// `Stopped in Main.doThing, <span>`: function, path, line and columns. A
/// span is `<path>:<line>:<col>`, `<path>:<line>:<col1>-<col2>`, or
/// `<path>:(<l1>,<c1>)-(<l2>,<c2>)`; the last form is split at the last
/// `:(`, so that a path holding `:(` survives.
pub open spec fn stop_header(line: Seq<char>) -> Option<(Seq<char>, Seq<char>, usize, usize, usize)> {
    if !starts_with(line, "Stopped in "@) {
        None
    } else {
        let rest = line.skip(11);
        match find(rest, ", "@) {
            None => None,
            Some(comma) => {
                let function = trim(rest.take(comma));
                let loc = trim(rest.skip(comma + 2));
                match rfind(loc, ":("@) {
                    Some(p) => match paren_span(loc.skip(p + 1)) {
                        Some((l, c1, c2)) => Some((function, loc.take(p), l, c1, c2)),
                        None => None,
                    },
                    None => match rfind_char(loc, ':') {
                        None => None,
                        Some(last) => match rfind_char(loc.take(last), ':') {
                            None => None,
                            Some(second) => match parse_usize_spec(loc.subrange(second + 1, last)) {
                                None => None,
                                Some(ln) => match col_span_of(loc.skip(last + 1)) {
                                    Some((c1, c2)) => Some((function, loc.take(second), ln, c1, c2)),
                                    None => None,
                                },
                            },
                        },
                    },
                }
            },
        }
    }
}

/// Position of the first `=` outside brackets, from `i` with `depth` open.
pub open spec fn top_eq_from(s: Seq<char>, i: int, depth: int) -> Option<int>
    decreases s.len() - i,
{
    if i < 0 || i >= s.len() {
        None
    } else {
        let c = s[i];
        if c == '(' || c == '[' || c == '{' {
            top_eq_from(s, i + 1, depth + 1)
        } else if c == ')' || c == ']' || c == '}' {
            top_eq_from(s, i + 1, depth - 1)
        } else if c == '=' && depth == 0 {
            Some(i)
        } else {
            top_eq_from(s, i + 1, depth)
        }
    }
}

/// `name :: Type = value`, or `name :: Type` for a value not shown (`_`).
pub open spec fn local_of(line: Seq<char>) -> Option<LocalView> {
    match find(line, " :: "@) {
        None => None,
        Some(sep) => {
            let name = trim(line.take(sep));
            if name.len() == 0 || contains(name, " "@) {
                None
            } else {
                let rest = line.skip(sep + 4);
                match top_eq_from(rest, 0, 0) {
                    Some(eq) => Some(
                        LocalView { name, ty: Some(trim(rest.take(eq))), value: trim(rest.skip(eq + 1)) },
                    ),
                    None => Some(LocalView { name, ty: Some(trim(rest)), value: "_"@ }),
                }
            }
        },
    }
}

/// The locals listed after the stop line: up to the first blank line or
/// line that is not a local.
pub open spec fn locals_from(ls: Seq<Seq<char>>) -> Seq<LocalView>
    decreases ls.len(),
{
    if ls.len() == 0 || trim(ls[0]).len() == 0 {
        seq![]
    } else {
        match local_of(trim(ls[0])) {
            Some(l) => seq![l] + locals_from(ls.drop_first()),
            None => seq![],
        }
    }
}

/// Index of the first line that starts (after spaces) with `Stopped in `.
pub open spec fn stop_index(ls: Seq<Seq<char>>) -> Option<int>
    decreases ls.len(),
{
    if ls.len() == 0 {
        None
    } else if starts_with(trim_start(ls[0]), "Stopped in "@) {
        Some(0)
    } else {
        match stop_index(ls.drop_first()) {
            Some(i) => Some(i + 1),
            None => None,
        }
    }
}

/// The frame of the first `Stopped in` block of GHCi's output.
pub open spec fn observed(text: Seq<char>) -> Option<FrameView> {
    let ls = lines(text);
    match stop_index(ls) {
        None => None,
        Some(i) => match stop_header(trim_start(ls[i])) {
            None => None,
            Some((function, file, line, c1, c2)) => Some(
                FrameView {
                    function,
                    file,
                    line,
                    col_start: c1,
                    col_end: c2,
                    locals: locals_from(ls.skip(i + 1)),
                },
            ),
        },
    }
}

pub proof fn lemma_stop_index(ls: Seq<Seq<char>>)
    ensures
        stop_index(ls) matches Some(i) ==> 0 <= i < ls.len() && starts_with(
            trim_start(ls[i]),
            "Stopped in "@,
        ) && forall|j: int| 0 <= j < i ==> !starts_with(trim_start(#[trigger] ls[j]), "Stopped in "@),
        stop_index(ls) is None ==> forall|j: int|
            0 <= j < ls.len() ==> !starts_with(trim_start(#[trigger] ls[j]), "Stopped in "@),
    decreases ls.len(),
{
    if ls.len() > 0 {
        lemma_stop_index(ls.drop_first());
        assert forall|j: int| 0 < j < ls.len() implies ls[j] == ls.drop_first()[j - 1] by {}
    }
}

fn split_once_char_v(s: &Vec<char>, c: char) -> (r: Option<(Vec<char>, Vec<char>)>)
    ensures
        match r {
            Some((a, b)) => split_once_char(s@, c) == Some((a@, b@)),
            None => split_once_char(s@, c) is None,
        },
{
    let n = s.len();
    assert(s@.skip(0) =~= s@);
    match find_char_from(s, c, 0) {
        Some(i) => {
            let a = slice(s, 0, i);
            let b = slice(s, i + 1, n);
            assert(b@ =~= s@.skip(i + 1));
            Some((a, b))
        },
        None => None,
    }
}

fn pair_of_v(s: &Vec<char>) -> (r: Option<(usize, usize)>)
    ensures
        r == pair_of(s@),
{
    match split_once_char_v(s, ',') {
        Some((a, b)) => match (parse_usize(&trim_v(&a)), parse_usize(&trim_v(&b))) {
            (Some(x), Some(y)) => Some((x, y)),
            _ => None,
        },
        None => None,
    }
}

fn parse_paren_span(s: &Vec<char>) -> (r: Option<(usize, usize, usize)>)
    ensures
        r == paren_span(s@),
{
    if !starts_with_str(s, "(") {
        return None;
    }
    proof {
        reveal_strlit("(");
        reveal_strlit("-(");
    }
    let s1 = slice(s, 1, s.len());
    assert(s1@ =~= s@.drop_first());
    let n1 = s1.len();
    assert(s1@.skip(0) =~= s1@);
    let e1 = match find_char_from(&s1, ')', 0) {
        Some(e) => e,
        None => {
            return None;
        },
    };
    let (l1, c1) = match pair_of_v(&slice(&s1, 0, e1)) {
        Some(p) => p,
        None => {
            return None;
        },
    };
    let after = slice(&s1, e1 + 1, n1);
    assert(after@ =~= s1@.skip(e1 + 1));
    if !starts_with_str(&after, "-(") {
        return None;
    }
    let a2 = slice(&after, 2, after.len());
    assert(a2@ =~= after@.skip(2));
    assert(a2@.skip(0) =~= a2@);
    let e2 = match find_char_from(&a2, ')', 0) {
        Some(e) => e,
        None => {
            return None;
        },
    };
    let (l2, c2) = match pair_of_v(&slice(&a2, 0, e2)) {
        Some(p) => p,
        None => {
            return None;
        },
    };
    Some((l1, c1, if l2 == l1 { c2 } else { usize::MAX }))
}

fn parse_col_span(s: &Vec<char>) -> (r: Option<(usize, usize)>)
    ensures
        r == col_span_of(s@),
{
    assert(s@.skip(0) =~= s@);
    match find_char_from(s, '-', 0) {
        Some(d) => {
            let a = slice(s, 0, d);
            let b = slice(s, d + 1, s.len());
            assert(b@ =~= s@.skip(d + 1));
            match (parse_usize(&a), parse_usize(&b)) {
                (Some(x), Some(y)) => Some((x, y)),
                _ => None,
            }
        },
        None => match parse_usize(s) {
            Some(v) => Some((v, v)),
            None => None,
        },
    }
}

fn parse_stop_header(line: &Vec<char>) -> (r: Option<(Vec<char>, Vec<char>, usize, usize, usize)>)
    ensures
        match r {
            Some((f, p, l, c1, c2)) => stop_header(line@) == Some((f@, p@, l, c1, c2)),
            None => stop_header(line@) is None,
        },
{
    if !starts_with_str(line, "Stopped in ") {
        return None;
    }
    proof {
        reveal_strlit("Stopped in ");
        reveal_strlit(", ");
        reveal_strlit(":(");
    }
    let rest = slice(line, 11, line.len());
    assert(rest@ =~= line@.skip(11));
    let comma = match find_str(&rest, ", ") {
        Some(c) => c,
        None => {
            return None;
        },
    };
    let function = trim_v(&slice(&rest, 0, comma));
    let l0 = slice(&rest, comma + 2, rest.len());
    assert(l0@ =~= rest@.skip(comma + 2));
    let loc = trim_v(&l0);
    let n = loc.len();
    proof {
        crate::text::lemma_rfind_upto_occurs(loc@, ":("@, loc@.len() - 2);
    }
    match rfind_str(&loc, ":(") {
        Some(p) => {
            let span = slice(&loc, p + 1, n);
            assert(span@ =~= loc@.skip(p + 1));
            return match parse_paren_span(&span) {
                Some((l, c1, c2)) => Some((function, slice(&loc, 0, p), l, c1, c2)),
                None => None,
            };
        },
        None => {},
    }
    let last = match rfind_char_v(&loc, ':') {
        Some(i) => i,
        None => {
            return None;
        },
    };
    let head = slice(&loc, 0, last);
    let second = match rfind_char_v(&head, ':') {
        Some(i) => i,
        None => {
            return None;
        },
    };
    let ln = match parse_usize(&slice(&loc, second + 1, last)) {
        Some(v) => v,
        None => {
            return None;
        },
    };
    let cols = slice(&loc, last + 1, n);
    assert(cols@ =~= loc@.skip(last + 1));
    match parse_col_span(&cols) {
        Some((c1, c2)) => Some((function, slice(&loc, 0, second), ln, c1, c2)),
        None => None,
    }
}

fn find_top_level_eq(s: &Vec<char>) -> (r: Option<usize>)
    ensures
        match r {
            Some(i) => top_eq_from(s@, 0, 0) == Some(i as int) && i < s@.len(),
            None => top_eq_from(s@, 0, 0) is None,
        },
{
    let n = s.len();
    let mut opens: usize = 0;
    let mut closes: usize = 0;
    let mut i: usize = 0;
    while i < n
        invariant
            i <= n,
            n == s@.len(),
            opens + closes <= i,
            top_eq_from(s@, i as int, opens - closes) == top_eq_from(s@, 0, 0),
        decreases n - i,
    {
        let c = s[i];
        if c == '(' || c == '[' || c == '{' {
            opens = opens + 1;
        } else if c == ')' || c == ']' || c == '}' {
            closes = closes + 1;
        } else if c == '=' && opens == closes {
            return Some(i);
        }
        i = i + 1;
    }
    None
}

fn opt_string_of(o: &Option<Vec<char>>) -> (r: Option<String>)
    ensures
        crate::parse::opt_view(r) == match o {
            Some(x) => Some(x@),
            None => None::<Seq<char>>,
        },
{
    match o {
        Some(x) => Some(string_of(x)),
        None => None,
    }
}

/// Reads a local: `name :: Type = value`, or `name :: Type` whose value is
/// not shown.
pub fn parse_local(line: &str) -> (r: Option<Local>)
    ensures
        match r {
            Some(l) => local_of(line@) == Some(l@),
            None => local_of(line@) is None,
        },
{
    parse_local_v(&chars_of(line))
}

fn parse_local_v(line: &Vec<char>) -> (r: Option<Local>)
    ensures
        match r {
            Some(l) => local_of(line@) == Some(l@),
            None => local_of(line@) is None,
        },
{
    proof {
        reveal_strlit(" :: ");
    }
    let sep = match find_str(line, " :: ") {
        Some(i) => i,
        None => {
            return None;
        },
    };
    let name = trim_v(&slice(line, 0, sep));
    if name.len() == 0 || contains_str(&name, " ") {
        return None;
    }
    let rest = slice(line, sep + 4, line.len());
    assert(rest@ =~= line@.skip(sep + 4));
    let rn = rest.len();
    match find_top_level_eq(&rest) {
        Some(eq) => {
            let ty = trim_v(&slice(&rest, 0, eq));
            let vpart = slice(&rest, eq + 1, rn);
            assert(vpart@ =~= rest@.skip(eq + 1));
            let value = trim_v(&vpart);
            Some(Local { name: string_of(&name), ty: Some(string_of(&ty)), value: string_of(&value) })
        },
        None => {
            let ty = trim_v(&rest);
            Some(Local { name: string_of(&name), ty: Some(string_of(&ty)), value: "_".to_string() })
        },
    }
}

/// Looks for a `Stopped in ...` block in GHCi's output and reads the frame
/// from the first one: function, file, line, column span and locals.
pub fn observe(text: &str) -> (r: Option<Frame>)
    ensures
        match r {
            Some(f) => observed(text@) == Some(f@),
            None => observed(text@) is None,
        },
{
    let v = chars_of(text);
    let ls = lines_v(&v);
    let ghost lsv = views(ls@);
    let mut i: usize = 0;
    while i < ls.len()
        invariant
            i <= ls@.len(),
            lsv == views(ls@),
            lsv == lines(text@),
            forall|j: int| 0 <= j < i ==> !starts_with(trim_start(#[trigger] lsv[j]), "Stopped in "@),
        ensures
            i <= ls@.len(),
            forall|j: int| 0 <= j < i ==> !starts_with(trim_start(#[trigger] lsv[j]), "Stopped in "@),
            i < ls@.len() ==> starts_with(trim_start(lsv[i as int]), "Stopped in "@),
        decreases ls.len() - i,
    {
        if starts_with_str(&trim_start_v(&ls[i]), "Stopped in ") {
            assert(lsv[i as int] == ls@[i as int]@);
            break;
        }
        assert(lsv[i as int] == ls@[i as int]@);
        i = i + 1;
    }
    proof {
        lemma_stop_index(lsv);
    }
    if i == ls.len() {
        return None;
    }
    assert(lsv[i as int] == ls@[i as int]@);
    assert(stop_index(lsv) == Some(i as int));
    let header = trim_start_v(&ls[i]);
    let (function, file, line, c1, c2) = match parse_stop_header(&header) {
        Some(h) => h,
        None => {
            return None;
        },
    };
    let ghost rest = lsv.skip(i + 1);
    let mut locals: Vec<Local> = Vec::new();
    let mut k: usize = i + 1;
    while k < ls.len()
        invariant
            i < k <= ls@.len(),
            lsv == views(ls@),
            rest == lsv.skip(i + 1),
            local_views(locals@) + locals_from(lsv.skip(k as int)) == locals_from(rest),
        ensures
            local_views(locals@) == locals_from(rest),
        decreases ls.len() - k,
    {
        assert(lsv.skip(k as int)[0] == ls@[k as int]@);
        assert(lsv.skip(k as int).drop_first() =~= lsv.skip(k + 1));
        let t = trim_v(&ls[k]);
        if t.len() == 0 {
            assert(locals_from(lsv.skip(k as int)) =~= Seq::<LocalView>::empty());
            assert(local_views(locals@) =~= local_views(locals@) + Seq::<LocalView>::empty());
            break;
        }
        match parse_local_v(&t) {
            Some(l) => {
                let ghost before = local_views(locals@);
                locals.push(l);
                assert(local_views(locals@) =~= before.push(l@));
            },
            None => {
                assert(locals_from(lsv.skip(k as int)) =~= Seq::<LocalView>::empty());
                assert(local_views(locals@) =~= local_views(locals@) + Seq::<LocalView>::empty());
                break;
            },
        }
        k = k + 1;
        proof {
            if k == ls@.len() {
                assert(lsv.skip(k as int) =~= Seq::<Seq<char>>::empty());
                assert(local_views(locals@) =~= local_views(locals@) + Seq::<LocalView>::empty());
            }
        }
    }
    Some(
        Frame {
            function: string_of(&function),
            file: string_of(&file),
            line,
            col_start: c1,
            col_end: c2,
            locals,
        },
    )
}

/// `[path:line:col]`, `[path:line:col-col]` or `[path:(l,c)-(l,c)]`.
pub open spec fn location_echo(line: Seq<char>) -> bool {
    starts_with(line, "["@) && ends_with(line.drop_first(), "]"@) && {
        let inner = line.drop_first().drop_last();
        contains(inner, ":"@) && exists|i: int| 0 <= i < inner.len() && is_digit(#[trigger] inner[i])
    }
}

pub open spec fn echo_free(ls: Seq<Seq<char>>, k: int) -> Seq<char>
    decreases k,
{
    if k <= 0 {
        seq![]
    } else {
        echo_free(ls, k - 1) + if location_echo(trim(ls[k - 1])) {
            seq![]
        } else {
            ls[k - 1] + "\n"@
        }
    }
}

/// The lines that `echo_free` keeps among the first `k`.
pub open spec fn kept_lines(ls: Seq<Seq<char>>, k: int) -> Seq<Seq<char>>
    decreases k,
{
    if k <= 0 {
        seq![]
    } else if location_echo(trim(ls[k - 1])) {
        kept_lines(ls, k - 1)
    } else {
        kept_lines(ls, k - 1).push(ls[k - 1])
    }
}

proof fn lemma_echo_free_kept(ls: Seq<Seq<char>>, k: int)
    requires
        0 <= k <= ls.len(),
    ensures
        echo_free(ls, k) == crate::session::text_of_lines(kept_lines(ls, k)),
        forall|i: int|
            0 <= i < kept_lines(ls, k).len() ==> exists|j: int|
                0 <= j < k && ls[j] == #[trigger] kept_lines(ls, k)[i] && !location_echo(
                    trim(ls[j]),
                ),
    decreases k,
{
    if k > 0 {
        lemma_echo_free_kept(ls, k - 1);
        let prev = kept_lines(ls, k - 1);
        if !location_echo(trim(ls[k - 1])) {
            let cur = prev.push(ls[k - 1]);
            assert(cur.drop_last() =~= prev);
            assert forall|i: int| 0 <= i < cur.len() implies exists|j: int|
                0 <= j < k && ls[j] == #[trigger] cur[i] && !location_echo(trim(ls[j])) by {
                if i < prev.len() {
                    assert(cur[i] == prev[i]);
                } else {
                    assert(cur[i] == ls[k - 1]);
                }
            }
        } else {
            assert(echo_free(ls, k) =~= echo_free(ls, k - 1));
        }
    }
}

proof fn lemma_echo_free_keeps_all(ms: Seq<Seq<char>>, k: int)
    requires
        0 <= k <= ms.len(),
        forall|i: int| 0 <= i < ms.len() ==> !location_echo(trim(#[trigger] ms[i])),
    ensures
        echo_free(ms, k) == crate::session::text_of_lines(ms.take(k)),
    decreases k,
{
    if k > 0 {
        lemma_echo_free_keeps_all(ms, k - 1);
        assert(ms.take(k).drop_last() =~= ms.take(k - 1));
        assert(ms.take(k).last() == ms[k - 1]);
    } else {
        assert(ms.take(0) =~= Seq::<Seq<char>>::empty());
    }
}

/// Dropping location echoes once drops them all: doing it again changes
/// nothing. Left out are texts with a kept line that still ends with `\r`
/// once its line ending is gone (as in `"x\r\r\n"`), which the next
/// reading takes as a line ending.
pub proof fn law_echo_free_idempotent(text: Seq<char>)
    requires
        forall|i: int|
            0 <= i < lines(text).len() && !location_echo(trim(#[trigger] lines(text)[i])) ==> !(
            lines(text)[i].len() > 0 && lines(text)[i].last() == '\r'),
    ensures
        ({
            let once = echo_free(lines(text), lines(text).len() as int);
            echo_free(lines(once), lines(once).len() as int) == once
        }),
{
    let ls = lines(text);
    let n = ls.len() as int;
    lemma_echo_free_kept(ls, n);
    let ks = kept_lines(ls, n);
    crate::text::lemma_lines_no_newline(text);
    assert forall|i: int| 0 <= i < ks.len() implies crate::session::plain_line(#[trigger] ks[i]) by {
        let j = choose|j: int| 0 <= j < n && ls[j] == ks[i] && !location_echo(trim(ls[j]));
        assert(!ls[j].contains('\n'));
    }
    crate::session::lemma_lines_of_text(ks);
    assert forall|i: int| 0 <= i < ks.len() implies !location_echo(trim(#[trigger] ks[i])) by {
        let j = choose|j: int| 0 <= j < n && ls[j] == ks[i] && !location_echo(trim(ls[j]));
    }
    lemma_echo_free_keeps_all(ks, ks.len() as int);
    assert(ks.take(ks.len() as int) =~= ks);
}

/// Whether a line is GHCi's echo of a stop location: `[path:line:col]`,
/// `[path:line:col-col]` or `[path:(l,c)-(l,c)]`.
pub fn is_location_echo(line: &str) -> (r: bool)
    ensures
        r == location_echo(line@),
{
    location_echo_v(&chars_of(line))
}

fn location_echo_v(line: &Vec<char>) -> (r: bool)
    ensures
        r == location_echo(line@),
{
    let n = line.len();
    if !starts_with_str(line, "[") {
        return false;
    }
    proof {
        reveal_strlit("[");
        reveal_strlit("]");
    }
    let rest = slice(line, 1, n);
    assert(rest@ =~= line@.drop_first());
    if !crate::text::ends_with_str(&rest, "]") {
        return false;
    }
    let inner = slice(&rest, 0, rest.len() - 1);
    assert(inner@ =~= line@.drop_first().drop_last());
    if !contains_str(&inner, ":") {
        return false;
    }
    let mut i: usize = 0;
    while i < inner.len()
        invariant
            i <= inner@.len(),
            inner@ == line@.drop_first().drop_last(),
            starts_with(line@, "["@) && ends_with(line@.drop_first(), "]"@),
            contains(inner@, ":"@),
            forall|j: int| 0 <= j < i ==> !is_digit(#[trigger] inner@[j]),
        decreases inner.len() - i,
    {
        if crate::text::is_digit_exec(inner[i]) {
            assert(is_digit(line@.drop_first().drop_last()[i as int]));
            return true;
        }
        i = i + 1;
    }
    false
}

/// Drops the `[Foo.hs:42:7-19]` lines that GHCi echoes after a stop; the
/// panel already shows the location.
pub fn strip_location_echo(text: &str) -> (r: String)
    ensures
        r@ == echo_free(lines(text@), lines(text@).len() as int),
{
    let v = chars_of(text);
    let ls = lines_v(&v);
    let ghost lsv = views(ls@);
    let mut out = String::new();
    let mut i: usize = 0;
    while i < ls.len()
        invariant
            i <= ls@.len(),
            lsv == views(ls@),
            out@ == echo_free(lsv, i as int),
        decreases ls.len() - i,
    {
        assert(lsv[i as int] == ls@[i as int]@);
        if !location_echo_v(&trim_v(&ls[i])) {
            out.append(string_of(&ls[i]).as_str());
            out.append("\n");
        }
        i = i + 1;
    }
    out
}

// ---------------------------------------------------------------------------
// Source files
// ---------------------------------------------------------------------------

/// Source files read for the panel, with the modification stamp they were
/// read at. Each path occurs once.
pub struct DebuggerState {
    pub cache: Vec<(String, u128, Vec<String>)>,
}

impl DebuggerState {
    pub open spec fn wf(&self) -> bool {
        forall|i: int, j: int|
            0 <= i < j < self.cache@.len() ==> (#[trigger] self.cache@[i]).0@ != (
            #[trigger] self.cache@[j]).0@
    }

    /// The lines cached for `path`.
    pub open spec fn lines_for(&self, path: Seq<char>) -> Option<Seq<Seq<char>>> {
        if exists|i: int| 0 <= i < self.cache@.len() && (#[trigger] self.cache@[i]).0@ == path {
            let i = choose|i: int| 0 <= i < self.cache@.len() && (#[trigger] self.cache@[i]).0@ == path;
            Some(crate::text::string_views(self.cache@[i].2@))
        } else {
            None
        }
    }

    /// The stamp cached for `path`.
    pub open spec fn stamp_for(&self, path: Seq<char>) -> Option<u128> {
        if exists|i: int| 0 <= i < self.cache@.len() && (#[trigger] self.cache@[i]).0@ == path {
            let i = choose|i: int| 0 <= i < self.cache@.len() && (#[trigger] self.cache@[i]).0@ == path;
            Some(self.cache@[i].1)
        } else {
            None
        }
    }

    pub fn new() -> (d: DebuggerState)
        ensures
            d.wf(),
            d.cache@.len() == 0,
    {
        DebuggerState { cache: Vec::new() }
    }

    fn index_of(&self, path: &str) -> (r: Option<usize>)
        requires
            self.wf(),
        ensures
            match r {
                Some(i) => i < self.cache@.len() && self.cache@[i as int].0@ == path@,
                None => forall|j: int| 0 <= j < self.cache@.len() ==> (#[trigger] self.cache@[j]).0@ != path@,
            },
    {
        let p = chars_of(path);
        let mut i: usize = 0;
        while i < self.cache.len()
            invariant
                i <= self.cache@.len(),
                p@ == path@,
                forall|j: int| 0 <= j < i ==> (#[trigger] self.cache@[j]).0@ != path@,
            decreases self.cache.len() - i,
        {
            if crate::text::eq_v(&chars_of(self.cache[i].0.as_str()), &p) {
                return Some(i);
            }
            i = i + 1;
        }
        None
    }

    /// Whether the file at `path` must be read again: it is not cached, or
    /// it changed since (its stamp differs).
    pub fn needs_reload(&self, path: &str, stamp: u128) -> (r: bool)
        requires
            self.wf(),
        ensures
            r == (self.stamp_for(path@) != Some(stamp)),
    {
        match self.index_of(path) {
            Some(i) => {
                proof {
                    let k = choose|k: int| 0 <= k < self.cache@.len() && (#[trigger] self.cache@[k]).0@ == path@;
                    if k != i as int {
                        assert(self.cache@[k].0@ == self.cache@[i as int].0@);
                    }
                }
                self.cache[i].1 != stamp
            },
            None => true,
        }
    }

    /// The lines cached for `path`.
    pub fn source(&self, path: &str) -> (r: Option<&Vec<String>>)
        requires
            self.wf(),
        ensures
            match r {
                Some(v) => self.lines_for(path@) == Some(crate::text::string_views(v@)),
                None => self.lines_for(path@) is None,
            },
    {
        match self.index_of(path) {
            Some(i) => {
                proof {
                    let k = choose|k: int| 0 <= k < self.cache@.len() && (#[trigger] self.cache@[k]).0@ == path@;
                    if k != i as int {
                        assert(self.cache@[k].0@ == self.cache@[i as int].0@);
                    }
                }
                Some(&self.cache[i].2)
            },
            None => None,
        }
    }

    /// Stores the lines of `path` read at `stamp`, replacing older ones.
    pub fn store(&mut self, path: String, stamp: u128, lines: Vec<String>)
        requires
            old(self).wf(),
        ensures
            final(self).wf(),
            final(self).lines_for(path@) == Some(crate::text::string_views(lines@)),
            final(self).stamp_for(path@) == Some(stamp),
            forall|p: Seq<char>|
                p != path@ ==> #[trigger] final(self).lines_for(p) == old(self).lines_for(p)
                    && final(self).stamp_for(p) == old(self).stamp_for(p),
    {
        let ghost pv = path@;
        let ghost lv = crate::text::string_views(lines@);
        match self.index_of(path.as_str()) {
            Some(i) => {
                let ghost old_cache = self.cache@;
                self.cache.set(i, (path, stamp, lines));
                assert forall|a: int, b: int|
                    0 <= a < b < self.cache@.len() implies (#[trigger] self.cache@[a]).0@ != (
                    #[trigger] self.cache@[b]).0@ by {
                    if a != i as int {
                        assert(self.cache@[a] == old_cache[a]);
                    }
                    if b != i as int {
                        assert(self.cache@[b] == old_cache[b]);
                    }
                }
                proof {
                    assert(self.cache@[i as int].0@ == pv);
                    let k = choose|k: int| 0 <= k < self.cache@.len() && (#[trigger] self.cache@[k]).0@ == pv;
                    if k != i as int {
                        assert(self.cache@[k].0@ == self.cache@[i as int].0@);
                    }
                    assert forall|p: Seq<char>| p != pv implies #[trigger] self.lines_for(p)
                        == old(self).lines_for(p) && self.stamp_for(p) == old(self).stamp_for(p) by {
                        if exists|j: int| 0 <= j < old_cache.len() && (#[trigger] old_cache[j]).0@ == p {
                            let j = choose|j: int| 0 <= j < old_cache.len() && (#[trigger] old_cache[j]).0@ == p;
                            assert(j != i as int);
                            assert(self.cache@[j] == old_cache[j]);
                            lemma_lookup_at(*self, j, p);
                            lemma_lookup_at(*old(self), j, p);
                        } else {
                            assert forall|j: int| 0 <= j < self.cache@.len() implies (#[trigger] self.cache@[j]).0@ != p by {
                                if j != i as int {
                                    assert(self.cache@[j] == old_cache[j]);
                                }
                            }
                        }
                    }
                }
            },
            None => {
                let ghost old_cache = self.cache@;
                self.cache.push((path, stamp, lines));
                let ghost last = (self.cache@.len() - 1) as int;
                assert forall|a: int, b: int|
                    0 <= a < b < self.cache@.len() implies (#[trigger] self.cache@[a]).0@ != (
                    #[trigger] self.cache@[b]).0@ by {
                    assert(self.cache@[a] == old_cache[a]);
                    if b < old_cache.len() {
                        assert(self.cache@[b] == old_cache[b]);
                    }
                }
                proof {
                    assert(self.cache@[last].0@ == pv);
                    let k = choose|k: int| 0 <= k < self.cache@.len() && (#[trigger] self.cache@[k]).0@ == pv;
                    if k != last {
                        assert(self.cache@[k] == old_cache[k]);
                    }
                    assert forall|p: Seq<char>| p != pv implies #[trigger] self.lines_for(p)
                        == old(self).lines_for(p) && self.stamp_for(p) == old(self).stamp_for(p) by {
                        if exists|j: int| 0 <= j < old_cache.len() && (#[trigger] old_cache[j]).0@ == p {
                            let j = choose|j: int| 0 <= j < old_cache.len() && (#[trigger] old_cache[j]).0@ == p;
                            assert(self.cache@[j] == old_cache[j]);
                            lemma_lookup_at(*self, j, p);
                            lemma_lookup_at(*old(self), j, p);
                        } else {
                            assert forall|j: int| 0 <= j < self.cache@.len() implies (#[trigger] self.cache@[j]).0@ != p by {
                                if j < old_cache.len() {
                                    assert(self.cache@[j] == old_cache[j]);
                                }
                            }
                        }
                    }
                }
            },
        }
    }
}

/// In a cache whose paths are distinct, the entry holding a path is the one
/// that the lookups find.
proof fn lemma_lookup_at(d: DebuggerState, k: int, p: Seq<char>)
    requires
        d.wf(),
        0 <= k < d.cache@.len(),
        d.cache@[k].0@ == p,
    ensures
        d.lines_for(p) == Some(crate::text::string_views(d.cache@[k].2@)),
        d.stamp_for(p) == Some(d.cache@[k].1),
{
    let c = choose|i: int| 0 <= i < d.cache@.len() && (#[trigger] d.cache@[i]).0@ == p;
    if c != k {
        if c < k {
            assert(d.cache@[c].0@ != d.cache@[k].0@);
        } else {
            assert(d.cache@[k].0@ != d.cache@[c].0@);
        }
    }
}

/// The lines of a source file's text.
pub fn source_lines(content: &str) -> (r: Vec<String>)
    ensures
        crate::text::string_views(r@) == lines(content@),
{
    let ls = lines_v(&chars_of(content));
    let mut r: Vec<String> = Vec::new();
    let mut i: usize = 0;
    while i < ls.len()
        invariant
            i <= ls@.len(),
            views(ls@) == lines(content@),
            crate::text::string_views(r@) == views(ls@).take(i as int),
        decreases ls.len() - i,
    {
        let ghost before = crate::text::string_views(r@);
        r.push(string_of(&ls[i]));
        assert(crate::text::string_views(r@) =~= before.push(ls@[i as int]@));
        assert(views(ls@).take(i + 1) =~= views(ls@).take(i as int).push(ls@[i as int]@));
        i = i + 1;
    }
    assert(views(ls@).take(ls@.len() as int) =~= views(ls@));
    r
}

// ---------------------------------------------------------------------------
// The panel
// ---------------------------------------------------------------------------

/// What `Path::strip_prefix(base)` leaves of `path`, displayed.
pub uninterp spec fn path_suffix(path: Seq<char>, base: Seq<char>) -> Option<Seq<char>>;

/// `Path::strip_prefix`, then `Path::display`: the path relative to `base`,
/// when `base` is a prefix of it component by component. Which paths that
/// holds for is left to the name `path_suffix`.
#[verifier::external_body]
fn strip_path_prefix(path: &str, base: &str) -> (r: Option<String>)
    ensures
        crate::parse::opt_view(r) == path_suffix(path@, base@),
{
    std::path::Path::new(path).strip_prefix(base).ok().map(|p| p.display().to_string())
}

/// The path shown in the panel: relative to the working directory when it
/// lies inside it.
pub open spec fn shown_path(file: Seq<char>, cwd: Option<Seq<char>>) -> Seq<char> {
    match cwd {
        Some(c) => match path_suffix(file, c) {
            Some(s) => s,
            None => file,
        },
        None => file,
    }
}

/// A column span as GHCi writes it: `10` for one column, `10-25` for a
/// range; a span reaching past the line (`usize::MAX`) shows its start.
pub open spec fn col_span_text(s: usize, e: usize) -> Seq<char> {
    if e == usize::MAX || e <= s {
        decimal(s as nat)
    } else {
        decimal(s as nat) + "-"@ + decimal(e as nat)
    }
}

/// Formats a column span like GHCi: `10` for one column, `10-25` for a range.
pub fn col_span(col_start: usize, col_end: usize) -> (r: String)
    ensures
        r@ == col_span_text(col_start, col_end),
{
    let mut out = string_of(&decimal_v(col_start));
    if !(col_end == usize::MAX || col_end <= col_start) {
        out.append("-");
        out.append(string_of(&decimal_v(col_end)).as_str());
    }
    out
}

pub open spec fn header_text(f: FrameView, shown: Seq<char>) -> Seq<char> {
    painted(err_style(), "\u{25cf}"@) + " "@ + painted(bold_style(), "break"@) + " "@ + painted(
        dim_style(),
        "\u{b7}"@,
    ) + " "@ + painted(
        hint_style(),
        shown + ":"@ + decimal(f.line as nat) + ":"@ + col_span_text(f.col_start, f.col_end),
    ) + " "@ + painted(dim_style(), "in"@) + " "@ + painted(bold_style(), f.function) + "\n"@
}

fn paint_into(out: &mut String, style: Style, text: &str)
    ensures
        final(out)@ == old(out)@ + painted(style, text@),
{
    let p = crate::style::paint(style, text);
    out.append(p.as_str());
}

fn render_header(frame: &Frame, cwd: Option<&str>) -> (r: String)
    ensures
        r@ == header_text(frame@, shown_path(frame.file@, crate::render::opt_str_view(cwd))),
{
    let shown: String = match cwd {
        Some(c) => match strip_path_prefix(frame.file.as_str(), c) {
            Some(s) => s,
            None => frame.file.clone(),
        },
        None => frame.file.clone(),
    };
    let mut out = String::new();
    paint_into(&mut out, crate::style::err(), "\u{25cf}");
    out.append(" ");
    paint_into(&mut out, crate::style::bold(), "break");
    out.append(" ");
    paint_into(&mut out, crate::style::dim(), "\u{b7}");
    out.append(" ");
    let mut loc = shown;
    loc.append(":");
    loc.append(string_of(&decimal_v(frame.line)).as_str());
    loc.append(":");
    loc.append(col_span(frame.col_start, frame.col_end).as_str());
    paint_into(&mut out, crate::style::hint(), loc.as_str());
    out.append(" ");
    paint_into(&mut out, crate::style::dim(), "in");
    out.append(" ");
    paint_into(&mut out, crate::style::bold(), frame.function.as_str());
    out.append("\n");
    out
}

pub open spec fn under_bold() -> Style {
    Style { is_underline: true, is_bold: true, ..plain() }
}

pub open spec fn min(a: int, b: int) -> int {
    if a < b {
        a
    } else {
        b
    }
}

/// A line with the breakpoint's columns (1-based, `end` included)
/// underlined and bold, the rest highlighted.
pub open spec fn caret_text(line: Seq<char>, cs: usize, ce: usize) -> Seq<char> {
    let lo = min(if cs > 0 { cs - 1 } else { 0 }, line.len() as int);
    let hi = min(ce as int, line.len() as int);
    if lo >= hi {
        highlight_spec(line)
    } else {
        highlight_spec(line.take(lo)) + painted(under_bold(), line.subrange(lo, hi)) + highlight_spec(
            line.skip(hi),
        )
    }
}

fn highlight_with_caret(line: &Vec<char>, col_start: usize, col_end: usize) -> (r: String)
    ensures
        r@ == caret_text(line@, col_start, col_end),
{
    let n = line.len();
    let c0 = if col_start > 0 {
        col_start - 1
    } else {
        0
    };
    let lo = if c0 < n {
        c0
    } else {
        n
    };
    let hi = if col_end < n {
        col_end
    } else {
        n
    };
    if lo >= hi {
        return highlight_input(string_of(line).as_str());
    }
    let before = slice(line, 0, lo);
    let span = slice(line, lo, hi);
    let after = slice(line, hi, n);
    assert(after@ =~= line@.skip(hi as int));
    let mut out = highlight_input(string_of(&before).as_str());
    paint_into(&mut out, Style::new().underline().bold(), string_of(&span).as_str());
    out.append(highlight_input(string_of(&after).as_str()).as_str());
    out
}

/// `s` right-aligned in `w` columns.
pub open spec fn pad_left(s: Seq<char>, w: int) -> Seq<char> {
    if s.len() < w {
        spaces(w - s.len()) + s
    } else {
        s
    }
}

/// `s` left-aligned in `w` columns.
pub open spec fn pad_right(s: Seq<char>, w: int) -> Seq<char> {
    if s.len() < w {
        s + spaces(w - s.len())
    } else {
        s
    }
}

/// One source line of the panel: a `>` gutter and bold number on the
/// stopped line, whose span is underlined; other lines dimmed numbers and
/// highlighted text.
pub open spec fn source_line(line: Seq<char>, line_no: int, f: FrameView, w: int) -> Seq<char> {
    let current = line_no == f.line;
    " "@ + (if current {
        painted(err_style(), ">"@)
    } else {
        " "@
    }) + " "@ + painted(if current { bold_style() } else { dim_style() }, pad_left(decimal(line_no as nat), w))
        + " "@ + painted(dim_style(), "\u{2502}"@) + " "@ + (if current {
        caret_text(line, f.col_start, f.col_end)
    } else {
        highlight_spec(line)
    }) + "\n"@
}

pub open spec fn source_block(ls: Seq<Seq<char>>, f: FrameView, start: int, k: int, w: int) -> Seq<char>
    decreases k - start,
{
    if k <= start {
        seq![]
    } else {
        source_block(ls, f, start, k - 1, w) + source_line(ls[k - 1], k, f, w)
    }
}

/// Three lines of context around the stopped line.
pub open spec fn source_text(f: FrameView, src: Option<Seq<Seq<char>>>) -> Seq<char> {
    match src {
        None => "  "@ + painted(dim_style(), "(source unavailable: "@ + f.file + ")"@) + "\n"@,
        Some(ls) => {
            let target = if f.line > 0 { f.line - 1 } else { 0 };
            let start = if target >= 3 { target - 3 } else { 0 };
            let end = min(target + 4, ls.len() as int);
            if start >= ls.len() {
                "  "@ + painted(dim_style(), "(line "@ + decimal(f.line as nat) + " past end of file)"@)
                    + "\n"@
            } else {
                source_block(ls, f, start, end, decimal(end as nat).len() as int)
            }
        },
    }
}

fn pad_left_v(s: &Vec<char>, w: usize) -> (r: Vec<char>)
    ensures
        r@ == pad_left(s@, w as int),
{
    let mut r: Vec<char> = Vec::new();
    if s.len() < w {
        push_spaces(&mut r, w - s.len());
    }
    crate::text::extend(&mut r, s);
    r
}

fn pad_right_v(s: &Vec<char>, w: usize) -> (r: Vec<char>)
    ensures
        r@ == pad_right(s@, w as int),
{
    let mut r = s.clone();
    if s.len() < w {
        push_spaces(&mut r, w - s.len());
    }
    r
}

fn source_line_into(out: &mut String, text: &String, line_no: usize, frame: &Frame, w: usize)
    ensures
        final(out)@ == old(out)@ + source_line(text@, line_no as int, frame@, w as int),
{
    let line = chars_of(text.as_str());
    let current = line_no == frame.line;
    out.append(" ");
    if current {
        paint_into(out, crate::style::err(), ">");
    } else {
        out.append(" ");
    }
    out.append(" ");
    let num = pad_left_v(&decimal_v(line_no), w);
    let num_s = string_of(&num);
    if current {
        paint_into(out, crate::style::bold(), num_s.as_str());
    } else {
        paint_into(out, crate::style::dim(), num_s.as_str());
    }
    out.append(" ");
    paint_into(out, crate::style::dim(), "\u{2502}");
    out.append(" ");
    if current {
        out.append(highlight_with_caret(&line, frame.col_start, frame.col_end).as_str());
    } else {
        out.append(highlight_input(text.as_str()).as_str());
    }
    out.append("\n");
}

fn render_source(frame: &Frame, src: Option<&Vec<String>>) -> (r: String)
    requires
        src is Some ==> frame.line <= usize::MAX - 3,
    ensures
        r@ == source_text(
            frame@,
            match src {
                Some(v) => Some(crate::text::string_views(v@)),
                None => None,
            },
        ),
{
    let mut out = String::new();
    let ls = match src {
        Some(v) => v,
        None => {
            out.append("  ");
            let mut t = String::new();
            t.append("(source unavailable: ");
            t.append(frame.file.as_str());
            t.append(")");
            paint_into(&mut out, crate::style::dim(), t.as_str());
            out.append("\n");
            return out;
        },
    };
    let ghost lsv = crate::text::string_views(ls@);
    let target = if frame.line > 0 {
        frame.line - 1
    } else {
        0
    };
    let start = if target >= 3 {
        target - 3
    } else {
        0
    };
    let end = if target + 4 < ls.len() {
        target + 4
    } else {
        ls.len()
    };
    if start >= ls.len() {
        out.append("  ");
        let mut t = String::new();
        t.append("(line ");
        t.append(string_of(&decimal_v(frame.line)).as_str());
        t.append(" past end of file)");
        paint_into(&mut out, crate::style::dim(), t.as_str());
        out.append("\n");
        return out;
    }
    let w = decimal_v(end).len();
    let mut k = start;
    assert(out@ =~= source_block(lsv, frame@, start as int, start as int, w as int));
    while k < end
        invariant
            start <= k <= end,
            end <= ls@.len(),
            lsv == crate::text::string_views(ls@),
            w == decimal(end as nat).len(),
            out@ == source_block(lsv, frame@, start as int, k as int, w as int),
        decreases end - k,
    {
        assert(lsv[k as int] == ls@[k as int]@);
        source_line_into(&mut out, &ls[k], k + 1, frame, w);
        k = k + 1;
    }
    out
}

/// The widest name, in UTF-8 bytes.
pub open spec fn name_width(ls: Seq<LocalView>) -> int
    decreases ls.len(),
{
    if ls.len() == 0 {
        0
    } else {
        let w = sat(width(ls.last().name));
        let m = name_width(ls.drop_last());
        if w > m {
            w
        } else {
            m
        }
    }
}

/// The widest type, in UTF-8 bytes.
pub open spec fn type_width(ls: Seq<LocalView>) -> int
    decreases ls.len(),
{
    if ls.len() == 0 {
        0
    } else {
        let w = match ls.last().ty {
            Some(t) => sat(width(t)),
            None => 0,
        };
        let m = type_width(ls.drop_last());
        if w > m {
            w
        } else {
            m
        }
    }
}

/// A local: bold name and dimmed type, each padded to the widest, then the
/// value; an unforced value shows as `_ (thunk)`.
pub open spec fn local_line(l: LocalView, nw: int, tw: int) -> Seq<char> {
    "    "@ + painted(bold_style(), pad_right(l.name, nw)) + " "@ + painted(
        dim_style(),
        match l.ty {
            Some(t) => ":: "@ + pad_right(t, tw),
            None => seq![],
        },
    ) + " "@ + (if l.value == "_"@ {
        "= "@ + painted(dim_style(), "_"@) + "  "@ + painted(dim_style(), "(thunk)"@)
    } else {
        "= "@ + l.value
    }) + "\n"@
}

pub open spec fn local_lines(ls: Seq<LocalView>, k: int, nw: int, tw: int) -> Seq<char>
    decreases k,
{
    if k <= 0 {
        seq![]
    } else {
        local_lines(ls, k - 1, nw, tw) + local_line(ls[k - 1], nw, tw)
    }
}

pub open spec fn locals_text(ls: Seq<LocalView>) -> Seq<char> {
    if ls.len() == 0 {
        "  "@ + painted(dim_style(), "(no locals in scope)"@) + "\n\n"@
    } else {
        "  "@ + painted(dim_style(), "locals"@) + "\n"@ + local_lines(
            ls,
            ls.len() as int,
            name_width(ls),
            type_width(ls),
        ) + "\n"@
    }
}

fn local_line_into(out: &mut String, l: &Local, nw: usize, tw: usize)
    ensures
        final(out)@ == old(out)@ + local_line(l@, nw as int, tw as int),
{
    out.append("    ");
    let name = pad_right_v(&chars_of(l.name.as_str()), nw);
    paint_into(out, crate::style::bold(), string_of(&name).as_str());
    out.append(" ");
    let mut ty = String::new();
    match &l.ty {
        Some(t) => {
            ty.append(":: ");
            ty.append(string_of(&pad_right_v(&chars_of(t.as_str()), tw)).as_str());
        },
        None => {},
    }
    paint_into(out, crate::style::dim(), ty.as_str());
    out.append(" ");
    if eq_str(&chars_of(l.value.as_str()), "_") {
        out.append("= ");
        paint_into(out, crate::style::dim(), "_");
        out.append("  ");
        paint_into(out, crate::style::dim(), "(thunk)");
    } else {
        out.append("= ");
        out.append(l.value.as_str());
    }
    out.append("\n");
}

fn render_locals(frame: &Frame) -> (r: String)
    ensures
        r@ == locals_text(frame@.locals),
{
    let ghost lv = frame@.locals;
    let mut out = String::new();
    let n = frame.locals.len();
    if n == 0 {
        out.append("  ");
        paint_into(&mut out, crate::style::dim(), "(no locals in scope)");
        out.append("\n\n");
        return out;
    }
    let mut nw: usize = 0;
    let mut tw: usize = 0;
    let mut i: usize = 0;
    while i < n
        invariant
            i <= n,
            n == frame.locals@.len(),
            lv == frame@.locals,
            nw as int == name_width(lv.take(i as int)),
            tw as int == type_width(lv.take(i as int)),
        decreases n - i,
    {
        let l = &frame.locals[i];
        assert(lv.take(i + 1).drop_last() =~= lv.take(i as int));
        assert(lv.take(i + 1).last() == l@);
        let w = width_of(&chars_of(l.name.as_str()));
        if w > nw {
            nw = w;
        }
        let t = match &l.ty {
            Some(ty) => width_of(&chars_of(ty.as_str())),
            None => 0,
        };
        if t > tw {
            tw = t;
        }
        i = i + 1;
    }
    assert(lv.take(n as int) =~= lv);
    out.append("  ");
    paint_into(&mut out, crate::style::dim(), "locals");
    out.append("\n");
    let ghost base = out@;
    let mut k: usize = 0;
    while k < n
        invariant
            k <= n,
            n == frame.locals@.len(),
            lv == frame@.locals,
            out@ == base + local_lines(lv, k as int, nw as int, tw as int),
        decreases n - k,
    {
        assert(lv[k as int] == frame.locals@[k as int]@);
        local_line_into(&mut out, &frame.locals[k], nw, tw);
        k = k + 1;
    }
    out.append("\n");
    out
}

pub open spec fn footer_text() -> Seq<char> {
    "  "@ + painted(
        dim_style(),
        "s step   n next   c cont   b back   p <name> print   l list   h history   q quit"@,
    ) + "\n  "@ + painted(dim_style(), "(press Enter alone to step)"@) + "\n"@
}

fn render_footer() -> (r: String)
    ensures
        r@ == footer_text(),
{
    let mut out = String::new();
    out.append("  ");
    paint_into(
        &mut out,
        crate::style::dim(),
        "s step   n next   c cont   b back   p <name> print   l list   h history   q quit",
    );
    out.append("\n  ");
    paint_into(&mut out, crate::style::dim(), "(press Enter alone to step)");
    out.append("\n");
    out
}

/// The panel for a stop: header, source around the stopped line, locals
/// and key hints.
pub open spec fn frame_text(f: FrameView, src: Option<Seq<Seq<char>>>, cwd: Option<Seq<char>>) -> Seq<char> {
    "\n"@ + header_text(f, shown_path(f.file, cwd)) + "\n"@ + source_text(f, src) + "\n"@
        + locals_text(f.locals) + footer_text()
}

/// Renders the panel for a stop, using the source lines cached in `dbg`;
/// `cwd` is the working directory, against which the path is shortened.
pub fn render_frame(frame: &Frame, dbg: &DebuggerState, cwd: Option<&str>) -> (r: String)
    requires
        dbg.wf(),
        dbg.lines_for(frame.file@) is Some ==> frame.line <= usize::MAX - 3,
    ensures
        r@ == frame_text(frame@, dbg.lines_for(frame.file@), crate::render::opt_str_view(cwd)),
{
    let mut out = String::new();
    out.append("\n");
    out.append(render_header(frame, cwd).as_str());
    out.append("\n");
    let src = dbg.source(frame.file.as_str());
    out.append(render_source(frame, src).as_str());
    out.append("\n");
    out.append(render_locals(frame).as_str());
    out.append(render_footer().as_str());
    out
}

} // verus!
