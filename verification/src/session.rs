//! Sessions: every evaluation is appended to a `.hs` file as comments, so a
//! session can be resumed by replaying its expressions. Reading and writing
//! the files is done by the program around the library.
use vstd::prelude::*;

use crate::parse::{diag_views, opt_view, EvalResult};
use crate::text::{
    chars_of, decimal, decimal_v, ends_with, ends_with_str, lines, lines_v, starts_with,
    starts_with_str, string_of, string_views, views,
};

verus! {

/// The session file is trimmed when it reaches this many lines.
pub const MAX_LINES: usize = 500;

/// The marker of a recorded expression.
pub open spec fn expr_prefix() -> Seq<char> {
    "-- \u{03bb}> "@
}

/// `base` and a relative component joined with `/` (`Path::join`).
pub open spec fn path_join(base: Seq<char>, comp: Seq<char>) -> Seq<char> {
    if base.len() == 0 {
        comp
    } else if ends_with(base, "/"@) {
        base + comp
    } else {
        base + "/"@ + comp
    }
}

pub fn join_path(base: &str, comp: &str) -> (r: String)
    ensures
        r@ == path_join(base@, comp@),
{
    let b = chars_of(base);
    let mut r = base.to_string();
    if b.len() == 0 {
        return comp.to_string();
    }
    if !ends_with_str(&b, "/") {
        r.append("/");
    }
    r.append(comp);
    r
}

/// Where the data lives: `$XDG_DATA_HOME`, else `$HOME/.local/share`, else
/// `.ghcitty`.
pub open spec fn data_dir_spec(xdg: Option<Seq<char>>, home: Option<Seq<char>>) -> Seq<char> {
    match xdg {
        Some(x) => x,
        None => match home {
            Some(h) => path_join(path_join(h, ".local"@), "share"@),
            None => ".ghcitty"@,
        },
    }
}

/// The data directory from the environment's `XDG_DATA_HOME` and `HOME`.
pub fn data_dir(xdg: Option<&str>, home: Option<&str>) -> (r: String)
    ensures
        r@ == data_dir_spec(crate::render::opt_str_view(xdg), crate::render::opt_str_view(home)),
{
    match xdg {
        Some(x) => x.to_string(),
        None => match home {
            Some(h) => {
                let a = join_path(h, ".local");
                join_path(a.as_str(), "share")
            },
            None => ".ghcitty".to_string(),
        },
    }
}

/// The directory of the session files, under the data directory.
pub fn sessions_dir(data: &str) -> (r: String)
    ensures
        r@ == path_join(data@, "ghcitty"@),
{
    join_path(data, "ghcitty")
}

/// The line editor's history file, under the data directory.
pub fn history_path(data: &str) -> (r: String)
    ensures
        r@ == path_join(path_join(data@, "ghcitty"@), "history"@),
{
    let d = join_path(data, "ghcitty");
    join_path(d.as_str(), "history")
}

/// The file name of a session: its name, or `session-<seconds>` for an
/// unnamed one.
pub fn session_file_name(name: Option<&str>, secs: u64) -> (r: String)
    ensures
        r@ == match name {
            Some(n) => n@ + ".hs"@,
            None => "session-"@ + decimal(secs as nat) + ".hs"@,
        },
{
    let mut r = String::new();
    match name {
        Some(n) => {
            r.append(n);
        },
        None => {
            r.append("session-");
            r.append(string_of(&crate::text::decimal_u64_v(secs)).as_str());
        },
    }
    r.append(".hs");
    r
}

/// An open session file and the number of lines it holds.
pub struct Session {
    path: String,
    line_count: usize,
}

/// Each line followed by a newline.
pub open spec fn text_of_lines(ls: Seq<Seq<char>>) -> Seq<char>
    decreases ls.len(),
{
    if ls.len() == 0 {
        seq![]
    } else {
        text_of_lines(ls.drop_last()) + ls.last() + "\n"@
    }
}

/// The value lines of a result, each with the type.
pub open spec fn value_records(ls: Seq<Seq<char>>, suffix: Seq<char>) -> Seq<Seq<char>>
    decreases ls.len(),
{
    if ls.len() == 0 {
        seq![]
    } else {
        value_records(ls.drop_last(), suffix).push("-- "@ + ls.last() + suffix)
    }
}

pub open spec fn diag_records(ds: Seq<crate::parse::DiagnosticView>) -> Seq<Seq<char>>
    decreases ds.len(),
{
    if ds.len() == 0 {
        seq![]
    } else {
        diag_records(ds.drop_last()).push(
            "-- ["@ + ds.last().severity + "] "@ + ds.last().message,
        )
    }
}

/// The lines that record a result: the expression, its value lines with
/// the type, its diagnostics, and a blank line.
pub open spec fn record_lines_spec(r: EvalResult) -> Seq<Seq<char>> {
    let suffix = match opt_view(r.type_str) {
        Some(t) => " :: "@ + t,
        None => seq![],
    };
    seq![expr_prefix() + r.expr@] + (if r.value@.len() > 0 {
        value_records(lines(r.value@), suffix)
    } else {
        seq![]
    }) + diag_records(diag_views(r.diagnostics@)) + seq![seq![]]
}

/// The lines of a file after trimming: a note, a blank line, and its last
/// `MAX_LINES / 2` lines; `None` when it is not longer than that.
pub open spec fn trimmed_lines(content: Seq<char>) -> Option<Seq<Seq<char>>> {
    let ls = lines(content);
    let keep = MAX_LINES / 2;
    if ls.len() <= keep {
        None
    } else {
        Some(
            seq!["-- (trimmed at "@ + decimal(ls.len()) + " lines)"@, seq![]] + ls.skip(
                ls.len() - keep,
            ),
        )
    }
}

/// The recorded expressions of a session file, in order.
pub open spec fn replayed(ls: Seq<Seq<char>>) -> Seq<Seq<char>>
    decreases ls.len(),
{
    if ls.len() == 0 {
        seq![]
    } else if starts_with(ls.last(), expr_prefix()) {
        replayed(ls.drop_last()).push(ls.last().skip(expr_prefix().len() as int))
    } else {
        replayed(ls.drop_last())
    }
}

pub open spec fn expr_records(es: Seq<Seq<char>>) -> Seq<Seq<char>> {
    es.map_values(|e: Seq<char>| expr_prefix() + e)
}

fn push_line(r: &mut Vec<String>, s: String)
    ensures
        string_views(final(r)@) == string_views(old(r)@).push(s@),
{
    let ghost before = string_views(r@);
    r.push(s);
    assert(string_views(r@) =~= before.push(s@));
}

impl Session {
    /// The session file's path.
    pub closed spec fn path_view(&self) -> Seq<char> {
        self.path@
    }

    /// The number of lines the file holds.
    pub closed spec fn count_view(&self) -> usize {
        self.line_count
    }

    /// A session at `path`; `existing` is the file's text if it exists.
    pub fn open(path: String, existing: Option<&str>) -> (s: Session)
        ensures
            s.path_view() == path@,
            s.count_view() == match existing {
                Some(c) => lines(c@).len() as usize,
                None => 0usize,
            },
    {
        let n = match existing {
            Some(c) => lines_v(&chars_of(c)).len(),
            None => 0,
        };
        Session { path, line_count: n }
    }

    /// The session file.
    pub fn path(&self) -> (r: &String)
        ensures
            r@ == self.path_view(),
    {
        &self.path
    }

    pub fn line_count(&self) -> (r: usize)
        ensures
            r == self.count_view(),
    {
        self.line_count
    }

    /// The file is trimmed before a record once it holds `MAX_LINES` lines.
    pub fn needs_trim(&self) -> (r: bool)
        ensures
            r == (self.count_view() >= MAX_LINES),
    {
        self.line_count >= MAX_LINES
    }

    /// The lines that record a result, to be appended to the file.
    pub fn record_lines(result: &EvalResult) -> (r: Vec<String>)
        ensures
            string_views(r@) == record_lines_spec(*result),
    {
        let mut r: Vec<String> = Vec::new();
        let mut head = String::new();
        head.append("-- \u{03bb}> ");
        head.append(result.expr.as_str());
        push_line(&mut r, head);
        assert(string_views(r@) =~= seq![expr_prefix() + result.expr@]);
        let value = chars_of(result.value.as_str());
        let ghost base = string_views(r@);
        if value.len() > 0 {
            let mut suffix = String::new();
            match &result.type_str {
                Some(t) => {
                    suffix.append(" :: ");
                    suffix.append(t.as_str());
                },
                None => {},
            }
            let ls = lines_v(&value);
            let ghost lsv = views(ls@);
            let mut i: usize = 0;
            while i < ls.len()
                invariant
                    i <= ls@.len(),
                    lsv == views(ls@),
                    string_views(r@) == base + value_records(lsv.take(i as int), suffix@),
                decreases ls.len() - i,
            {
                assert(lsv.take(i + 1).drop_last() =~= lsv.take(i as int));
                let mut line = String::new();
                line.append("-- ");
                line.append(string_of(&ls[i]).as_str());
                line.append(suffix.as_str());
                push_line(&mut r, line);
                i = i + 1;
            }
            assert(lsv.take(ls@.len() as int) =~= lsv);
        } else {
            assert(base + Seq::<Seq<char>>::empty() =~= base);
        }
        let ghost base2 = string_views(r@);
        let ghost dv = diag_views(result.diagnostics@);
        let mut k: usize = 0;
        while k < result.diagnostics.len()
            invariant
                k <= result.diagnostics@.len(),
                dv == diag_views(result.diagnostics@),
                string_views(r@) == base2 + diag_records(dv.take(k as int)),
            decreases result.diagnostics.len() - k,
        {
            assert(dv.take(k + 1).drop_last() =~= dv.take(k as int));
            assert(dv.take(k + 1).last() == result.diagnostics@[k as int]@);
            let d = &result.diagnostics[k];
            let mut line = String::new();
            line.append("-- [");
            line.append(d.severity.as_str());
            line.append("] ");
            line.append(d.message.as_str());
            push_line(&mut r, line);
            k = k + 1;
        }
        assert(dv.take(result.diagnostics@.len() as int) =~= dv);
        push_line(&mut r, String::new());
        r
    }

    /// Counts lines appended to the file.
    pub fn note_appended(&mut self, n: usize)
        requires
            old(self).count_view() + n <= usize::MAX,
        ensures
            final(self).path_view() == old(self).path_view(),
            final(self).count_view() == old(self).count_view() + n,
    {
        self.line_count = self.line_count + n;
    }

    /// The file's text after trimming, or `None` when it is short enough
    /// to stay as it is.
    pub fn trimmed(content: &str) -> (r: Option<String>)
        ensures
            match r {
                Some(t) => trimmed_lines(content@) matches Some(ls) && t@ == text_of_lines(ls),
                None => trimmed_lines(content@) is None,
            },
    {
        let ls = lines_v(&chars_of(content));
        let ghost lsv = views(ls@);
        let keep: usize = MAX_LINES / 2;
        let n = ls.len();
        if n <= keep {
            return None;
        }
        let mut t = String::new();
        t.append("-- (trimmed at ");
        t.append(string_of(&decimal_v(n)).as_str());
        t.append(" lines)");
        t.append("\n");
        t.append("\n");
        let ghost head = seq!["-- (trimmed at "@ + decimal(n as nat) + " lines)"@, seq![]];
        assert(t@ =~= text_of_lines(head)) by {
            let h1 = head.drop_last();
            assert(h1 =~= seq!["-- (trimmed at "@ + decimal(n as nat) + " lines)"@]);
            assert(h1.drop_last() =~= Seq::<Seq<char>>::empty());
            assert(text_of_lines(h1) == text_of_lines(h1.drop_last()) + h1.last() + "\n"@);
            assert(text_of_lines(head) == text_of_lines(h1) + head.last() + "\n"@);
        }
        let mut i: usize = n - keep;
        while i < n
            invariant
                n - keep <= i <= n,
                n > keep,
                n == ls@.len(),
                lsv.len() == n,
                keep == MAX_LINES / 2,
                lsv == views(ls@),
                t@ == text_of_lines(head + lsv.subrange(n - keep, i as int)),
            decreases n - i,
        {
            t.append(string_of(&ls[i]).as_str());
            t.append("\n");
            assert((head + lsv.subrange(n - keep, i + 1)).drop_last() =~= head + lsv.subrange(
                n - keep,
                i as int,
            ));
            assert((head + lsv.subrange(n - keep, i + 1)).last() == lsv[i as int]);
            assert(lsv[i as int] == ls@[i as int]@);
            i = i + 1;
        }
        assert(lsv.subrange(n - keep, n as int) =~= lsv.skip(n - keep));
        Some(t)
    }

    /// Counts the lines the file holds after trimming: the note, a blank
    /// line, and the lines kept.
    pub fn note_trimmed(&mut self)
        ensures
            final(self).path_view() == old(self).path_view(),
            final(self).count_view() == MAX_LINES / 2 + 2,
    {
        self.line_count = MAX_LINES / 2 + 2;
    }

    /// The file's text holding only the given expressions.
    pub fn rewrite_text(exprs: &[String]) -> (r: String)
        ensures
            r@ == text_of_lines(expr_records(string_views(exprs@))),
    {
        let ghost ev = expr_records(string_views(exprs@));
        let mut t = String::new();
        let mut i: usize = 0;
        while i < exprs.len()
            invariant
                i <= exprs@.len(),
                ev == expr_records(string_views(exprs@)),
                t@ == text_of_lines(ev.take(i as int)),
            decreases exprs.len() - i,
        {
            assert(ev.take(i + 1).drop_last() =~= ev.take(i as int));
            t.append("-- \u{03bb}> ");
            t.append(exprs[i].as_str());
            t.append("\n");
            i = i + 1;
        }
        assert(ev.take(exprs@.len() as int) =~= ev);
        t
    }

    /// Counts the lines of a rewritten file.
    pub fn note_rewritten(&mut self, n: usize)
        ensures
            final(self).path_view() == old(self).path_view(),
            final(self).count_view() == n,
    {
        self.line_count = n;
    }

    /// The expressions recorded in a session file's text, in order.
    pub fn replay_from(content: &str) -> (r: Vec<String>)
        ensures
            string_views(r@) == replayed(lines(content@)),
    {
        let ls = lines_v(&chars_of(content));
        let ghost lsv = views(ls@);
        let mut r: Vec<String> = Vec::new();
        let mut i: usize = 0;
        while i < ls.len()
            invariant
                i <= ls@.len(),
                lsv == views(ls@),
                string_views(r@) == replayed(lsv.take(i as int)),
            decreases ls.len() - i,
        {
            assert(lsv.take(i + 1).drop_last() =~= lsv.take(i as int));
            assert(lsv.take(i + 1).last() == ls@[i as int]@);
            if starts_with_str(&ls[i], "-- \u{03bb}> ") {
                proof {
                    reveal_strlit("-- \u{03bb}> ");
                }
                let rest = crate::text::slice(&ls[i], 6, ls[i].len());
                assert(rest@ =~= ls@[i as int]@.skip(6));
                push_line(&mut r, string_of(&rest));
            }
            i = i + 1;
        }
        assert(lsv.take(ls@.len() as int) =~= lsv);
        r
    }
}

// ---------------------------------------------------------------------------
// Reading back what was written
// ---------------------------------------------------------------------------

/// A line that the file gives back as written: no line break in it and no
/// `\r` at its end.
pub open spec fn plain_line(l: Seq<char>) -> bool {
    !l.contains('\n') && !(l.len() > 0 && l.last() == '\r')
}

proof fn lemma_find_newline(l: Seq<char>, rest: Seq<char>)
    requires
        !l.contains('\n'),
    ensures
        crate::text::find_char(l + seq!['\n'] + rest, '\n') == Some(l.len() as int),
    decreases l.len(),
{
    let s = l + seq!['\n'] + rest;
    if l.len() > 0 {
        assert(s[0] == l[0]);
        assert(l[0] != '\n') by {
            if l[0] == '\n' {
                assert(l.contains('\n'));
            }
        }
        let d = l.drop_first();
        assert(!d.contains('\n')) by {
            if d.contains('\n') {
                let j = choose|j: int| 0 <= j < d.len() && d[j] == '\n';
                assert(l[j + 1] == '\n');
            }
        }
        lemma_find_newline(d, rest);
        assert(s.drop_first() =~= d + seq!['\n'] + rest);
    } else {
        assert(s[0] == '\n');
    }
}

proof fn lemma_lines_cons(l: Seq<char>, rest: Seq<char>)
    requires
        plain_line(l),
    ensures
        lines(l + seq!['\n'] + rest) == seq![l] + lines(rest),
{
    let s = l + seq!['\n'] + rest;
    lemma_find_newline(l, rest);
    assert(s.take(l.len() as int) =~= l);
    assert(s.skip(l.len() as int + 1) =~= rest);
    assert(s.len() > 0);
}

proof fn lemma_text_of_lines_front(ls: Seq<Seq<char>>)
    requires
        ls.len() > 0,
    ensures
        text_of_lines(ls) == ls[0] + "\n"@ + text_of_lines(ls.drop_first()),
    decreases ls.len(),
{
    if ls.len() == 1 {
        assert(ls.drop_last() =~= Seq::<Seq<char>>::empty());
        assert(ls.drop_first() =~= Seq::<Seq<char>>::empty());
        assert(text_of_lines(ls.drop_last()) =~= Seq::<char>::empty());
        assert(ls.last() == ls[0]);
        assert(text_of_lines(seq![]) =~= Seq::<char>::empty());
        assert(text_of_lines(ls) =~= ls[0] + "\n"@);
    } else {
        lemma_text_of_lines_front(ls.drop_last());
        assert(ls.drop_last().drop_first() =~= ls.drop_first().drop_last());
        assert(ls.drop_first().last() == ls.last());
        assert(text_of_lines(ls) =~= ls[0] + "\n"@ + text_of_lines(ls.drop_first()));
    }
}

/// A file's lines are the lines that were written to it, each followed by a
/// newline, when no line holds a line break or ends with `\r`.
pub proof fn lemma_lines_of_text(ls: Seq<Seq<char>>)
    requires
        forall|i: int| 0 <= i < ls.len() ==> plain_line(#[trigger] ls[i]),
    ensures
        lines(text_of_lines(ls)) == ls,
    decreases ls.len(),
{
    if ls.len() == 0 {
        assert(lines(seq![]) =~= Seq::<Seq<char>>::empty());
    } else {
        lemma_text_of_lines_front(ls);
        let t = ls.drop_first();
        assert forall|i: int| 0 <= i < t.len() implies plain_line(#[trigger] t[i]) by {
            assert(t[i] == ls[i + 1]);
        }
        lemma_lines_of_text(t);
        assert(plain_line(ls[0]));
        assert("\n"@ =~= seq!['\n']) by {
            reveal_strlit("\n");
        }
        lemma_lines_cons(ls[0], text_of_lines(t));
        assert(seq![ls[0]] + t =~= ls);
    }
}

/// Replaying two parts of a file replays the first, then the second.
pub proof fn lemma_replayed_append(a: Seq<Seq<char>>, b: Seq<Seq<char>>)
    ensures
        replayed(a + b) == replayed(a) + replayed(b),
    decreases b.len(),
{
    if b.len() == 0 {
        assert(a + b =~= a);
        assert(replayed(a) + seq![] =~= replayed(a));
    } else {
        lemma_replayed_append(a, b.drop_last());
        assert((a + b).drop_last() =~= a + b.drop_last());
        assert((a + b).last() == b.last());
        if starts_with(b.last(), expr_prefix()) {
            assert(replayed(a + b) =~= replayed(a) + replayed(b));
        } else {
            assert(replayed(a + b) =~= replayed(a) + replayed(b));
        }
    }
}

proof fn lemma_replayed_records(es: Seq<Seq<char>>)
    ensures
        replayed(expr_records(es)) == es,
    decreases es.len(),
{
    if es.len() > 0 {
        lemma_replayed_records(es.drop_last());
        assert(expr_records(es).drop_last() =~= expr_records(es.drop_last()));
        let l = expr_records(es).last();
        assert(l == expr_prefix() + es.last());
        assert(l.take(expr_prefix().len() as int) =~= expr_prefix());
        assert(l.skip(expr_prefix().len() as int) =~= es.last());
        assert(replayed(expr_records(es)) =~= es);
    } else {
        assert(expr_records(es) =~= Seq::<Seq<char>>::empty());
    }
}

/// An expression that survives a round trip through the file: one line, not
/// ending with `\r`.
pub open spec fn one_line(e: Seq<char>) -> bool {
    !e.contains('\n') && !e.contains('\r')
}

/// Rewriting the session with some expressions (as `:undo` does) and
/// replaying it (as `--continue` does) gives back those expressions, in
/// order, when each is one line.
pub proof fn law_rewrite_then_replay(es: Seq<Seq<char>>)
    requires
        forall|i: int| 0 <= i < es.len() ==> one_line(#[trigger] es[i]),
    ensures
        replayed(lines(text_of_lines(expr_records(es)))) == es,
{
    let rs = expr_records(es);
    assert forall|i: int| 0 <= i < rs.len() implies plain_line(#[trigger] rs[i]) by {
        let e = es[i];
        assert(rs[i] == expr_prefix() + e);
        reveal_strlit("-- \u{03bb}> ");
        assert(!rs[i].contains('\n')) by {
            if rs[i].contains('\n') {
                let j = choose|j: int| 0 <= j < rs[i].len() && rs[i][j] == '\n';
                if j >= expr_prefix().len() {
                    assert(e[j - expr_prefix().len()] == '\n');
                }
            }
        }
        if e.len() > 0 {
            assert(rs[i].last() == e.last());
            assert(e.contains(e.last()));
        }
    }
    lemma_lines_of_text(rs);
    lemma_replayed_records(es);
}

/// The lines of the records of several results, in order.
pub open spec fn records_of(rs: Seq<EvalResult>) -> Seq<Seq<char>>
    decreases rs.len(),
{
    if rs.len() == 0 {
        seq![]
    } else {
        records_of(rs.drop_last()) + record_lines_spec(rs.last())
    }
}

/// A result whose record gives back its expression: every line of the
/// record is plain, and only the first is marked as an expression (a value
/// line that itself starts with `λ> ` would be read back as one).
pub open spec fn replayable(r: EvalResult) -> bool {
    let ls = record_lines_spec(r);
    forall|i: int| 0 <= i < ls.len() ==> plain_line(#[trigger] ls[i]) && (i > 0 ==> !starts_with(
        ls[i],
        expr_prefix(),
    ))
}

proof fn lemma_replayed_one(r: EvalResult)
    requires
        replayable(r),
    ensures
        replayed(record_lines_spec(r)) == seq![r.expr@],
{
    let ls = record_lines_spec(r);
    assert(ls[0] == expr_prefix() + r.expr@);
    assert(ls =~= seq![ls[0]] + ls.drop_first());
    lemma_replayed_none(ls.drop_first());
    lemma_replayed_append(seq![ls[0]], ls.drop_first());
    assert(seq![ls[0]].drop_last() =~= Seq::<Seq<char>>::empty());
    assert(ls[0].take(expr_prefix().len() as int) =~= expr_prefix());
    assert(ls[0].skip(expr_prefix().len() as int) =~= r.expr@);
    let one = seq![ls[0]];
    assert(starts_with(ls[0], expr_prefix()));
    assert(one.last() == ls[0]);
    assert(one.drop_last() =~= Seq::<Seq<char>>::empty());
    assert(replayed(one.drop_last()) == Seq::<Seq<char>>::empty());
    assert(replayed(one) == replayed(one.drop_last()).push(ls[0].skip(expr_prefix().len() as int)));
    assert(replayed(one) =~= seq![r.expr@]);
    assert(seq![r.expr@] + Seq::<Seq<char>>::empty() =~= seq![r.expr@]);
}

proof fn lemma_replayed_none(ls: Seq<Seq<char>>)
    requires
        forall|i: int| 0 <= i < ls.len() ==> !starts_with(#[trigger] ls[i], expr_prefix()),
    ensures
        replayed(ls) == Seq::<Seq<char>>::empty(),
    decreases ls.len(),
{
    if ls.len() > 0 {
        assert(!starts_with(ls[ls.len() - 1], expr_prefix()));
        lemma_replayed_none(ls.drop_last());
    }
}

proof fn lemma_records_plain(rs: Seq<EvalResult>)
    requires
        forall|i: int| 0 <= i < rs.len() ==> replayable(#[trigger] rs[i]),
    ensures
        forall|i: int| 0 <= i < records_of(rs).len() ==> plain_line(#[trigger] records_of(rs)[i]),
        replayed(records_of(rs)) == rs.map_values(|r: EvalResult| r.expr@),
    decreases rs.len(),
{
    if rs.len() > 0 {
        let init = rs.drop_last();
        assert forall|i: int| 0 <= i < init.len() implies replayable(#[trigger] init[i]) by {
            assert(init[i] == rs[i]);
        }
        lemma_records_plain(init);
        let last = rs.last();
        assert(replayable(rs[rs.len() - 1]));
        let ls = record_lines_spec(last);
        let all = records_of(rs);
        assert(all == records_of(init) + ls);
        assert forall|i: int| 0 <= i < all.len() implies plain_line(#[trigger] all[i]) by {
            if i < records_of(init).len() {
                assert(all[i] == records_of(init)[i]);
            } else {
                assert(all[i] == ls[i - records_of(init).len()]);
            }
        }
        lemma_replayed_append(records_of(init), ls);
        lemma_replayed_one(last);
        assert(rs.map_values(|r: EvalResult| r.expr@) =~= init.map_values(|r: EvalResult| r.expr@)
            + seq![last.expr@]);
    } else {
        assert(rs.map_values(|r: EvalResult| r.expr@) =~= Seq::<Seq<char>>::empty());
    }
}

/// Recording results one after the other (as every evaluation does) and
/// replaying the file gives back their expressions, in order, for results
/// whose records read back as written.
pub proof fn law_record_then_replay(rs: Seq<EvalResult>)
    requires
        forall|i: int| 0 <= i < rs.len() ==> replayable(#[trigger] rs[i]),
    ensures
        replayed(lines(text_of_lines(records_of(rs)))) == rs.map_values(|r: EvalResult| r.expr@),
{
    lemma_records_plain(rs);
    lemma_lines_of_text(records_of(rs));
}

} // verus!
