//! Talking to GHCi: how it is launched, what is sent to it, and how its
//! answers are read. The process itself, its terminal and its pipes belong
//! to the program around the library.
use vstd::prelude::*;

use crate::parse::{
    bound_name, is_binding, is_let_binding, let_bound_name, opt_view, EvalResult,
    between_sentinels, diag_views, eval_diagnostics, eval_value, parse_eval_output,
    parse_type_output, simple_diagnostic, type_of_answer, Diagnostic, DiagnosticView, SENTINEL,
};
use crate::error::Error;
use crate::text::{
    chars_of, ends_with, find, find_char, find_char_from, find_str, join, join_v, lines, lines_v,
    rfind_char, rfind_char_v, slice, starts_with, string_of, string_views, trim, trim_v, views,
};

verus! {

/// How GHCi is launched: bare, or through stack or cabal so that the
/// project's modules load.
#[derive(Debug, Clone, Copy, PartialEq, Eq)]
pub enum LaunchMode {
    Plain,
    Stack,
    Cabal,
}

pub open spec fn mode_label(m: LaunchMode) -> Seq<char> {
    match m {
        LaunchMode::Plain => "ghci"@,
        LaunchMode::Stack => "stack ghci"@,
        LaunchMode::Cabal => "cabal repl"@,
    }
}

impl LaunchMode {
    /// The command this mode runs, as shown to the user.
    pub fn label(self) -> (r: &'static str)
        ensures
            r@ == mode_label(self),
    {
        match self {
            LaunchMode::Plain => "ghci",
            LaunchMode::Stack => "stack ghci",
            LaunchMode::Cabal => "cabal repl",
        }
    }
}

/// The arguments that a mode passes of its own.
pub open spec fn mode_args(mode: LaunchMode) -> Seq<Seq<char>> {
    match mode {
        LaunchMode::Plain => seq!["-v0"@],
        LaunchMode::Stack => seq!["ghci"@, "--ghci-options=-v0"@],
        LaunchMode::Cabal => seq!["repl"@, "--repl-options=-v0"@],
    }
}

/// The program and arguments that start GHCi in a mode; `ghci` is the
/// path found for bare GHCi, and `extra` are the arguments given after `--`
/// on the command line, passed on as they are.
pub fn launch_command(mode: LaunchMode, ghci: &str, extra: &Vec<String>) -> (r: (String, Vec<String>))
    ensures
        r.0@ == (match mode {
            LaunchMode::Plain => ghci@,
            LaunchMode::Stack => "stack"@,
            LaunchMode::Cabal => "cabal"@,
        }),
        string_views(r.1@) == mode_args(mode) + string_views(extra@),
{
    let mut args: Vec<String> = Vec::new();
    let program = match mode {
        LaunchMode::Plain => {
            args.push("-v0".to_string());
            ghci.to_string()
        },
        LaunchMode::Stack => {
            args.push("ghci".to_string());
            args.push("--ghci-options=-v0".to_string());
            "stack".to_string()
        },
        LaunchMode::Cabal => {
            args.push("repl".to_string());
            args.push("--repl-options=-v0".to_string());
            "cabal".to_string()
        },
    };
    assert(string_views(args@) =~= mode_args(mode));
    let mut i: usize = 0;
    while i < extra.len()
        invariant
            i <= extra@.len(),
            string_views(args@) == mode_args(mode) + string_views(extra@).take(i as int),
        decreases extra.len() - i,
    {
        let ghost before = string_views(args@);
        args.push(extra[i].clone());
        assert(string_views(args@) =~= before.push(extra@[i as int]@));
        assert(string_views(extra@).take(i + 1) =~= string_views(extra@).take(i as int).push(
            extra@[i as int]@,
        ));
        i = i + 1;
    }
    assert(string_views(extra@).take(extra@.len() as int) =~= string_views(extra@));
    (program, args)
}

/// The program and arguments that run the compiler with `flags` so that it
/// sees the same packages as the session.
pub fn compiler_command(mode: LaunchMode, flags: &Vec<String>) -> (r: (String, Vec<String>))
    ensures
        (r.0@, string_views(r.1@)) == match mode {
            LaunchMode::Plain => ("ghc"@, string_views(flags@)),
            LaunchMode::Stack => ("stack"@, seq!["ghc"@, "--"@] + string_views(flags@)),
            LaunchMode::Cabal => ("cabal"@, seq!["exec"@, "-v0"@, "--"@, "ghc"@] + string_views(flags@)),
        },
{
    let mut args: Vec<String> = Vec::new();
    let program = match mode {
        LaunchMode::Plain => "ghc".to_string(),
        LaunchMode::Stack => {
            args.push("ghc".to_string());
            args.push("--".to_string());
            "stack".to_string()
        },
        LaunchMode::Cabal => {
            args.push("exec".to_string());
            args.push("-v0".to_string());
            args.push("--".to_string());
            args.push("ghc".to_string());
            "cabal".to_string()
        },
    };
    let ghost head = string_views(args@);
    let mut i: usize = 0;
    while i < flags.len()
        invariant
            i <= flags@.len(),
            string_views(args@) == head + string_views(flags@).take(i as int),
        decreases flags.len() - i,
    {
        let ghost before = string_views(args@);
        args.push(flags[i].clone());
        assert(string_views(args@) =~= before.push(flags@[i as int]@));
        assert(string_views(flags@).take(i + 1) =~= string_views(flags@).take(i as int).push(
            flags@[i as int]@,
        ));
        i = i + 1;
    }
    assert(string_views(flags@).take(flags@.len() as int) =~= string_views(flags@));
    proof {
        match mode {
            LaunchMode::Plain => assert(head =~= Seq::<Seq<char>>::empty()),
            LaunchMode::Stack => assert(head =~= seq!["ghc"@, "--"@]),
            LaunchMode::Cabal => assert(head =~= seq!["exec"@, "-v0"@, "--"@, "ghc"@]),
        }
    }
    (program, args)
}

// ---------------------------------------------------------------------------
// Projects
// ---------------------------------------------------------------------------

/// A file name whose extension is `cabal` (`Path::extension`): after its
/// last `.`, which is not its first character.
pub open spec fn cabal_file(name: Seq<char>) -> bool {
    match rfind_char(name, '.') {
        Some(i) => i > 0 && name.skip(i + 1) == "cabal"@,
        None => false,
    }
}

pub fn is_cabal_file(name: &str) -> (r: bool)
    ensures
        r == cabal_file(name@),
{
    let v = chars_of(name);
    let n = v.len();
    match rfind_char_v(&v, '.') {
        Some(i) => {
            let ext = slice(&v, i + 1, n);
            assert(ext@ =~= v@.skip(i + 1));
            i > 0 && crate::text::eq_str(&ext, "cabal")
        },
        None => false,
    }
}

/// The launch mode a directory asks for: `stack.yaml` wins, then
/// `cabal.project`, then any `*.cabal` file.
pub open spec fn project_mode_spec(has_stack: bool, has_cabal_project: bool, names: Seq<Seq<char>>) -> Option<LaunchMode> {
    if has_stack {
        Some(LaunchMode::Stack)
    } else if has_cabal_project {
        Some(LaunchMode::Cabal)
    } else if exists|i: int| 0 <= i < names.len() && cabal_file(#[trigger] names[i]) {
        Some(LaunchMode::Cabal)
    } else {
        None
    }
}

/// Decides the launch mode from what a directory holds: whether it has
/// `stack.yaml` and `cabal.project`, and the names of its files.
pub fn project_mode(has_stack: bool, has_cabal_project: bool, names: &Vec<String>) -> (r: Option<LaunchMode>)
    ensures
        r == project_mode_spec(has_stack, has_cabal_project, string_views(names@)),
{
    if has_stack {
        return Some(LaunchMode::Stack);
    }
    if has_cabal_project {
        return Some(LaunchMode::Cabal);
    }
    let mut i: usize = 0;
    while i < names.len()
        invariant
            i <= names@.len(),
            !has_stack && !has_cabal_project,
            forall|j: int| 0 <= j < i ==> !cabal_file(#[trigger] string_views(names@)[j]),
        decreases names.len() - i,
    {
        assert(string_views(names@)[i as int] == names@[i as int]@);
        if is_cabal_file(names[i].as_str()) {
            assert(cabal_file(string_views(names@)[i as int]));
            return Some(LaunchMode::Cabal);
        }
        i = i + 1;
    }
    None
}

// ---------------------------------------------------------------------------
// Commands and answers
// ---------------------------------------------------------------------------

/// The lines sent for a command: a command of several lines is wrapped in
/// `:{` and `:}`.
pub open spec fn command_lines_spec(cmd: Seq<char>) -> Seq<Seq<char>> {
    if find_char(cmd, '\n') is Some {
        seq![":{"@] + lines(cmd) + seq![":}"@]
    } else {
        seq![cmd]
    }
}

pub fn command_lines(cmd: &str) -> (r: Vec<String>)
    ensures
        string_views(r@) == command_lines_spec(cmd@),
{
    let v = chars_of(cmd);
    let mut r: Vec<String> = Vec::new();
    assert(v@.skip(0) =~= v@);
    match find_char_from(&v, '\n', 0) {
        None => {
            r.push(cmd.to_string());
            assert(string_views(r@) =~= seq![cmd@]);
        },
        Some(_) => {
            r.push(":{".to_string());
            let ls = lines_v(&v);
            let mut i: usize = 0;
            while i < ls.len()
                invariant
                    i <= ls@.len(),
                    views(ls@) == lines(cmd@),
                    string_views(r@) == seq![":{"@] + views(ls@).take(i as int),
                decreases ls.len() - i,
            {
                let ghost before = string_views(r@);
                r.push(string_of(&ls[i]));
                assert(string_views(r@) =~= before.push(ls@[i as int]@));
                assert(views(ls@).take(i + 1) =~= views(ls@).take(i as int).push(ls@[i as int]@));
                i = i + 1;
            }
            assert(views(ls@).take(ls@.len() as int) =~= views(ls@));
            let ghost before = string_views(r@);
            r.push(":}".to_string());
            assert(string_views(r@) =~= before.push(":}"@));
        },
    }
    r
}

/// A line that is exactly the sentinel, once its line ending is removed.
pub open spec fn sentinel_line(line: Seq<char>) -> bool {
    crate::render::trim_end_char(crate::render::trim_end_char(line, '\n'), '\r') == SENTINEL@
}

pub fn is_sentinel_line(line: &str) -> (r: bool)
    ensures
        r == sentinel_line(line@),
{
    let v = chars_of(line);
    let a = crate::render::trim_end_char_v(&v, '\n');
    let b = crate::render::trim_end_char_v(&a, '\r');
    crate::text::eq_str(&b, SENTINEL)
}

/// A line that holds the sentinel anywhere: how the first answer is found
/// while GHCi starts, when the sentinel may follow other text on its line.
pub fn holds_sentinel(line: &str) -> (r: bool)
    ensures
        r == crate::text::contains(line@, SENTINEL@),
{
    crate::text::contains_str(&chars_of(line), SENTINEL)
}

/// `raw` framed by sentinels, as the answer readers expect it.
pub open spec fn framed(raw: Seq<char>) -> Seq<char> {
    SENTINEL@ + "\n"@ + raw + SENTINEL@
}

fn framed_v(raw: &str) -> (r: String)
    ensures
        r@ == framed(raw@),
{
    let mut s = String::new();
    s.append(SENTINEL);
    s.append("\n");
    s.append(raw);
    s.append(SENTINEL);
    s
}

/// The command that asks the type of an expression.
pub fn type_query(expr: &str) -> (r: String)
    ensures
        r@ == ":type "@ + expr@,
{
    let mut s = String::new();
    s.append(":type ");
    s.append(expr);
    s
}

/// The type in GHCi's answer to `:type`.
pub fn type_answer(raw: &str) -> (r: Option<String>)
    ensures
        crate::parse::opt_view(r) == type_of_answer(framed(raw@)),
{
    parse_type_output(framed_v(raw).as_str())
}

/// The value and diagnostics of an evaluation: those GHCi printed, else
/// those its error stream holds, else, if the error stream is not blank,
/// one error with all of it.
pub open spec fn eval_answer(raw: Seq<char>, stderr: Seq<Seq<char>>) -> (Seq<char>, Seq<DiagnosticView>) {
    let value = eval_value(framed(raw));
    let diags = eval_diagnostics(framed(raw));
    if diags.len() == 0 && stderr.len() > 0 {
        let text = join(stderr, seq!['\n']);
        let sd = eval_diagnostics(framed(text + "\n"@));
        if sd.len() > 0 {
            (value, sd)
        } else if trim(text).len() > 0 {
            (
                value,
                seq![
                    DiagnosticView {
                        severity: "error"@,
                        message: text,
                        location: None,
                        code: None,
                        expected: None,
                        actual: None,
                        suggestion: None,
                    },
                ],
            )
        } else {
            (value, diags)
        }
    } else {
        (value, diags)
    }
}

fn newline() -> (r: Vec<char>)
    ensures
        r@ == seq!['\n'],
{
    let mut nl: Vec<char> = Vec::new();
    nl.push('\n');
    assert(nl@ =~= seq!['\n']);
    nl
}

fn string_vecs(v: &Vec<String>) -> (r: Vec<Vec<char>>)
    ensures
        views(r@) == string_views(v@),
{
    let mut r: Vec<Vec<char>> = Vec::new();
    let mut i: usize = 0;
    while i < v.len()
        invariant
            i <= v@.len(),
            views(r@) == string_views(v@).take(i as int),
        decreases v.len() - i,
    {
        let ghost before = views(r@);
        r.push(chars_of(v[i].as_str()));
        assert(views(r@) =~= before.push(v@[i as int]@));
        assert(string_views(v@).take(i + 1) =~= string_views(v@).take(i as int).push(v@[i as int]@));
        i = i + 1;
    }
    assert(string_views(v@).take(v@.len() as int) =~= string_views(v@));
    r
}

/// Reads what GHCi answered to an evaluation, with the lines its error
/// stream received meanwhile.
pub fn eval_output(raw: &str, stderr: &Vec<String>) -> (r: (String, Vec<Diagnostic>))
    ensures
        (r.0@, diag_views(r.1@)) == eval_answer(raw@, string_views(stderr@)),
{
    let (value, diags) = parse_eval_output(framed_v(raw).as_str());
    if diags.len() == 0 && stderr.len() > 0 {
        let text = string_of(&join_v(&string_vecs(stderr), &newline()));
        let mut t2 = text.clone();
        t2.append("\n");
        let (_, sd) = parse_eval_output(framed_v(t2.as_str()).as_str());
        if sd.len() > 0 {
            return (value, sd);
        }
        if trim_v(&chars_of(text.as_str())).len() > 0 {
            let mut d: Vec<Diagnostic> = Vec::new();
            let diag = simple_diagnostic("error", text);
            d.push(diag);
            assert(diag_views(d@) =~= seq![diag@]);
            return (value, d);
        }
    }
    (value, diags)
}

/// `s` with `\` and `"` escaped for a string literal.
pub open spec fn escaped(s: Seq<char>) -> Seq<char>
    decreases s.len(),
{
    if s.len() == 0 {
        seq![]
    } else {
        escaped(s.drop_last()) + if s.last() == '\\' {
            seq!['\\', '\\']
        } else if s.last() == '"' {
            seq!['\\', '"']
        } else {
            seq![s.last()]
        }
    }
}

/// The part of `s` after its last newline.
pub open spec fn last_segment(s: Seq<char>) -> Seq<char> {
    match rfind_char(s, '\n') {
        Some(i) => s.skip(i + 1),
        None => s,
    }
}

/// The command asking completions for the text before the cursor: only
/// the last line of a multi-line buffer is sent, quoted.
pub fn complete_query(prefix: &str) -> (r: String)
    ensures
        r@ == ":complete repl \""@ + escaped(last_segment(prefix@)) + "\""@,
{
    let v = chars_of(prefix);
    let n = v.len();
    let seg = match rfind_char_v(&v, '\n') {
        Some(i) => {
            let s = slice(&v, i + 1, n);
            assert(s@ =~= v@.skip(i + 1));
            s
        },
        None => v,
    };
    let mut e: Vec<char> = Vec::new();
    let mut i: usize = 0;
    while i < seg.len()
        invariant
            i <= seg@.len(),
            e@ == escaped(seg@.take(i as int)),
        decreases seg.len() - i,
    {
        assert(seg@.take(i + 1).drop_last() =~= seg@.take(i as int));
        let c = seg[i];
        if c == '\\' {
            e.push('\\');
            e.push('\\');
        } else if c == '"' {
            e.push('\\');
            e.push('"');
        } else {
            e.push(c);
        }
        assert(e@ =~= escaped(seg@.take(i + 1)));
        i = i + 1;
    }
    assert(seg@.take(seg@.len() as int) =~= seg@);
    let mut s = String::new();
    s.append(":complete repl \"");
    s.append(string_of(&e).as_str());
    s.append("\"");
    s
}

/// A quoted completion: the text between the quotes of a trimmed line.
pub open spec fn completion_of(line: Seq<char>) -> Option<Seq<char>> {
    let t = trim(line);
    if t.len() >= 2 && t[0] == '"' && t.last() == '"' {
        Some(t.subrange(1, t.len() - 1))
    } else {
        None
    }
}

pub open spec fn completions_from(ls: Seq<Seq<char>>, k: int) -> Seq<Seq<char>>
    decreases k,
{
    if k <= 1 {
        seq![]
    } else {
        match completion_of(ls[k - 1]) {
            Some(c) => completions_from(ls, k - 1).push(c),
            None => completions_from(ls, k - 1),
        }
    }
}

/// The completions in the answer to `:complete repl`: its first line is a
/// count, each further line a quoted completion.
pub fn parse_completions(raw: &str) -> (r: Vec<String>)
    ensures
        string_views(r@) == completions_from(lines(raw@), lines(raw@).len() as int),
{
    let ls = lines_v(&chars_of(raw));
    let ghost lsv = views(ls@);
    let mut r: Vec<String> = Vec::new();
    let mut i: usize = 1;
    while i < ls.len()
        invariant
            1 <= i,
            i <= ls@.len() || (ls@.len() == 0 && i == 1),
            lsv == views(ls@),
            lsv == lines(raw@),
            string_views(r@) == completions_from(lsv, i as int),
        decreases ls.len() - i,
    {
        let t = trim_v(&ls[i]);
        let n = t.len();
        assert(lsv[i as int] == ls@[i as int]@);
        if n >= 2 && t[0] == '"' && t[n - 1] == '"' {
            let ghost before = string_views(r@);
            r.push(string_of(&slice(&t, 1, n - 1)));
            assert(string_views(r@) =~= before.push(t@.subrange(1, n - 1)));
        }
        i = i + 1;
    }
    proof {
        if ls@.len() == 0 {
            assert(completions_from(lsv, 1) =~= completions_from(lsv, 0));
            assert(string_views(r@) == completions_from(lsv, 0));
        } else {
            assert(i == ls@.len());
            assert(string_views(r@) == completions_from(lsv, i as int));
        }
    }
    r
}

/// A command's output: the trimmed text, then the error stream's lines.
pub open spec fn passthrough_text(stdout: Seq<char>, stderr: Seq<Seq<char>>) -> Seq<char> {
    let out = trim(stdout);
    if stderr.len() > 0 {
        (if out.len() > 0 {
            out + "\n"@
        } else {
            out
        }) + join(stderr, seq!['\n'])
    } else {
        out
    }
}

/// Combines a command's output with what its error stream received.
pub fn passthrough_output(stdout: &str, stderr: &Vec<String>) -> (r: String)
    ensures
        r@ == passthrough_text(stdout@, string_views(stderr@)),
{
    let mut out = string_of(&trim_v(&chars_of(stdout)));
    if stderr.len() > 0 {
        if chars_of(out.as_str()).len() > 0 {
            out.append("\n");
        }
        out.append(string_of(&join_v(&string_vecs(stderr), &newline())).as_str());
    }
    out
}

/// GHC's version as GHCi printed it: trimmed, quotes removed, `unknown`
/// when nothing is left.
pub open spec fn version_of(raw: Seq<char>) -> Seq<char> {
    let v = crate::render::trim_end_char(crate::render::trim_start_char(trim(raw), '"'), '"');
    if v.len() == 0 {
        "unknown"@
    } else {
        v
    }
}

pub fn version_text(raw: &str) -> (r: String)
    ensures
        r@ == version_of(raw@),
{
    let t = trim_v(&chars_of(raw));
    let a = crate::render::trim_start_char_v(&t, '"');
    let b = crate::render::trim_end_char_v(&a, '"');
    if b.len() == 0 {
        "unknown".to_string()
    } else {
        string_of(&b)
    }
}

/// The file of a `:show modules` line, `Name ( /path/File.hs, interpreted )`.
pub open spec fn loaded_file(line: Seq<char>) -> Option<Seq<char>> {
    let t = trim(line);
    match find(t, "( "@) {
        Some(st) => match find_char(t.skip(st), ',') {
            Some(e) => Some(trim(t.subrange(st + 2, st + e))),
            None => None,
        },
        None => None,
    }
}

pub open spec fn module_paths_from(ls: Seq<Seq<char>>, k: int) -> Seq<Seq<char>>
    decreases k,
{
    if k <= 0 {
        seq![]
    } else {
        match loaded_file(ls[k - 1]) {
            Some(p) => module_paths_from(ls, k - 1).push(p),
            None => module_paths_from(ls, k - 1),
        }
    }
}

/// The files of the loaded modules, from GHCi's `:show modules`.
pub fn module_paths(raw: &str) -> (r: Vec<String>)
    ensures
        string_views(r@) == module_paths_from(lines(raw@), lines(raw@).len() as int),
{
    let ls = lines_v(&chars_of(raw));
    let ghost lsv = views(ls@);
    let mut r: Vec<String> = Vec::new();
    let mut i: usize = 0;
    while i < ls.len()
        invariant
            i <= ls@.len(),
            lsv == views(ls@),
            string_views(r@) == module_paths_from(lsv, i as int),
        decreases ls.len() - i,
    {
        assert(lsv[i as int] == ls@[i as int]@);
        let t = trim_v(&ls[i]);
        match find_str(&t, "( ") {
            Some(st) => {
                proof {
                    reveal_strlit("( ");
                }
                match find_char_from(&t, ',', st) {
                    Some(e) => {
                        proof {
                            assert(t@.subrange(st as int, st + 2) == "( "@);
                            assert("( "@[0] == '(' && "( "@[1] == ' ');
                            assert(t@.subrange(st as int, st + 2)[0] == t@[st as int]);
                            assert(t@.subrange(st as int, st + 2)[1] == t@[st + 1]);
                        }
                        let p = trim_v(&slice(&t, st + 2, e));
                        let ghost before = string_views(r@);
                        r.push(string_of(&p));
                        assert(string_views(r@) =~= before.push(p@));
                    },
                    None => {},
                }
            },
            None => {},
        }
        i = i + 1;
    }
    r
}

// ---------------------------------------------------------------------------
// One evaluation
// ---------------------------------------------------------------------------

/// Where an evaluation stands: which answer it waits for.
#[derive(Debug, Clone, Copy, PartialEq, Eq)]
pub enum EvalPhase {
    /// The type of the expression.
    TypeAsked,
    /// The expression's own output.
    RunAsked,
    /// The type of the name that a `let` bound.
    NameTypeAsked,
}

/// An evaluation in progress.
#[derive(Debug)]
pub struct Evaluation {
    pub expr: String,
    pub phase: EvalPhase,
    pub type_str: Option<String>,
    pub value: String,
    pub diagnostics: Vec<Diagnostic>,
}

/// What an evaluation needs next. For `Query` and `Run`, send the command to
/// GHCi and hand its standard output and the error lines it wrote to
/// [`eval_step`] with the evaluation.
#[derive(Debug)]
pub enum EvalStep {
    /// A query whose answer is read (`:type ...`).
    Query(Evaluation, String),
    /// The expression itself, which may take input or run long.
    Run(Evaluation, String),
    Done(EvalResult),
}

/// Starts evaluating `expr`: its type is asked first, except for a `let`
/// binding, which runs at once.
pub fn eval_begin(expr: &str) -> (r: EvalStep)
    ensures
        is_binding(expr@) ==> (r matches EvalStep::Run(ev, cmd) && cmd@ == expr@ && ev.expr@
            == expr@ && ev.phase == EvalPhase::RunAsked && ev.type_str is None),
        !is_binding(expr@) ==> (r matches EvalStep::Query(ev, q) && q@ == ":type "@ + expr@
            && ev.expr@ == expr@ && ev.phase == EvalPhase::TypeAsked),
{
    let ev = Evaluation {
        expr: expr.to_string(),
        phase: EvalPhase::TypeAsked,
        type_str: None,
        value: String::new(),
        diagnostics: Vec::new(),
    };
    if is_let_binding(expr) {
        EvalStep::Run(Evaluation { phase: EvalPhase::RunAsked, ..ev }, expr.to_string())
    } else {
        EvalStep::Query(ev, type_query(expr))
    }
}

/// Takes GHCi's answer to the step asked for last. After the type comes the
/// run; after the run the answer is read as [`eval_output`] does, and a `let`
/// that bound a name without diagnostics asks that name's type; then the
/// result is done.
pub fn eval_step(ev: Evaluation, stdout: &str, stderr: &Vec<String>) -> (r: EvalStep)
    ensures
        ev.phase == EvalPhase::TypeAsked ==> (r matches EvalStep::Run(e2, cmd) && cmd@ == ev.expr@
            && e2.expr@ == ev.expr@ && e2.phase == EvalPhase::RunAsked && opt_view(e2.type_str)
            == type_of_answer(framed(stdout@))),
        ev.phase == EvalPhase::RunAsked ==> ({
            let (value, diags) = eval_answer(stdout@, string_views(stderr@));
            let bound = is_binding(ev.expr@) && diags.len() == 0;
            if bound && bound_name(ev.expr@) is Some {
                r matches EvalStep::Query(e2, q) && q@ == ":type "@ + bound_name(ev.expr@)->0
                    && e2.expr@ == ev.expr@ && e2.phase == EvalPhase::NameTypeAsked && e2.value@
                    == value && diag_views(e2.diagnostics@) == diags
            } else {
                r matches EvalStep::Done(res) && res.expr@ == ev.expr@ && res.value@ == value
                    && diag_views(res.diagnostics@) == diags && opt_view(res.type_str) == (if bound {
                    None
                } else {
                    opt_view(ev.type_str)
                })
            }
        }),
        ev.phase == EvalPhase::NameTypeAsked ==> (r matches EvalStep::Done(res) && res.expr@
            == ev.expr@ && res.value@ == ev.value@ && diag_views(res.diagnostics@) == diag_views(
            ev.diagnostics@,
        ) && opt_view(res.type_str) == type_of_answer(framed(stdout@))),
{
    match ev.phase {
        EvalPhase::TypeAsked => {
            let t = type_answer(stdout);
            let cmd = ev.expr.clone();
            EvalStep::Run(Evaluation { phase: EvalPhase::RunAsked, type_str: t, ..ev }, cmd)
        },
        EvalPhase::RunAsked => {
            let (value, diags) = eval_output(stdout, stderr);
            let bound = is_let_binding(ev.expr.as_str()) && diags.len() == 0;
            if bound {
                match let_bound_name(ev.expr.as_str()) {
                    Some(name) => {
                        let q = type_query(name.as_str());
                        return EvalStep::Query(
                            Evaluation {
                                phase: EvalPhase::NameTypeAsked,
                                value,
                                diagnostics: diags,
                                ..ev
                            },
                            q,
                        );
                    },
                    None => {},
                }
            }
            let type_str = if bound {
                None
            } else {
                ev.type_str
            };
            EvalStep::Done(EvalResult { expr: ev.expr, type_str, value, diagnostics: diags })
        },
        EvalPhase::NameTypeAsked => {
            let t = type_answer(stdout);
            EvalStep::Done(
                EvalResult {
                    expr: ev.expr,
                    type_str: t,
                    value: ev.value,
                    diagnostics: ev.diagnostics,
                },
            )
        },
    }
}

// ---------------------------------------------------------------------------
// Relaying a command that may run long or read input
// ---------------------------------------------------------------------------

/// How far a running command has come. Its output is first gathered quietly;
/// once a short quiet window has passed without the sentinel, the output is
/// shown as it comes and the lines typed at the terminal go to GHCi.
#[derive(Debug, Clone, Copy, PartialEq, Eq)]
pub enum RelayPhase {
    Quiet,
    Live,
}

/// A running command: its phase and the output gathered so far.
#[derive(Debug)]
pub struct Relay {
    pub phase: RelayPhase,
    pub output: String,
}

/// What happened while a command runs.
#[derive(Debug)]
pub enum RelayEvent {
    /// GHCi wrote a line, line ending included.
    Line(String),
    /// The quiet window ended with nothing left to read.
    QuietOver,
    /// The user typed a line at the terminal.
    Typed(String),
    /// GHCi's output ended.
    Closed,
}

/// What the program does next.
#[derive(Debug)]
pub enum RelayAction {
    /// Keep reading.
    Wait,
    /// Print this text to the terminal, then keep reading.
    Show(String),
    /// Write this text to GHCi's terminal, then keep reading.
    Send(String),
    /// The sentinel came and the command is over: `true` when its output was
    /// shown live.
    Finish(bool),
    /// GHCi is gone; the command fails with this error.
    Fail(Error),
}

/// A command that has just been sent: nothing gathered, nothing shown.
pub fn relay_begin() -> (r: Relay)
    ensures
        r.phase == RelayPhase::Quiet,
        r.output@ == Seq::<char>::empty(),
{
    Relay { phase: RelayPhase::Quiet, output: String::new() }
}

/// The message of the error for a GHCi that went away mid-command.
pub open spec fn exited_message() -> Seq<char> {
    "ghci process exited unexpectedly"@
}

/// The phase and output of a running command after one event.
pub open spec fn relay_after(st: (RelayPhase, Seq<char>), ev: RelayEvent) -> (RelayPhase, Seq<char>) {
    match ev {
        RelayEvent::Line(l) => if sentinel_line(l@) {
            st
        } else {
            (st.0, st.1 + l@)
        },
        RelayEvent::QuietOver => (RelayPhase::Live, st.1),
        _ => st,
    }
}

/// What one event prints on the terminal.
pub open spec fn relay_shown(st: (RelayPhase, Seq<char>), ev: RelayEvent) -> Seq<char> {
    match ev {
        RelayEvent::Line(l) => if !sentinel_line(l@) && st.0 == RelayPhase::Live {
            l@
        } else {
            seq![]
        },
        RelayEvent::QuietOver => if st.0 == RelayPhase::Quiet {
            st.1
        } else {
            seq![]
        },
        _ => seq![],
    }
}

/// The text an action prints on the terminal.
pub open spec fn action_shown(a: RelayAction) -> Seq<char> {
    match a {
        RelayAction::Show(s) => s@,
        _ => seq![],
    }
}

/// A run of events from a state: the state it ends in, and everything
/// printed on the way.
pub open spec fn relay_run(st: (RelayPhase, Seq<char>), evs: Seq<RelayEvent>) -> (
    (RelayPhase, Seq<char>),
    Seq<char>,
)
    decreases evs.len(),
{
    if evs.len() == 0 {
        (st, seq![])
    } else {
        let (mid, shown) = relay_run(st, evs.drop_last());
        (relay_after(mid, evs.last()), shown + relay_shown(mid, evs.last()))
    }
}

/// Whatever happens while a command runs, nothing is printed before its
/// output goes live, and from then on everything GHCi wrote has been printed
/// exactly once, in the order it came.
pub proof fn law_live_output_shown_once(evs: Seq<RelayEvent>)
    ensures
        ({
            let (st, shown) = relay_run((RelayPhase::Quiet, seq![]), evs);
            &&& st.0 == RelayPhase::Quiet ==> shown == Seq::<char>::empty()
            &&& st.0 == RelayPhase::Live ==> shown == st.1
        }),
    decreases evs.len(),
{
    if evs.len() > 0 {
        law_live_output_shown_once(evs.drop_last());
        let (mid, shown) = relay_run((RelayPhase::Quiet, seq![]), evs.drop_last());
        match evs.last() {
            RelayEvent::Line(l) => {
                assert(shown + seq![] =~= shown);
                if mid.0 == RelayPhase::Live && !sentinel_line(l@) {
                    assert(shown + l@ =~= mid.1 + l@);
                }
            },
            RelayEvent::QuietOver => {
                assert(shown + seq![] =~= shown);
                if mid.0 == RelayPhase::Quiet {
                    assert(shown + mid.1 =~= mid.1);
                }
            },
            _ => {
                assert(shown + seq![] =~= shown);
            },
        }
    }
}

/// One step of a running command. A line of GHCi's is gathered, and shown at
/// once in the live phase, until the sentinel line ends the command. When
/// the quiet window ends, what was gathered is shown and the live phase
/// begins. A line typed in the live phase goes to GHCi without its trailing
/// white space, ended by a newline; an empty read sends nothing. Before the
/// live phase the terminal is not read, and a typed line changes nothing.
pub fn relay_step(relay: Relay, ev: RelayEvent) -> (r: (Relay, RelayAction))
    ensures
        (r.0.phase, r.0.output@) == relay_after((relay.phase, relay.output@), ev),
        action_shown(r.1) == relay_shown((relay.phase, relay.output@), ev),
        match ev {
            RelayEvent::Line(l) => if sentinel_line(l@) {
                &&& r.0.phase == relay.phase
                &&& r.0.output@ == relay.output@
                &&& r.1 matches RelayAction::Finish(live) && live == (relay.phase == RelayPhase::Live)
            } else {
                r.0.phase == relay.phase && r.0.output@ == relay.output@ + l@
                    && (relay.phase == RelayPhase::Quiet ==> r.1 is Wait)
                    && (relay.phase == RelayPhase::Live ==> (r.1 matches RelayAction::Show(s) && s@ == l@))
            },
            RelayEvent::QuietOver => if relay.phase == RelayPhase::Quiet {
                &&& r.0.phase == RelayPhase::Live
                &&& r.0.output@ == relay.output@
                &&& r.1 matches RelayAction::Show(s) && s@ == relay.output@
            } else {
                r.0.phase == relay.phase && r.0.output@ == relay.output@ && r.1 is Wait
            },
            RelayEvent::Typed(u) => {
                &&& r.0.phase == relay.phase
                &&& r.0.output@ == relay.output@
                &&& if relay.phase == RelayPhase::Live && u@.len() > 0 {
                    r.1 matches RelayAction::Send(s) && s@ == crate::text::trim_end(u@) + "\n"@
                } else {
                    r.1 is Wait
                }
            },
            RelayEvent::Closed => {
                &&& r.0.phase == relay.phase
                &&& r.0.output@ == relay.output@
                &&& r.1 matches RelayAction::Fail(Error::Ghc(m)) && m@ == exited_message()
            },
        },
{
    let Relay { phase, mut output } = relay;
    match ev {
        RelayEvent::Line(l) => {
            if is_sentinel_line(l.as_str()) {
                let live = match phase {
                    RelayPhase::Quiet => false,
                    RelayPhase::Live => true,
                };
                (Relay { phase, output }, RelayAction::Finish(live))
            } else {
                output.append(l.as_str());
                match phase {
                    RelayPhase::Quiet => (Relay { phase, output }, RelayAction::Wait),
                    RelayPhase::Live => (Relay { phase, output }, RelayAction::Show(l)),
                }
            }
        },
        RelayEvent::QuietOver => match phase {
            RelayPhase::Quiet => {
                let shown = output.clone();
                (Relay { phase: RelayPhase::Live, output }, RelayAction::Show(shown))
            },
            RelayPhase::Live => (Relay { phase, output }, RelayAction::Wait),
        },
        RelayEvent::Typed(u) => {
            let v = chars_of(u.as_str());
            let live = match phase {
                RelayPhase::Quiet => false,
                RelayPhase::Live => true,
            };
            if live && v.len() > 0 {
                let mut s = string_of(&crate::text::trim_end_v(&v));
                s.append("\n");
                (Relay { phase, output }, RelayAction::Send(s))
            } else {
                (Relay { phase, output }, RelayAction::Wait)
            }
        },
        RelayEvent::Closed => (
            Relay { phase, output },
            RelayAction::Fail(Error::Ghc("ghci process exited unexpectedly".to_string())),
        ),
    }
}

// ---------------------------------------------------------------------------
// Reloading changed files
// ---------------------------------------------------------------------------

/// A file whose current modification time is later than its snapshot's.
pub open spec fn newer(stamp: (u128, Option<u128>)) -> bool {
    match stamp.1 {
        Some(t) => t > stamp.0,
        None => false,
    }
}

/// Whether some loaded file changed: for each file, the modification time
/// taken at the last snapshot and the one it has now (`None` when it cannot
/// be read, which counts as unchanged).
pub open spec fn any_changed(stamps: Seq<(u128, Option<u128>)>) -> bool {
    exists|i: int| 0 <= i < stamps.len() && newer(#[trigger] stamps[i])
}

/// Whether GHCi should reload: some loaded file is newer than its snapshot.
pub fn reload_needed(stamps: &Vec<(u128, Option<u128>)>) -> (r: bool)
    ensures
        r == any_changed(stamps@),
{
    let mut i: usize = 0;
    while i < stamps.len()
        invariant
            i <= stamps@.len(),
            forall|j: int| 0 <= j < i ==> !newer(#[trigger] stamps@[j]),
        decreases stamps.len() - i,
    {
        let (old, now) = stamps[i];
        match now {
            Some(t) => {
                if t > old {
                    assert(newer(stamps@[i as int]));
                    return true;
                }
            },
            None => {},
        }
        i = i + 1;
    }
    false
}

} // verus!
