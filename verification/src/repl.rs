//! The decisions of the interactive loop: how a line typed at the prompt is
//! cleaned up, which command it is, what `:config_<key>` and `:undo` do, and
//! the small texts around them. Reading lines, talking to GHCi and printing
//! are done by the program around the library.
use vstd::prelude::*;

use crate::config::{bool_text, is_bool_key, is_number_key, set_outcome, with_bool, Config};
use crate::ghc::{mode_label, LaunchMode};
use crate::pretty::{sat, width};
use crate::text::{
    chars_of, decimal, ends_with, eq_str, first_word, join, lines, lines_v, parse_usize,
    parse_usize_spec, slice, starts_with, starts_with_str, string_of, string_views, trim, trim_start,
    trim_start_v, trim_v, views, word_run, word_run_v,
};

verus! {

// ---------------------------------------------------------------------------
// Words
// ---------------------------------------------------------------------------

/// What follows the first whitespace-separated word of `s`.
pub open spec fn after_first_word(s: Seq<char>) -> Seq<char> {
    trim_start(s).skip(first_word(s).len() as int)
}

/// The second whitespace-separated word of `s`, or nothing.
pub open spec fn second_word(s: Seq<char>) -> Seq<char> {
    first_word(after_first_word(s))
}

/// The first word of `v` and what follows it.
fn split_first_word(v: &Vec<char>) -> (r: (Vec<char>, Vec<char>))
    ensures
        r.0@ == first_word(v@),
        r.1@ == after_first_word(v@),
{
    let t = trim_start_v(v);
    let w = word_run_v(&t);
    proof {
        crate::text::lemma_word_run_prefix(t@);
    }
    let n = t.len();
    let rest = slice(&t, w.len(), n);
    assert(rest@ =~= t@.skip(w@.len() as int));
    (w, rest)
}

// ---------------------------------------------------------------------------
// Settings keys
// ---------------------------------------------------------------------------

/// The two kinds of settings: switches and numbers.
#[derive(Debug, Clone, Copy, PartialEq, Eq)]
pub enum ConfigKind {
    Bool,
    Number,
}

pub open spec fn kind_of(key: Seq<char>) -> Option<ConfigKind> {
    if is_bool_key(key) {
        Some(ConfigKind::Bool)
    } else if is_number_key(key) {
        Some(ConfigKind::Number)
    } else {
        None
    }
}

/// The kind of a setting, by its name with underscores.
pub fn config_kind(key: &str) -> (r: Option<ConfigKind>)
    ensures
        r == kind_of(key@),
{
    let k = chars_of(key);
    if eq_str(&k, "pretty_errors") || eq_str(&k, "pretty_print") || eq_str(&k, "show_timing") {
        Some(ConfigKind::Bool)
    } else if eq_str(&k, "max_output_lines") || eq_str(&k, "max_output_chars") {
        Some(ConfigKind::Number)
    } else {
        None
    }
}

// ---------------------------------------------------------------------------
// `:set prompt`
// ---------------------------------------------------------------------------

/// `:set prompt`, `:set prompt-cont`, `:set prompt-function` and the like,
/// also written `:seti`.
pub open spec fn set_prompt(expr: Seq<char>) -> bool {
    let w1 = first_word(expr);
    let w2 = second_word(expr);
    (w1 == ":set"@ || w1 == ":seti"@) && (w2 == "prompt"@ || starts_with(w2, "prompt-"@))
}

/// Whether a command would change GHCi's prompt, which the program drives
/// and so refuses.
pub fn is_set_prompt(expr: &str) -> (r: bool)
    ensures
        r == set_prompt(expr@),
{
    let v = chars_of(expr);
    let (w1, rest) = split_first_word(&v);
    if !(eq_str(&w1, ":set") || eq_str(&w1, ":seti")) {
        return false;
    }
    let w2 = crate::text::first_word_v(&rest);
    eq_str(&w2, "prompt") || starts_with_str(&w2, "prompt-")
}

// ---------------------------------------------------------------------------
// Dedenting
// ---------------------------------------------------------------------------

pub open spec fn blank(l: Seq<char>) -> bool {
    trim(l).len() == 0
}

/// The first line at or after `i` that is not blank.
pub open spec fn first_nonblank(ls: Seq<Seq<char>>, i: int) -> Option<int>
    decreases ls.len() - i,
{
    if i < 0 || i >= ls.len() {
        None
    } else if !blank(ls[i]) {
        Some(i)
    } else {
        first_nonblank(ls, i + 1)
    }
}

/// The last line before `n` that is not blank.
pub open spec fn last_nonblank(ls: Seq<Seq<char>>, n: int) -> Option<int>
    decreases n,
{
    if n <= 0 || n > ls.len() {
        None
    } else if !blank(ls[n - 1]) {
        Some(n - 1)
    } else {
        last_nonblank(ls, n - 1)
    }
}

/// The width in UTF-8 bytes of a line's leading whitespace, or `usize::MAX`
/// if it is wider.
pub open spec fn indent(l: Seq<char>) -> int {
    sat(width(l.take(l.len() - trim_start(l).len())))
}

/// The smallest indent of the lines that are not blank.
pub open spec fn min_indent(ls: Seq<Seq<char>>) -> Option<int>
    decreases ls.len(),
{
    if ls.len() == 0 {
        None
    } else {
        let rest = min_indent(ls.drop_last());
        let l = ls.last();
        if blank(l) {
            rest
        } else {
            match rest {
                None => Some(indent(l)),
                Some(m) => Some(
                    if indent(l) < m {
                        indent(l)
                    } else {
                        m
                    },
                ),
            }
        }
    }
}

pub open spec fn scalar_width(c: char) -> int {
    vstd::utf8::encode_scalar(c as u32).len() as int
}

/// `l` without its first `m` bytes (`str::get(m..)`): nothing when `m` is
/// past the end or inside a character.
pub open spec fn skip_bytes(l: Seq<char>, m: int) -> Option<Seq<char>>
    decreases l.len(),
{
    if m == 0 {
        Some(l)
    } else if l.len() == 0 || m < 0 {
        None
    } else if scalar_width(l[0]) > m {
        None
    } else {
        skip_bytes(l.drop_first(), m - scalar_width(l[0]))
    }
}

/// A line with `m` bytes of indentation taken off; trimmed where that cannot
/// be done.
pub open spec fn dedent_line(l: Seq<char>, m: int) -> Seq<char> {
    match skip_bytes(l, m) {
        Some(r) => r,
        None => trim(l),
    }
}

pub open spec fn dedent_lines(ls: Seq<Seq<char>>, m: int) -> Seq<Seq<char>> {
    ls.map_values(|l: Seq<char>| dedent_line(l, m))
}

/// The lines of `input` from the first to the last that is not blank, with
/// their common indentation removed, joined with newlines.
pub open spec fn dedented(input: Seq<char>) -> Seq<char> {
    let ls = lines(input);
    let start = match first_nonblank(ls, 0) {
        Some(a) => a,
        None => 0,
    };
    let end = match last_nonblank(ls, ls.len() as int) {
        Some(b) => b + 1,
        None => 0,
    };
    if end <= start {
        seq![]
    } else {
        let body = ls.subrange(start, end);
        let m = match min_indent(body) {
            Some(m) => m,
            None => 0,
        };
        join(dedent_lines(body, m), seq!['\n'])
    }
}

fn is_blank(l: &Vec<char>) -> (r: bool)
    ensures
        r == blank(l@),
{
    trim_v(l).len() == 0
}

fn indent_v(l: &Vec<char>) -> (r: usize)
    ensures
        r == indent(l@),
{
    let t = trim_start_v(l);
    proof {
        crate::text::lemma_trim_start_suffix(l@);
    }
    let k = l.len() - t.len();
    let pre = slice(l, 0, k);
    assert(pre@ =~= l@.take(l@.len() - trim_start(l@).len()));
    crate::pretty::width_of(&pre)
}

fn skip_bytes_v(l: &Vec<char>, m: usize) -> (r: Option<Vec<char>>)
    ensures
        match r {
            Some(v) => skip_bytes(l@, m as int) == Some(v@),
            None => skip_bytes(l@, m as int) is None,
        },
{
    let n = l.len();
    let mut i: usize = 0;
    let mut rem: usize = m;
    assert(l@.skip(0) =~= l@);
    while rem > 0 && i < n && crate::pretty::char_width(l[i]) <= rem
        invariant
            i <= n,
            n == l@.len(),
            rem <= m,
            skip_bytes(l@, m as int) == skip_bytes(l@.skip(i as int), rem as int),
        decreases n - i,
    {
        let w = crate::pretty::char_width(l[i]);
        assert(l@.skip(i as int)[0] == l@[i as int]);
        assert(l@.skip(i as int).drop_first() =~= l@.skip(i + 1));
        rem = rem - w;
        i = i + 1;
    }
    if rem == 0 {
        let t = slice(l, i, n);
        assert(t@ =~= l@.skip(i as int));
        Some(t)
    } else {
        proof {
            if i < n {
                assert(l@.skip(i as int)[0] == l@[i as int]);
            }
        }
        None
    }
}

/// Takes off the common indentation of the lines of `input`, dropping blank
/// lines at the start and the end. Indentation is counted in bytes; a line
/// whose indentation cannot be cut at that width is trimmed instead.
pub fn dedent(input: &str) -> (r: String)
    ensures
        r@ == dedented(input@),
{
    let v = chars_of(input);
    let ls = lines_v(&v);
    let ghost lsv = views(ls@);
    let n = ls.len();
    let mut a: usize = 0;
    while a < n && is_blank(&ls[a])
        invariant
            a <= n,
            n == lsv.len(),
            lsv == views(ls@),
            first_nonblank(lsv, 0) == first_nonblank(lsv, a as int),
            forall|k: int| 0 <= k < a ==> blank(#[trigger] lsv[k]),
        decreases n - a,
    {
        a = a + 1;
    }
    let mut b: usize = n;
    while b > 0 && is_blank(&ls[b - 1])
        invariant
            b <= n,
            a <= n,
            n == lsv.len(),
            lsv == views(ls@),
            last_nonblank(lsv, n as int) == last_nonblank(lsv, b as int),
            a < n ==> !blank(lsv[a as int]) && a < b,
            forall|k: int| 0 <= k < a ==> blank(#[trigger] lsv[k]),
        decreases b,
    {
        b = b - 1;
    }
    if a >= b {
        assert(first_nonblank(lsv, a as int) is None);
        assert(last_nonblank(lsv, b as int) is None);
        let r = String::new();
        assert(r@ =~= dedented(input@));
        return r;
    }
    assert(first_nonblank(lsv, 0) == Some(a as int));
    assert(last_nonblank(lsv, n as int) == Some(b - 1));
    let ghost body = lsv.subrange(a as int, b as int);
    let mut m: Option<usize> = None;
    let mut j: usize = a;
    while j < b
        invariant
            a <= j <= b <= n,
            n == lsv.len(),
            lsv == views(ls@),
            body == lsv.subrange(a as int, b as int),
            match m {
                Some(x) => min_indent(body.take(j - a)) == Some(x as int),
                None => min_indent(body.take(j - a)) is None,
            },
        decreases b - j,
    {
        assert(body.take(j + 1 - a).drop_last() =~= body.take(j - a));
        assert(body.take(j + 1 - a).last() == lsv[j as int]);
        if !is_blank(&ls[j]) {
            let d = indent_v(&ls[j]);
            m = match m {
                Some(x) => Some(
                    if d < x {
                        d
                    } else {
                        x
                    },
                ),
                None => Some(d),
            };
        }
        j = j + 1;
    }
    assert(body.take(b - a) =~= body);
    let mm: usize = match m {
        Some(x) => x,
        None => 0,
    };
    let mut out: Vec<Vec<char>> = Vec::new();
    let mut j: usize = a;
    while j < b
        invariant
            a <= j <= b <= n,
            n == lsv.len(),
            lsv == views(ls@),
            body == lsv.subrange(a as int, b as int),
            views(out@) == dedent_lines(body.take(j - a), mm as int),
        decreases b - j,
    {
        let line = match skip_bytes_v(&ls[j], mm) {
            Some(t) => t,
            None => trim_v(&ls[j]),
        };
        let ghost before = views(out@);
        out.push(line);
        assert(views(out@) =~= dedent_lines(body.take(j + 1 - a), mm as int)) by {
            assert(views(out@) =~= before.push(dedent_line(lsv[j as int], mm as int)));
            assert(body.take(j + 1 - a) =~= body.take(j - a).push(lsv[j as int]));
        }
        j = j + 1;
    }
    let mut nl: Vec<char> = Vec::new();
    nl.push('\n');
    assert(nl@ =~= seq!['\n']);
    let joined = crate::text::join_v(&out, &nl);
    string_of(&joined)
}

// ---------------------------------------------------------------------------
// The typed line
// ---------------------------------------------------------------------------

/// The lines of a `:{` block without the lines that close it.
pub open spec fn without_close(ls: Seq<Seq<char>>) -> Seq<Seq<char>>
    decreases ls.len(),
{
    if ls.len() == 0 {
        seq![]
    } else {
        without_close(ls.drop_last()) + (if trim(ls.last()) == ":}"@ {
            seq![]
        } else {
            seq![ls.last()]
        })
    }
}

/// The command a typed line stands for: a `:{ ... :}` block is unwrapped,
/// the text is dedented and trimmed.
pub open spec fn prepared(raw: Seq<char>) -> Seq<char> {
    let inner = if starts_with(trim_start(raw), ":{"@) {
        let ls = lines(raw);
        let body = if ls.len() > 0 {
            without_close(ls.drop_first())
        } else {
            seq![]
        };
        dedented(join(body, seq!['\n']))
    } else {
        dedented(trim(raw))
    };
    trim(inner)
}

/// The command that a line from the editor stands for. A `:{ ... :}` block
/// loses its first line and its closing lines; the rest is dedented and
/// trimmed.
pub fn prepare_input(raw: &str) -> (r: String)
    ensures
        r@ == prepared(raw@),
{
    let v = chars_of(raw);
    let ts = trim_start_v(&v);
    let inner = if starts_with_str(&ts, ":{") {
        let ls = lines_v(&v);
        let ghost lsv = views(ls@);
        let mut body: Vec<Vec<char>> = Vec::new();
        let n = ls.len();
        let mut i: usize = 1;
        proof {
            if n > 0 {
                assert(lsv.drop_first().take(0) =~= Seq::<Seq<char>>::empty());
            }
        }
        while i < n
            invariant
                1 <= i,
                i <= n || n == 0,
                n == lsv.len(),
                lsv == views(ls@),
                n > 0 ==> views(body@) == without_close(lsv.drop_first().take(i - 1)),
                n == 0 ==> body@.len() == 0,
            decreases n - i,
        {
            let t = trim_v(&ls[i]);
            let ghost before = views(body@);
            assert(lsv.drop_first().take(i as int).drop_last() =~= lsv.drop_first().take(i - 1));
            assert(lsv.drop_first().take(i as int).last() == lsv[i as int]);
            if !eq_str(&t, ":}") {
                body.push(ls[i].clone());
                assert(views(body@) =~= before.push(lsv[i as int]));
            }
            i = i + 1;
        }
        proof {
            if n > 0 {
                assert(lsv.drop_first().take(n - 1) =~= lsv.drop_first());
            } else {
                assert(views(body@) =~= Seq::<Seq<char>>::empty());
            }
        }
        let mut nl: Vec<char> = Vec::new();
        nl.push('\n');
        assert(nl@ =~= seq!['\n']);
        let joined = string_of(&crate::text::join_v(&body, &nl));
        dedent(joined.as_str())
    } else {
        let t = string_of(&trim_v(&v));
        dedent(t.as_str())
    };
    let iv = chars_of(inner.as_str());
    string_of(&trim_v(&iv))
}

// ---------------------------------------------------------------------------
// Commands
// ---------------------------------------------------------------------------

/// What the interactive loop does with a prepared line.
#[derive(Debug, Clone, PartialEq, Eq)]
pub enum ReplCommand {
    /// Nothing was typed.
    Empty,
    /// `:/`, `/`, `:/pattern` or `/pattern`: list the bindings, filtered by
    /// the pattern.
    Bindings(Option<String>),
    /// `:q` or `:quit`.
    Quit,
    /// A `:set prompt`, which is refused.
    SetPrompt,
    /// `:config`: list the settings.
    ConfigList,
    /// `:config_<key> [value]`.
    ConfigKey,
    /// `:undo [n]`: forget the last `n` expressions.
    Undo(usize),
    /// `:scratch`: edit and load the scratch module.
    Scratch,
    /// `:edit` or `:e`: write an expression in the editor.
    Edit,
    /// `:doc name`.
    Doc(String),
    /// `:hoogle query`.
    Hoogle(String),
    /// `:!cmd`: a shell command run by GHCi.
    Shell,
    /// Any other GHCi command; `true` when it loads modules, after which the
    /// loaded modules are looked at again.
    Passthrough(bool),
    /// An expression or declaration to evaluate.
    Eval,
}

/// The command with its texts as character sequences.
pub enum CommandView {
    Empty,
    Bindings(Option<Seq<char>>),
    Quit,
    SetPrompt,
    ConfigList,
    ConfigKey,
    Undo(usize),
    Scratch,
    Edit,
    Doc(Seq<char>),
    Hoogle(Seq<char>),
    Shell,
    Passthrough(bool),
    Eval,
}

impl View for ReplCommand {
    type V = CommandView;

    open spec fn view(&self) -> CommandView {
        match self {
            ReplCommand::Empty => CommandView::Empty,
            ReplCommand::Bindings(p) => CommandView::Bindings(
                match p {
                    Some(s) => Some(s@),
                    None => None,
                },
            ),
            ReplCommand::Quit => CommandView::Quit,
            ReplCommand::SetPrompt => CommandView::SetPrompt,
            ReplCommand::ConfigList => CommandView::ConfigList,
            ReplCommand::ConfigKey => CommandView::ConfigKey,
            ReplCommand::Undo(n) => CommandView::Undo(*n),
            ReplCommand::Scratch => CommandView::Scratch,
            ReplCommand::Edit => CommandView::Edit,
            ReplCommand::Doc(s) => CommandView::Doc(s@),
            ReplCommand::Hoogle(s) => CommandView::Hoogle(s@),
            ReplCommand::Shell => CommandView::Shell,
            ReplCommand::Passthrough(b) => CommandView::Passthrough(*b),
            ReplCommand::Eval => CommandView::Eval,
        }
    }
}

/// How many expressions `:undo` forgets: the number after it, or 1.
pub open spec fn undo_count(e: Seq<char>) -> usize {
    match parse_usize_spec(trim(e.skip(5))) {
        Some(n) => n,
        None => 1,
    }
}

/// The command of a prepared line.
pub open spec fn command_of(e: Seq<char>) -> CommandView {
    if e.len() == 0 {
        CommandView::Empty
    } else if e == "/"@ || (starts_with(e, "/"@) && !starts_with(e, "/="@)) {
        CommandView::Bindings(
            if e.len() > 1 {
                Some(e.skip(1))
            } else {
                None
            },
        )
    } else if starts_with(e, ":/"@) {
        CommandView::Bindings(
            if e.len() > 2 {
                Some(e.skip(2))
            } else {
                None
            },
        )
    } else if starts_with(e, ":"@) {
        if e == ":q"@ || e == ":quit"@ {
            CommandView::Quit
        } else if set_prompt(e) {
            CommandView::SetPrompt
        } else if e == ":config"@ {
            CommandView::ConfigList
        } else if starts_with(e, ":config_"@) {
            CommandView::ConfigKey
        } else if e == ":undo"@ || starts_with(e, ":undo "@) {
            CommandView::Undo(undo_count(e))
        } else if e == ":scratch"@ {
            CommandView::Scratch
        } else if e == ":edit"@ || e == ":e"@ {
            CommandView::Edit
        } else if starts_with(e, ":doc "@) {
            CommandView::Doc(trim(e.skip(5)))
        } else if starts_with(e, ":hoogle "@) {
            CommandView::Hoogle(trim(e.skip(8)))
        } else if starts_with(e, ":!"@) {
            CommandView::Shell
        } else {
            CommandView::Passthrough(
                starts_with(e, ":l"@) || starts_with(e, ":r"@) || starts_with(e, ":add"@),
            )
        }
    } else {
        CommandView::Eval
    }
}

fn tail_trimmed(e: &Vec<char>, k: usize) -> (r: Vec<char>)
    requires
        k <= e@.len(),
    ensures
        r@ == trim(e@.skip(k as int)),
{
    let n = e.len();
    let t = slice(e, k, n);
    assert(t@ =~= e@.skip(k as int));
    trim_v(&t)
}

/// Which command a prepared line (see [`prepare_input`]) is.
pub fn classify(expr: &str) -> (r: ReplCommand)
    ensures
        r@ == command_of(expr@),
{
    let e = chars_of(expr);
    let n = e.len();
    if n == 0 {
        return ReplCommand::Empty;
    }
    proof {
        reveal_strlit("/");
        reveal_strlit(":/");
        reveal_strlit(":undo");
        reveal_strlit(":undo ");
        reveal_strlit(":doc ");
        reveal_strlit(":hoogle ");
    }
    if eq_str(&e, "/") || (starts_with_str(&e, "/") && !starts_with_str(&e, "/=")) {
        if n > 1 {
            let t = slice(&e, 1, n);
            assert(t@ =~= e@.skip(1));
            return ReplCommand::Bindings(Some(string_of(&t)));
        }
        return ReplCommand::Bindings(None);
    }
    if starts_with_str(&e, ":/") {
        if n > 2 {
            let t = slice(&e, 2, n);
            assert(t@ =~= e@.skip(2));
            return ReplCommand::Bindings(Some(string_of(&t)));
        }
        return ReplCommand::Bindings(None);
    }
    if !starts_with_str(&e, ":") {
        return ReplCommand::Eval;
    }
    if eq_str(&e, ":q") || eq_str(&e, ":quit") {
        ReplCommand::Quit
    } else if is_set_prompt(expr) {
        ReplCommand::SetPrompt
    } else if eq_str(&e, ":config") {
        ReplCommand::ConfigList
    } else if starts_with_str(&e, ":config_") {
        ReplCommand::ConfigKey
    } else if eq_str(&e, ":undo") || starts_with_str(&e, ":undo ") {
        let t = tail_trimmed(&e, 5);
        let count = match parse_usize(&t) {
            Some(c) => c,
            None => 1,
        };
        ReplCommand::Undo(count)
    } else if eq_str(&e, ":scratch") {
        ReplCommand::Scratch
    } else if eq_str(&e, ":edit") || eq_str(&e, ":e") {
        ReplCommand::Edit
    } else if starts_with_str(&e, ":doc ") {
        ReplCommand::Doc(string_of(&tail_trimmed(&e, 5)))
    } else if starts_with_str(&e, ":hoogle ") {
        ReplCommand::Hoogle(string_of(&tail_trimmed(&e, 8)))
    } else if starts_with_str(&e, ":!") {
        ReplCommand::Shell
    } else {
        ReplCommand::Passthrough(
            starts_with_str(&e, ":l") || starts_with_str(&e, ":r") || starts_with_str(&e, ":add"),
        )
    }
}

// ---------------------------------------------------------------------------
// `:config_<key> [value]`
// ---------------------------------------------------------------------------

/// What a `:config_<key>` command answers.
#[derive(Debug, Clone, PartialEq, Eq)]
pub enum ConfigReply {
    /// `:config_` with no key.
    MissingKey,
    /// No setting has this name.
    UnknownKey(String),
    /// The value was refused, with the reason.
    Rejected(String),
    /// A number setting asked without a value: its current value.
    Shown { command: String, key: String, value: String },
    /// The setting now has this value.
    Changed { command: String, key: String, value: String },
}

/// The value of a switch.
pub open spec fn switch_value(c: Config, key: Seq<char>) -> bool {
    if key == "pretty_errors"@ {
        c.pretty_errors
    } else if key == "pretty_print"@ {
        c.pretty_print
    } else {
        c.show_timing
    }
}

/// The settings with a switch flipped.
pub open spec fn toggled(c: Config, key: Seq<char>) -> Config {
    with_bool(c, key, !switch_value(c, key))
}

/// Flipping a switch twice leaves every setting as it was.
pub proof fn law_toggle_twice(c: Config, key: Seq<char>)
    requires
        is_bool_key(key),
    ensures
        toggled(toggled(c, key), key) == c,
        switch_value(toggled(c, key), key) == !switch_value(c, key),
{
    reveal_strlit("pretty_errors");
    reveal_strlit("pretty_print");
    reveal_strlit("show_timing");
    assert("pretty_errors"@.len() == 13);
    assert("pretty_print"@.len() == 12);
    assert("show_timing"@.len() == 11);
}

/// The value of a number setting, as text.
pub open spec fn number_text(c: Config, key: Seq<char>) -> Seq<char> {
    if key == "max_output_lines"@ {
        decimal(c.max_output_lines as nat)
    } else {
        decimal(c.max_output_chars as nat)
    }
}

/// The key of a `:config_<key>` command: what follows `:config_` in its
/// first word.
pub open spec fn config_key(expr: Seq<char>) -> Seq<char> {
    first_word(expr).skip(8)
}

/// Carries out `:config_<key> [value]` on the session's settings. A switch
/// given no value is flipped; any setting given a value is set as
/// [`Config::set`] does; a number given no value is shown.
pub fn config_command(expr: &str, config: &mut Config) -> (r: ConfigReply)
    ensures
        ({
            let cmd = first_word(expr@);
            let arg = second_word(expr@);
            let key = config_key(expr@);
            if !starts_with(cmd, ":config_"@) || cmd.len() == 8 {
                r == ConfigReply::MissingKey && *final(config) == *old(config)
            } else {
                match kind_of(key) {
                    None => *final(config) == *old(config) && (r matches ConfigReply::UnknownKey(
                        k,
                    ) && k@ == key),
                    Some(kind) => if arg.len() > 0 {
                        match set_outcome(*old(config), key, arg) {
                            (c2, Ok(())) => *final(config) == c2 && (r matches ConfigReply::Changed {
                                command,
                                key: k,
                                value,
                            } && command@ == cmd && k@ == key && value@ == arg),
                            (c2, Err(m)) => *final(config) == c2 && (r matches ConfigReply::Rejected(
                                e,
                            ) && e@ == m),
                        }
                    } else if kind == ConfigKind::Bool {
                        *final(config) == toggled(*old(config), key)
                            && (r matches ConfigReply::Changed { command, key: k, value }
                            && command@ == cmd && k@ == key && value@ == bool_text(
                            !switch_value(*old(config), key),
                        ))
                    } else {
                        *final(config) == *old(config) && (r matches ConfigReply::Shown {
                            command,
                            key: k,
                            value,
                        } && command@ == cmd && k@ == key && value@ == number_text(*old(config), key))
                    },
                }
            }
        }),
{
    let v = chars_of(expr);
    let (cmd, rest) = split_first_word(&v);
    let arg = crate::text::first_word_v(&rest);
    proof {
        reveal_strlit(":config_");
    }
    if !starts_with_str(&cmd, ":config_") || cmd.len() == 8 {
        return ConfigReply::MissingKey;
    }
    let cn = cmd.len();
    let key = slice(&cmd, 8, cn);
    assert(key@ =~= cmd@.skip(8));
    let key_s = string_of(&key);
    let kind = config_kind(key_s.as_str());
    match kind {
        None => ConfigReply::UnknownKey(key_s),
        Some(kd) => {
            if arg.len() > 0 {
                let arg_s = string_of(&arg);
                match config.set(key_s.as_str(), arg_s.as_str()) {
                    Ok(()) => ConfigReply::Changed {
                        command: string_of(&cmd),
                        key: key_s,
                        value: arg_s,
                    },
                    Err(e) => ConfigReply::Rejected(e),
                }
            } else {
                match kd {
                    ConfigKind::Bool => {
                        let b = if eq_str(&key, "pretty_errors") {
                            config.pretty_errors = !config.pretty_errors;
                            config.pretty_errors
                        } else if eq_str(&key, "pretty_print") {
                            config.pretty_print = !config.pretty_print;
                            config.pretty_print
                        } else {
                            config.show_timing = !config.show_timing;
                            config.show_timing
                        };
                        let value = if b {
                            "true".to_string()
                        } else {
                            "false".to_string()
                        };
                        ConfigReply::Changed { command: string_of(&cmd), key: key_s, value }
                    },
                    ConfigKind::Number => {
                        let n = if eq_str(&key, "max_output_lines") {
                            config.max_output_lines
                        } else {
                            config.max_output_chars
                        };
                        ConfigReply::Shown {
                            command: string_of(&cmd),
                            key: key_s,
                            value: string_of(&crate::text::decimal_v(n)),
                        }
                    },
                }
            }
        },
    }
}

// ---------------------------------------------------------------------------
// `:undo`, shell output, the banner
// ---------------------------------------------------------------------------

/// How many of `len` expressions stay when the last `n` are undone.
pub open spec fn kept_count(len: int, n: int) -> int {
    if n >= len {
        0
    } else {
        len - n
    }
}

/// The expressions that stay when the last `n` are undone; they are replayed
/// in order and become the session.
pub fn undo_keep(exprs: &Vec<String>, n: usize) -> (r: Vec<String>)
    ensures
        string_views(r@) == string_views(exprs@).take(kept_count(exprs@.len() as int, n as int)),
{
    let keep = exprs.len().saturating_sub(n);
    let mut r: Vec<String> = Vec::new();
    let mut i: usize = 0;
    while i < keep
        invariant
            i <= keep,
            keep == kept_count(exprs@.len() as int, n as int),
            keep <= exprs@.len(),
            string_views(r@) == string_views(exprs@).take(i as int),
        decreases keep - i,
    {
        let s = exprs[i].clone();
        let ghost before = string_views(r@);
        r.push(s);
        assert(string_views(r@) =~= before.push(exprs@[i as int]@));
        assert(string_views(exprs@).take(i + 1) =~= string_views(exprs@).take(i as int).push(
            exprs@[i as int]@,
        ));
        i = i + 1;
    }
    r
}

/// What a shell command printed, for JSON output: its standard output, then
/// its error lines, on a line of their own.
pub open spec fn shell_text(stdout: Seq<char>, stderr: Seq<Seq<char>>) -> Seq<char> {
    if stderr.len() == 0 {
        stdout
    } else {
        stdout + (if stdout.len() > 0 && !ends_with(stdout, "\n"@) {
            seq!['\n']
        } else {
            seq![]
        }) + join(stderr, seq!['\n'])
    }
}

/// The output of a shell command run through GHCi, as one text.
pub fn shell_output(stdout: &str, stderr: &Vec<String>) -> (r: String)
    ensures
        r@ == shell_text(stdout@, string_views(stderr@)),
{
    let mut out = chars_of(stdout);
    if stderr.len() == 0 {
        return string_of(&out);
    }
    if out.len() > 0 && !crate::text::ends_with_str(&out, "\n") {
        out.push('\n');
    }
    let mut ls: Vec<Vec<char>> = Vec::new();
    let mut i: usize = 0;
    while i < stderr.len()
        invariant
            i <= stderr@.len(),
            views(ls@) == string_views(stderr@).take(i as int),
        decreases stderr.len() - i,
    {
        let ghost before = views(ls@);
        ls.push(chars_of(stderr[i].as_str()));
        assert(views(ls@) =~= before.push(stderr@[i as int]@));
        assert(string_views(stderr@).take(i + 1) =~= string_views(stderr@).take(i as int).push(
            stderr@[i as int]@,
        ));
        i = i + 1;
    }
    assert(string_views(stderr@).take(stderr@.len() as int) =~= string_views(stderr@));
    let mut nl: Vec<char> = Vec::new();
    nl.push('\n');
    assert(nl@ =~= seq!['\n']);
    let j = crate::text::join_v(&ls, &nl);
    crate::text::extend(&mut out, &j);
    string_of(&out)
}

/// The part of the start-up banner after the program's name and version.
pub fn banner_suffix(version: &str, mode: LaunchMode) -> (r: String)
    ensures
        r@ == (match mode {
            LaunchMode::Plain => "(GHC "@ + version@ + ")"@,
            _ => "(GHC "@ + version@ + ", via "@ + mode_label(mode) + ")"@,
        }),
{
    let mut r = String::new();
    r.append("(GHC ");
    r.append(version);
    match mode {
        LaunchMode::Plain => {},
        _ => {
            r.append(", via ");
            r.append(mode.label());
        },
    }
    r.append(")");
    r
}

} // verus!
