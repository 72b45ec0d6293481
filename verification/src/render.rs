//! Turning GHCi's answers into colored terminal text.
use vstd::prelude::*;
use nu_ansi_term::Style;

use crate::config::{Config, replace_char, replace_char_v};
use crate::highlight::{highlight_input, highlight_spec};
use crate::parse::{
    Diagnostic, DiagnosticView, DiagLocation, EvalResult, bound_name, is_binding, let_bound_name,
    is_let_binding, opt_view, first_line,
};
use crate::pretty::{parse_ok, pretty, pretty_t};
use crate::style::{
    reset_code, sgr, sgr_prefix, bold_style, dim_style, err_style, hint_style, ok_style, painted, plain, severity_style,
    type_sig_style,
};
use crate::text::{
    chars_of, contains, contains_str, decimal, decimal_v, ends_with, ends_with_str, eq_str, find,
    find_char, find_char_from, find_str, find_v, is_ws, is_ws_exec, lines, lines_v, slice,
    starts_with, starts_with_str, string_of, trim, trim_end, trim_end_v, trim_start, trim_start_v,
    trim_v, views, concat, rfind_char,
};

verus! {

// ---------------------------------------------------------------------------
// Painting
// ---------------------------------------------------------------------------

/// Appends `text` painted in `style`.
fn paint_into(out: &mut String, style: Style, text: &str)
    ensures
        final(out)@ == old(out)@ + painted(style, text@),
        prefix_known(style),
{
    let p = crate::style::paint(style, text);
    proof {
        if style != plain() {
            assert(p@.take(crate::style::ansi_prefix(style).len() as int) =~= crate::style::ansi_prefix(
                style,
            ));
        }
    }
    out.append(p.as_str());
}

/// Text that strips to `t` followed by anything strips to `t`, then the rest
/// stripped.
pub open spec fn strips_to(x: Seq<char>, t: Seq<char>) -> bool {
    forall|y: Seq<char>| #[trigger] stripped(x + y) == t + stripped(y)
}

proof fn lemma_painted_strips(st: Style, line: Seq<char>)
    requires
        prefix_known(st),
        !line.contains('\x1b'),
    ensures
        strips_to(painted(st, line), line),
{
    assert forall|y: Seq<char>| #[trigger] stripped(painted(st, line) + y) == line + stripped(y) by {
        lemma_strip_painted_then(st, line, y);
    }
}

proof fn lemma_strips_line(out: Seq<char>, t: Seq<char>, x: Seq<char>, line: Seq<char>)
    requires
        strips_to(out, t),
        strips_to(x, line),
    ensures
        strips_to(out + x + "\n"@, t + line + "\n"@),
{
    reveal_strlit("\n");
    assert forall|y: Seq<char>| #[trigger] stripped(out + x + "\n"@ + y) == t + line + "\n"@
        + stripped(y) by {
        let nl = "\n"@;
        assert(!nl.contains('\x1b')) by {
            assert(nl =~= seq!['\n']);
        }
        assert(out + x + nl + y =~= out + (x + (nl + y)));
        assert(stripped(out + (x + (nl + y))) == t + stripped(x + (nl + y)));
        assert(stripped(x + (nl + y)) == line + stripped(nl + y));
        lemma_strip_clean(nl, y, 0);
        assert(nl.skip(0) =~= nl);
        assert(t + (line + (nl + stripped(y))) =~= t + line + nl + stripped(y));
    }
}

fn paint_chars_into(out: &mut String, style: Style, text: &Vec<char>)
    ensures
        final(out)@ == old(out)@ + painted(style, text@),
{
    let s = string_of(text);
    paint_into(out, style, s.as_str());
}

fn is_empty_string(s: &String) -> (r: bool)
    ensures
        r == (s@.len() == 0),
{
    chars_of(s.as_str()).len() == 0
}

fn push_str_into(out: &mut String, text: &Vec<char>)
    ensures
        final(out)@ == old(out)@ + text@,
{
    let s = string_of(text);
    out.append(s.as_str());
}

// ---------------------------------------------------------------------------
// Timing, types and truncation
// ---------------------------------------------------------------------------

/// The timing note after a result: two spaces and the label, dimmed, when
/// timing is on and a label was measured.
pub open spec fn timing_suffix(c: Config, timing: Option<Seq<char>>) -> Seq<char> {
    if !c.show_timing {
        seq![]
    } else {
        match timing {
            Some(l) => "  "@ + painted(dim_style(), l),
            None => seq![],
        }
    }
}

pub open spec fn opt_str_view(o: Option<&str>) -> Option<Seq<char>> {
    match o {
        Some(s) => Some(s@),
        None => None,
    }
}

fn timing_into(out: &mut String, config: &Config, timing: Option<&str>)
    ensures
        final(out)@ == old(out)@ + timing_suffix(*config, opt_str_view(timing)),
{
    if config.show_timing {
        match timing {
            Some(l) => {
                out.append("  ");
                paint_into(out, crate::style::dim(), l);
            },
            None => {},
        }
    }
}

/// A value whose type is `IO ...`, or whose type is not known, is output
/// and is shown as it is.
pub open spec fn is_io(ty: Option<Seq<char>>) -> bool {
    match ty {
        Some(t) => starts_with(t, "IO "@) || t == "IO ()"@,
        None => true,
    }
}

/// Where a value longer than `max` characters is cut: after its last `,`
/// or space within the first `max` characters, else at `max`. Gives the
/// head and the number of characters left out; `max == 0` never cuts.
pub open spec fn char_cut(v: Seq<char>, max: nat) -> Option<(Seq<char>, nat)> {
    if max == 0 || v.len() <= max {
        None
    } else {
        let cut = match last_break(v.take(max as int)) {
            Some(i) => i,
            None => max as int,
        };
        Some((v.take(cut), (v.len() - cut) as nat))
    }
}

/// Index of the last `,` or space.
pub open spec fn last_break(s: Seq<char>) -> Option<int>
    decreases s.len(),
{
    if s.len() == 0 {
        None
    } else if s.last() == ',' || s.last() == ' ' {
        Some(s.len() - 1)
    } else {
        last_break(s.drop_last())
    }
}

proof fn lemma_last_break_range(s: Seq<char>)
    ensures
        last_break(s) matches Some(i) ==> 0 <= i < s.len(),
    decreases s.len(),
{
    if s.len() > 0 && !(s.last() == ',' || s.last() == ' ') {
        lemma_last_break_range(s.drop_last());
    }
}

/// A value cut for length keeps a beginning of at most `max` characters
/// and counts exactly the characters left out.
pub proof fn law_char_cut_keeps_prefix(v: Seq<char>, max: nat)
    ensures
        char_cut(v, max) matches Some((head, rem)) ==> head.len() <= max && head == v.take(
            head.len() as int,
        ) && rem == v.len() - head.len(),
        max == 0 || v.len() <= max ==> char_cut(v, max) is None,
{
    lemma_last_break_range(v.take(max as int));
}

/// A limit of 0 means no limit, and a value within both limits is shown
/// whole: highlighted as a value, unchanged as output.
pub proof fn law_within_limits_shown_whole(v: Seq<char>, max_lines: nat, max_chars: nat)
    requires
        max_chars == 0 || v.len() <= max_chars,
        max_lines == 0 || lines(v).len() <= max_lines,
    ensures
        value_truncated(v, max_lines, max_chars) == highlight_spec(v),
        plain_truncated(v, max_lines, max_chars) == v,
{
}

/// `... (N more lines)`, dimmed.
pub open spec fn tail_note(n: nat, unit: Seq<char>) -> Seq<char> {
    painted(dim_style(), "... ("@ + decimal(n) + " more "@ + unit + ")"@)
}

/// Each of the first `k` lines highlighted and ended by a newline.
pub open spec fn highlighted_lines(ls: Seq<Seq<char>>, k: int) -> Seq<char>
    decreases k,
{
    if k <= 0 {
        seq![]
    } else {
        highlighted_lines(ls, k - 1) + highlight_spec(ls[k - 1]) + "\n"@
    }
}

/// Each of the first `k` lines ended by a newline.
pub open spec fn plain_lines(ls: Seq<Seq<char>>, k: int) -> Seq<char>
    decreases k,
{
    if k <= 0 {
        seq![]
    } else {
        plain_lines(ls, k - 1) + ls[k - 1] + "\n"@
    }
}

/// A value, highlighted, cut to `max_chars` characters or `max_lines`
/// lines (0 for no limit), with a note of what was left out.
pub open spec fn value_truncated(v: Seq<char>, max_lines: nat, max_chars: nat) -> Seq<char> {
    match char_cut(v, max_chars) {
        Some((head, rem)) => highlight_spec(head) + "\n"@ + tail_note(rem, "chars"@),
        None => {
            let ls = lines(v);
            if max_lines == 0 || ls.len() <= max_lines {
                highlight_spec(v)
            } else {
                highlighted_lines(ls, max_lines as int) + tail_note(
                    (ls.len() - max_lines) as nat,
                    "lines"@,
                )
            }
        },
    }
}

/// Output text, cut like a value but not highlighted.
pub open spec fn plain_truncated(v: Seq<char>, max_lines: nat, max_chars: nat) -> Seq<char> {
    match char_cut(v, max_chars) {
        Some((head, rem)) => head + "\n"@ + tail_note(rem, "chars"@),
        None => {
            let ls = lines(v);
            if max_lines == 0 || ls.len() <= max_lines {
                v
            } else {
                plain_lines(ls, max_lines as int) + tail_note(
                    (ls.len() - max_lines) as nat,
                    "lines"@,
                )
            }
        },
    }
}

/// `:: type` after a value, dimmed; on its own line after a value of
/// several lines.
pub open spec fn type_tail(value: Seq<char>, ty: Seq<char>) -> Seq<char> {
    painted(
        dim_style(),
        (if find_char(value, '\n') is Some {
            "\n  "@
        } else {
            "  "@
        }) + ":: "@ + ty,
    )
}

/// The value as it is shown: pretty-printed unless it is output or pretty
/// printing is off.
pub open spec fn shown_value(r: (Seq<char>, Option<Seq<char>>), c: Config) -> Seq<char> {
    if !is_io(r.1) && c.pretty_print {
        pretty_t(r.0)
    } else {
        r.0
    }
}

/// A value with its type and timing.
pub open spec fn value_block(
    value: Seq<char>,
    ty: Option<Seq<char>>,
    c: Config,
    timing: Option<Seq<char>>,
) -> Seq<char> {
    let v = shown_value((value, ty), c);
    let body = if is_io(ty) {
        plain_truncated(v, c.max_output_lines as nat, c.max_output_chars as nat)
    } else {
        value_truncated(v, c.max_output_lines as nat, c.max_output_chars as nat)
    };
    body + (match ty {
        Some(t) => type_tail(v, t),
        None => seq![],
    }) + timing_suffix(c, timing) + "\n"@
}

fn last_break_v(v: &Vec<char>, n: usize) -> (r: Option<usize>)
    requires
        n <= v@.len(),
    ensures
        match r {
            Some(i) => last_break(v@.take(n as int)) == Some(i as int) && i < n,
            None => last_break(v@.take(n as int)) is None,
        },
{
    let mut i: usize = n;
    while i > 0
        invariant
            i <= n,
            n <= v@.len(),
            last_break(v@.take(n as int)) == last_break(v@.take(i as int)),
        decreases i,
    {
        assert(v@.take(i as int).drop_last() =~= v@.take(i - 1));
        assert(v@.take(i as int).last() == v@[i - 1]);
        if v[i - 1] == ',' || v[i - 1] == ' ' {
            return Some(i - 1);
        }
        i = i - 1;
    }
    None
}

fn char_cut_v(v: &Vec<char>, max: usize) -> (r: Option<(Vec<char>, usize)>)
    ensures
        match r {
            Some((h, n)) => char_cut(v@, max as nat) == Some((h@, n as nat)),
            None => char_cut(v@, max as nat) is None,
        },
{
    let len = v.len();
    if max == 0 || len <= max {
        return None;
    }
    let cut = match last_break_v(v, max) {
        Some(i) => i,
        None => max,
    };
    let head = slice(v, 0, cut);
    Some((head, len - cut))
}

fn tail_note_into(out: &mut String, n: usize, unit: &str)
    ensures
        final(out)@ == old(out)@ + tail_note(n as nat, unit@),
{
    let mut t = String::new();
    t.append("... (");
    push_str_into(&mut t, &decimal_v(n));
    t.append(" more ");
    t.append(unit);
    t.append(")");
    paint_into(out, crate::style::dim(), t.as_str());
}

fn render_value_truncated(v: &Vec<char>, max_lines: usize, max_chars: usize) -> (r: String)
    ensures
        r@ == value_truncated(v@, max_lines as nat, max_chars as nat),
{
    let mut out = String::new();
    match char_cut_v(v, max_chars) {
        Some((head, rem)) => {
            let hs = string_of(&head);
            out.append(highlight_input(hs.as_str()).as_str());
            out.append("\n");
            tail_note_into(&mut out, rem, "chars");
            return out;
        },
        None => {},
    }
    let ls = lines_v(v);
    let ghost lsv = views(ls@);
    if max_lines == 0 || ls.len() <= max_lines {
        let vs = string_of(v);
        return highlight_input(vs.as_str());
    }
    let mut i: usize = 0;
    while i < max_lines
        invariant
            i <= max_lines,
            max_lines < ls@.len(),
            lsv == views(ls@),
            out@ == highlighted_lines(lsv, i as int),
        decreases max_lines - i,
    {
        let l = string_of(&ls[i]);
        out.append(highlight_input(l.as_str()).as_str());
        out.append("\n");
        i = i + 1;
    }
    tail_note_into(&mut out, ls.len() - max_lines, "lines");
    out
}

fn render_plain_truncated(v: &Vec<char>, max_lines: usize, max_chars: usize) -> (r: String)
    ensures
        r@ == plain_truncated(v@, max_lines as nat, max_chars as nat),
{
    let mut out = String::new();
    match char_cut_v(v, max_chars) {
        Some((head, rem)) => {
            push_str_into(&mut out, &head);
            out.append("\n");
            tail_note_into(&mut out, rem, "chars");
            return out;
        },
        None => {},
    }
    let ls = lines_v(v);
    let ghost lsv = views(ls@);
    if max_lines == 0 || ls.len() <= max_lines {
        return string_of(v);
    }
    let mut i: usize = 0;
    while i < max_lines
        invariant
            i <= max_lines,
            max_lines < ls@.len(),
            lsv == views(ls@),
            out@ == plain_lines(lsv, i as int),
        decreases max_lines - i,
    {
        push_str_into(&mut out, &ls[i]);
        out.append("\n");
        i = i + 1;
    }
    tail_note_into(&mut out, ls.len() - max_lines, "lines");
    out
}

fn is_io_v(ty: &Option<String>) -> (r: bool)
    ensures
        r == is_io(opt_view(*ty)),
{
    match ty {
        Some(t) => {
            let v = chars_of(t.as_str());
            starts_with_str(&v, "IO ") || eq_str(&v, "IO ()")
        },
        None => true,
    }
}

fn type_tail_into(out: &mut String, value: &Vec<char>, ty: &str)
    ensures
        final(out)@ == old(out)@ + type_tail(value@, ty@),
{
    let mut t = String::new();
    let multi = match find_char_from(value, '\n', 0) {
        Some(_) => true,
        None => false,
    };
    assert(value@.skip(0) =~= value@);
    if multi {
        t.append("\n  ");
    } else {
        t.append("  ");
    }
    t.append(":: ");
    t.append(ty);
    paint_into(out, crate::style::dim(), t.as_str());
}

/// Whether `render` can show the value: a value that is pretty-printed must
/// not close a bracket that it never opened.
pub open spec fn renderable(r: EvalResult, c: Config) -> bool {
    r.diagnostics@.len() == 0 && r.value@.len() > 0 && !is_io(opt_view(r.type_str))
        && c.pretty_print ==> parse_ok(r.value@)
}

/// Whether [`render`] can show a result: only a pretty-printed value that
/// closes a bracket it never opened cannot be shown.
pub fn can_render(result: &EvalResult, config: &Config) -> (r: bool)
    ensures
        r == renderable(*result, *config),
{
    if result.diagnostics.len() == 0 && !is_empty_string(&result.value) && !is_io_v(&result.type_str)
        && config.pretty_print {
        crate::pretty::well_bracketed(result.value.as_str())
    } else {
        true
    }
}

fn render_value_block(result: &EvalResult, config: &Config, timing: Option<&str>) -> (r: String)
    requires
        !is_io(opt_view(result.type_str)) && config.pretty_print ==> parse_ok(result.value@),
    ensures
        r@ == value_block(
            result.value@,
            opt_view(result.type_str),
            *config,
            opt_str_view(timing),
        ),
{
    let io = is_io_v(&result.type_str);
    let value: Vec<char> = if !io && config.pretty_print {
        chars_of(pretty(result.value.as_str()).as_str())
    } else {
        chars_of(result.value.as_str())
    };
    let mut out = if io {
        render_plain_truncated(&value, config.max_output_lines, config.max_output_chars)
    } else {
        render_value_truncated(&value, config.max_output_lines, config.max_output_chars)
    };
    match &result.type_str {
        Some(ty) => type_tail_into(&mut out, &value, ty.as_str()),
        None => {},
    }
    timing_into(&mut out, config, timing);
    out.append("\n");
    out
}

// ---------------------------------------------------------------------------
// Evaluation results
// ---------------------------------------------------------------------------

pub open spec fn or_empty(o: Option<Seq<char>>) -> Seq<char> {
    match o {
        Some(s) => s,
        None => seq![],
    }
}

/// `name :: type` of a declaration, dimmed, with the timing.
pub open spec fn binding_line(expr: Seq<char>, ty: Seq<char>, c: Config, timing: Option<Seq<char>>) -> Seq<char> {
    painted(dim_style(), or_empty(bound_name(expr)) + " :: "@ + ty) + timing_suffix(c, timing) + "\n"@
}

/// What the REPL prints for a result: its diagnostics if there are any;
/// else its value with type and timing; else, for a declaration whose type
/// is known, `name :: type`; else nothing.
pub open spec fn render_spec(r: EvalResult, c: Config, timing: Option<Seq<char>>) -> Seq<char> {
    if r.diagnostics@.len() > 0 {
        diagnostics_text(crate::parse::diag_views(r.diagnostics@), c.pretty_errors)
    } else if r.value@.len() > 0 {
        value_block(r.value@, opt_view(r.type_str), c, timing)
    } else if is_binding(r.expr@) && r.type_str is Some {
        binding_line(r.expr@, (r.type_str->0)@, c, timing)
    } else {
        seq![]
    }
}

/// What follows a result whose output was already shown live: its
/// diagnostics; else for a declaration `name :: type`; else the value's
/// `:: type`.
pub open spec fn interactive_tail_spec(r: EvalResult, c: Config, timing: Option<Seq<char>>) -> Seq<char> {
    if r.diagnostics@.len() > 0 {
        diagnostics_text(crate::parse::diag_views(r.diagnostics@), c.pretty_errors)
    } else if is_binding(r.expr@) {
        match r.type_str {
            Some(ty) => binding_line(r.expr@, ty@, c, timing),
            None => seq![],
        }
    } else {
        match r.type_str {
            Some(ty) => if r.value@.len() > 0 {
                type_tail(r.value@, ty@) + timing_suffix(c, timing) + "\n"@
            } else {
                seq![]
            },
            None => seq![],
        }
    }
}

fn binding_line_into(out: &mut String, expr: &str, ty: &str, config: &Config, timing: Option<&str>)
    ensures
        final(out)@ == old(out)@ + binding_line(expr@, ty@, *config, opt_str_view(timing)),
{
    let mut t = String::new();
    match let_bound_name(expr) {
        Some(n) => t.append(n.as_str()),
        None => {},
    }
    t.append(" :: ");
    t.append(ty);
    paint_into(out, crate::style::dim(), t.as_str());
    timing_into(out, config, timing);
    out.append("\n");
}

/// Renders the result of an evaluation. `timing` is the measured duration
/// as a label such as `(42ms)`, shown when timing is on.
pub fn render(result: &EvalResult, config: &Config, timing: Option<&str>) -> (r: String)
    requires
        renderable(*result, *config),
    ensures
        r@ == render_spec(*result, *config, opt_str_view(timing)),
{
    if result.diagnostics.len() > 0 {
        return render_diagnostics(&result.diagnostics, config);
    }
    if !is_empty_string(&result.value) {
        return render_value_block(result, config, timing);
    }
    if is_let_binding(result.expr.as_str()) {
        match &result.type_str {
            Some(ty) => {
                let mut out = String::new();
                binding_line_into(&mut out, result.expr.as_str(), ty.as_str(), config, timing);
                return out;
            },
            None => {},
        }
    }
    String::new()
}

/// What follows a result whose output was already printed live:
/// diagnostics, or the type line.
pub fn render_interactive_tail(result: &EvalResult, config: &Config, timing: Option<&str>) -> (r: String)
    ensures
        r@ == interactive_tail_spec(*result, *config, opt_str_view(timing)),
{
    if result.diagnostics.len() > 0 {
        return render_diagnostics(&result.diagnostics, config);
    }
    let mut out = String::new();
    if is_let_binding(result.expr.as_str()) {
        match &result.type_str {
            Some(ty) => binding_line_into(&mut out, result.expr.as_str(), ty.as_str(), config, timing),
            None => {},
        }
        return out;
    }
    match &result.type_str {
        Some(ty) => {
            if !is_empty_string(&result.value) {
                let v = chars_of(result.value.as_str());
                type_tail_into(&mut out, &v, ty.as_str());
                timing_into(&mut out, config, timing);
                out.append("\n");
            }
        },
        None => {},
    }
    out
}

// ---------------------------------------------------------------------------
// Diagnostics
// ---------------------------------------------------------------------------

/// A diagnostic as GHC wrote it, in its severity's color.
pub open spec fn raw_diag(d: DiagnosticView) -> Seq<char> {
    painted(severity_style(d.severity), d.message) + "\n"@
}

pub open spec fn location_text(l: DiagLocation) -> Seq<char> {
    "at line "@ + decimal(l.line as nat) + ":"@ + decimal(l.col as nat)
}

pub open spec fn sev_bold(sev: Seq<char>) -> Style {
    Style { is_bold: true, ..severity_style(sev) }
}

pub open spec fn dim_underline() -> Style {
    Style { is_underline: true, ..dim_style() }
}

/// GHC 9.6 and later put a simple diagnostic on its header line, as in
/// `<interactive>:1:1: error: [GHC-88464] Variable not in scope: x`: the
/// text after `error:` (else `warning:`) and an optional `[GHC-NNNNN]`.
pub open spec fn inline_body(line: Seq<char>) -> Option<Seq<char>> {
    let after = match find(line, "error:"@) {
        Some(i) => Some(line.skip(i + 6)),
        None => match find(line, "warning:"@) {
            Some(i) => Some(line.skip(i + 8)),
            None => None,
        },
    };
    match after {
        None => None,
        Some(a) => {
            let rest = trim_start(a);
            let rest2 = if rest.len() > 0 && rest[0] == '[' {
                match find_char(rest.drop_first(), ']') {
                    Some(c) => trim_start(rest.drop_first().skip(c + 1)),
                    None => rest,
                }
            } else {
                rest
            };
            if rest2.len() == 0 {
                None
            } else {
                Some(rest2)
            }
        },
    }
}

/// The lines of a message's body: the inline body of the header, then the
/// lines after it.
pub open spec fn body_sources(msg: Seq<char>) -> Seq<Seq<char>> {
    (match inline_body(first_line(msg)) {
        Some(b) => seq![b],
        None => seq![],
    }) + (if lines(msg).len() > 0 {
        lines(msg).drop_first()
    } else {
        seq![]
    })
}

pub open spec fn exp_act_line(t: Seq<char>) -> bool {
    starts_with(t, "Expected:"@) || starts_with(t, "Expected type:"@) || starts_with(t, "Actual:"@)
        || starts_with(t, "Actual type:"@)
}

pub open spec fn suggestion_line(t: Seq<char>) -> bool {
    starts_with(t, "Perhaps you meant"@) || starts_with(t, "Did you mean"@) || starts_with(
        t,
        "Suggested fix:"@,
    )
}

/// Typographic quotes made plain.
pub open spec fn plain_quotes(t: Seq<char>) -> Seq<char> {
    replace_char(replace_char(t, '\u{2018}', '\''), '\u{2019}', '\'')
}

/// A body line, dimmed and indented; lines already shown as expected,
/// actual or suggestion, and blank lines, are left out.
pub open spec fn body_text(line: Seq<char>, has_ea: bool, has_s: bool) -> Seq<char> {
    let t = trim(line);
    if (has_ea && exp_act_line(t)) || (has_s && suggestion_line(t)) {
        seq![]
    } else {
        let c = plain_quotes(t);
        if c.len() == 0 {
            seq![]
        } else {
            "  "@ + painted(dim_style(), c) + "\n"@
        }
    }
}

pub open spec fn body_block(ls: Seq<Seq<char>>, k: int, has_ea: bool, has_s: bool) -> Seq<char>
    decreases k,
{
    if k <= 0 {
        seq![]
    } else {
        body_block(ls, k - 1, has_ea, has_s) + body_text(ls[k - 1], has_ea, has_s)
    }
}

/// `s` without leading `c`s.
pub open spec fn trim_start_char(s: Seq<char>, c: char) -> Seq<char>
    decreases s.len(),
{
    if s.len() > 0 && s[0] == c {
        trim_start_char(s.drop_first(), c)
    } else {
        s
    }
}

/// `s` without trailing `c`s.
pub open spec fn trim_end_char(s: Seq<char>, c: char) -> Seq<char>
    decreases s.len(),
{
    if s.len() > 0 && s.last() == c {
        trim_end_char(s.drop_last(), c)
    } else {
        s
    }
}

/// The piece of `t` after the first `p` and before the next one.
pub open spec fn piece_after(t: Seq<char>, p: Seq<char>) -> Option<Seq<char>> {
    match find(t, p) {
        Some(i) => {
            let after = t.skip(i + p.len());
            Some(
                match find(after, p) {
                    Some(j) => after.take(j),
                    None => after,
                },
            )
        },
        None => None,
    }
}

/// The leading run of `s` up to whitespace or `:`.
pub open spec fn ident_run(s: Seq<char>) -> Seq<char>
    decreases s.len(),
{
    if s.len() == 0 || is_ws(s[0]) || s[0] == ':' {
        seq![]
    } else {
        seq![s[0]] + ident_run(s.drop_first())
    }
}

/// The name a line says is not in scope, quotes and parentheses removed.
pub open spec fn line_scope_name(line: Seq<char>) -> Option<Seq<char>> {
    let t = trim(line);
    let piece = match piece_after(t, "not in scope:"@) {
        Some(a) => Some(a),
        None => piece_after(t, "Not in scope:"@),
    };
    match piece {
        None => None,
        Some(a) => {
            let cleaned = trim(
                trim_end_char(
                    trim_end_char(trim_start_char(trim_start_char(trim(a), '`'), '\u{2018}'), '\''),
                    '\u{2019}',
                ),
            );
            let name = trim_end_char(trim_start_char(ident_run(cleaned), '('), ')');
            if name.len() > 0 {
                Some(name)
            } else {
                None
            }
        },
    }
}

/// The first name some line says is not in scope.
pub open spec fn scope_name(ls: Seq<Seq<char>>) -> Option<Seq<char>>
    decreases ls.len(),
{
    if ls.len() == 0 {
        None
    } else {
        match line_scope_name(ls[0]) {
            Some(n) => Some(n),
            None => scope_name(ls.drop_first()),
        }
    }
}

/// `try: :m + Module` for a well-known name that is not in scope.
pub open spec fn import_hint_spec(msg: Seq<char>) -> Option<Seq<char>> {
    if !contains(msg, "not in scope"@) && !contains(msg, "Not in scope"@) {
        None
    } else {
        match scope_name(lines(msg)) {
            Some(n) => match import_module(n) {
                Some(m) => Some("try: :m + "@ + m),
                None => None,
            },
            None => None,
        }
    }
}

/// The number in a code `[GHC-NNNNN]`.
pub open spec fn code_number(code: Seq<char>) -> Option<Seq<char>> {
    if starts_with(code, "[GHC-"@) && ends_with(code.skip(5), "]"@) {
        Some(code.skip(5).drop_last())
    } else {
        None
    }
}

pub open spec fn hyperlink_text(url: Seq<char>, text: Seq<char>) -> Seq<char> {
    "\x1b]8;;"@ + url + "\x1b\\"@ + text + "\x1b]8;;\x1b\\"@
}

pub open spec fn error_url(num: Seq<char>) -> Seq<char> {
    "https://errors.haskell.org/messages/GHC-"@ + num
}

/// The error-code line: the code linked to its page, then the address.
pub open spec fn code_part(code: Option<Seq<char>>) -> Seq<char> {
    match code {
        Some(c) => match code_number(c) {
            Some(num) => "  "@ + hyperlink_text(error_url(num), painted(dim_underline(), c)) + " "@
                + painted(dim_style(), error_url(num)) + "\n"@,
            None => seq![],
        },
        None => seq![],
    }
}

pub open spec fn hint_line(o: Option<Seq<char>>) -> Seq<char> {
    match o {
        Some(h) => "  "@ + painted(hint_style(), h) + "\n"@,
        None => seq![],
    }
}

/// A diagnostic laid out: severity and location, expected and actual
/// types, the message body, the suggestion, an import hint and the error
/// code's page.
pub open spec fn pretty_diag(d: DiagnosticView) -> Seq<char> {
    diag_head(d) + diag_body(d) + hint_line(d.suggestion) + hint_line(import_hint_spec(d.message))
        + code_part(d.code)
}

/// Severity and location, then the expected and actual types.
pub open spec fn diag_head(d: DiagnosticView) -> Seq<char> {
    sev_loc(d.severity, d.location) + expected_part(d.expected) + actual_part(d.actual)
}

pub open spec fn sev_loc(sev: Seq<char>, loc: Option<DiagLocation>) -> Seq<char> {
    painted(sev_bold(sev), sev) + (match loc {
        Some(l) => " "@ + painted(dim_style(), location_text(l)),
        None => seq![],
    }) + "\n"@
}

pub open spec fn expected_part(e: Option<Seq<char>>) -> Seq<char> {
    match e {
        Some(e) => "  "@ + painted(ok_style(), "expected:"@) + " "@ + painted(ok_style(), e) + "\n"@,
        None => seq![],
    }
}

pub open spec fn actual_part(a: Option<Seq<char>>) -> Seq<char> {
    match a {
        Some(a) => "  "@ + painted(err_style(), "actual:"@) + "   "@ + painted(err_style(), a) + "\n"@,
        None => seq![],
    }
}

/// The message body, without what the head already shows.
pub open spec fn diag_body(d: DiagnosticView) -> Seq<char> {
    let src = body_sources(d.message);
    body_block(src, src.len() as int, d.expected is Some || d.actual is Some, d.suggestion is Some)
}

/// The diagnostics one after another, laid out or as GHC wrote them.
pub open spec fn diagnostics_text(ds: Seq<DiagnosticView>, pretty: bool) -> Seq<char>
    decreases ds.len(),
{
    if ds.len() == 0 {
        seq![]
    } else {
        diagnostics_text(ds.drop_last(), pretty) + (if pretty {
            pretty_diag(ds.last())
        } else {
            raw_diag(ds.last())
        })
    }
}

/// The module to import for a well-known name.
pub open spec fn import_module(name: Seq<char>) -> Option<Seq<char>> {
    if name == "sort"@ {
        Some("Data.List"@)
    } else if name == "sortBy"@ {
        Some("Data.List"@)
    } else if name == "sortOn"@ {
        Some("Data.List"@)
    } else if name == "group"@ {
        Some("Data.List"@)
    } else if name == "groupBy"@ {
        Some("Data.List"@)
    } else if name == "nub"@ {
        Some("Data.List"@)
    } else if name == "nubBy"@ {
        Some("Data.List"@)
    } else if name == "partition"@ {
        Some("Data.List"@)
    } else if name == "intercalate"@ {
        Some("Data.List"@)
    } else if name == "intersperse"@ {
        Some("Data.List"@)
    } else if name == "transpose"@ {
        Some("Data.List"@)
    } else if name == "subsequences"@ {
        Some("Data.List"@)
    } else if name == "permutations"@ {
        Some("Data.List"@)
    } else if name == "isPrefixOf"@ {
        Some("Data.List"@)
    } else if name == "isSuffixOf"@ {
        Some("Data.List"@)
    } else if name == "isInfixOf"@ {
        Some("Data.List"@)
    } else if name == "find"@ {
        Some("Data.List"@)
    } else if name == "genericLength"@ {
        Some("Data.List"@)
    } else if name == "fromList"@ {
        Some("Data.Map"@)
    } else if name == "toList"@ {
        Some("Data.Map"@)
    } else if name == "singleton"@ {
        Some("Data.Map"@)
    } else if name == "insert"@ {
        Some("Data.Map"@)
    } else if name == "lookup"@ {
        Some("Data.Map"@)
    } else if name == "union"@ {
        Some("Data.Map"@)
    } else if name == "intersection"@ {
        Some("Data.Map"@)
    } else if name == "difference"@ {
        Some("Data.Map"@)
    } else if name == "member"@ {
        Some("Data.Set"@)
    } else if name == "empty"@ {
        Some("Data.Set"@)
    } else if name == "isAlpha"@ {
        Some("Data.Char"@)
    } else if name == "isDigit"@ {
        Some("Data.Char"@)
    } else if name == "isUpper"@ {
        Some("Data.Char"@)
    } else if name == "isLower"@ {
        Some("Data.Char"@)
    } else if name == "isSpace"@ {
        Some("Data.Char"@)
    } else if name == "toUpper"@ {
        Some("Data.Char"@)
    } else if name == "toLower"@ {
        Some("Data.Char"@)
    } else if name == "digitToInt"@ {
        Some("Data.Char"@)
    } else if name == "intToDigit"@ {
        Some("Data.Char"@)
    } else if name == "ord"@ {
        Some("Data.Char"@)
    } else if name == "chr"@ {
        Some("Data.Char"@)
    } else if name == "fromMaybe"@ {
        Some("Data.Maybe"@)
    } else if name == "isJust"@ {
        Some("Data.Maybe"@)
    } else if name == "isNothing"@ {
        Some("Data.Maybe"@)
    } else if name == "catMaybes"@ {
        Some("Data.Maybe"@)
    } else if name == "mapMaybe"@ {
        Some("Data.Maybe"@)
    } else if name == "fromJust"@ {
        Some("Data.Maybe"@)
    } else if name == "isLeft"@ {
        Some("Data.Either"@)
    } else if name == "isRight"@ {
        Some("Data.Either"@)
    } else if name == "fromLeft"@ {
        Some("Data.Either"@)
    } else if name == "fromRight"@ {
        Some("Data.Either"@)
    } else if name == "partitionEithers"@ {
        Some("Data.Either"@)
    } else if name == "newIORef"@ {
        Some("Data.IORef"@)
    } else if name == "readIORef"@ {
        Some("Data.IORef"@)
    } else if name == "writeIORef"@ {
        Some("Data.IORef"@)
    } else if name == "modifyIORef"@ {
        Some("Data.IORef"@)
    } else if name == "hFlush"@ {
        Some("System.IO"@)
    } else if name == "hSetBuffering"@ {
        Some("System.IO"@)
    } else if name == "openFile"@ {
        Some("System.IO"@)
    } else if name == "hClose"@ {
        Some("System.IO"@)
    } else if name == "hGetContents"@ {
        Some("System.IO"@)
    } else if name == "hPutStrLn"@ {
        Some("System.IO"@)
    } else if name == "typeOf"@ {
        Some("Data.Typeable"@)
    } else if name == "when"@ {
        Some("Control.Monad"@)
    } else if name == "unless"@ {
        Some("Control.Monad"@)
    } else if name == "void"@ {
        Some("Control.Monad"@)
    } else if name == "guard"@ {
        Some("Control.Monad"@)
    } else if name == "join"@ {
        Some("Control.Monad"@)
    } else if name == "forM"@ {
        Some("Control.Monad"@)
    } else if name == "forM_"@ {
        Some("Control.Monad"@)
    } else if name == "mapM"@ {
        Some("Control.Monad"@)
    } else if name == "mapM_"@ {
        Some("Control.Monad"@)
    } else if name == "forever"@ {
        Some("Control.Monad"@)
    } else if name == "pack"@ {
        Some("Data.Text"@)
    } else if name == "unpack"@ {
        Some("Data.Text"@)
    } else if name == "trace"@ {
        Some("Debug.Trace"@)
    } else if name == "traceShow"@ {
        Some("Debug.Trace"@)
    } else if name == "traceShowId"@ {
        Some("Debug.Trace"@)
    } else {
        None
    }
}

fn import_module_exec(name: &Vec<char>) -> (r: Option<&'static str>)
    ensures
        match r {
            Some(m) => import_module(name@) == Some(m@),
            None => import_module(name@) is None,
        },
{
    if eq_str(name, "sort") {
        Some("Data.List")
    } else if eq_str(name, "sortBy") {
        Some("Data.List")
    } else if eq_str(name, "sortOn") {
        Some("Data.List")
    } else if eq_str(name, "group") {
        Some("Data.List")
    } else if eq_str(name, "groupBy") {
        Some("Data.List")
    } else if eq_str(name, "nub") {
        Some("Data.List")
    } else if eq_str(name, "nubBy") {
        Some("Data.List")
    } else if eq_str(name, "partition") {
        Some("Data.List")
    } else if eq_str(name, "intercalate") {
        Some("Data.List")
    } else if eq_str(name, "intersperse") {
        Some("Data.List")
    } else if eq_str(name, "transpose") {
        Some("Data.List")
    } else if eq_str(name, "subsequences") {
        Some("Data.List")
    } else if eq_str(name, "permutations") {
        Some("Data.List")
    } else if eq_str(name, "isPrefixOf") {
        Some("Data.List")
    } else if eq_str(name, "isSuffixOf") {
        Some("Data.List")
    } else if eq_str(name, "isInfixOf") {
        Some("Data.List")
    } else if eq_str(name, "find") {
        Some("Data.List")
    } else if eq_str(name, "genericLength") {
        Some("Data.List")
    } else if eq_str(name, "fromList") {
        Some("Data.Map")
    } else if eq_str(name, "toList") {
        Some("Data.Map")
    } else if eq_str(name, "singleton") {
        Some("Data.Map")
    } else if eq_str(name, "insert") {
        Some("Data.Map")
    } else if eq_str(name, "lookup") {
        Some("Data.Map")
    } else if eq_str(name, "union") {
        Some("Data.Map")
    } else if eq_str(name, "intersection") {
        Some("Data.Map")
    } else if eq_str(name, "difference") {
        Some("Data.Map")
    } else if eq_str(name, "member") {
        Some("Data.Set")
    } else if eq_str(name, "empty") {
        Some("Data.Set")
    } else if eq_str(name, "isAlpha") {
        Some("Data.Char")
    } else if eq_str(name, "isDigit") {
        Some("Data.Char")
    } else if eq_str(name, "isUpper") {
        Some("Data.Char")
    } else if eq_str(name, "isLower") {
        Some("Data.Char")
    } else if eq_str(name, "isSpace") {
        Some("Data.Char")
    } else if eq_str(name, "toUpper") {
        Some("Data.Char")
    } else if eq_str(name, "toLower") {
        Some("Data.Char")
    } else if eq_str(name, "digitToInt") {
        Some("Data.Char")
    } else if eq_str(name, "intToDigit") {
        Some("Data.Char")
    } else if eq_str(name, "ord") {
        Some("Data.Char")
    } else if eq_str(name, "chr") {
        Some("Data.Char")
    } else if eq_str(name, "fromMaybe") {
        Some("Data.Maybe")
    } else if eq_str(name, "isJust") {
        Some("Data.Maybe")
    } else if eq_str(name, "isNothing") {
        Some("Data.Maybe")
    } else if eq_str(name, "catMaybes") {
        Some("Data.Maybe")
    } else if eq_str(name, "mapMaybe") {
        Some("Data.Maybe")
    } else if eq_str(name, "fromJust") {
        Some("Data.Maybe")
    } else if eq_str(name, "isLeft") {
        Some("Data.Either")
    } else if eq_str(name, "isRight") {
        Some("Data.Either")
    } else if eq_str(name, "fromLeft") {
        Some("Data.Either")
    } else if eq_str(name, "fromRight") {
        Some("Data.Either")
    } else if eq_str(name, "partitionEithers") {
        Some("Data.Either")
    } else if eq_str(name, "newIORef") {
        Some("Data.IORef")
    } else if eq_str(name, "readIORef") {
        Some("Data.IORef")
    } else if eq_str(name, "writeIORef") {
        Some("Data.IORef")
    } else if eq_str(name, "modifyIORef") {
        Some("Data.IORef")
    } else if eq_str(name, "hFlush") {
        Some("System.IO")
    } else if eq_str(name, "hSetBuffering") {
        Some("System.IO")
    } else if eq_str(name, "openFile") {
        Some("System.IO")
    } else if eq_str(name, "hClose") {
        Some("System.IO")
    } else if eq_str(name, "hGetContents") {
        Some("System.IO")
    } else if eq_str(name, "hPutStrLn") {
        Some("System.IO")
    } else if eq_str(name, "typeOf") {
        Some("Data.Typeable")
    } else if eq_str(name, "when") {
        Some("Control.Monad")
    } else if eq_str(name, "unless") {
        Some("Control.Monad")
    } else if eq_str(name, "void") {
        Some("Control.Monad")
    } else if eq_str(name, "guard") {
        Some("Control.Monad")
    } else if eq_str(name, "join") {
        Some("Control.Monad")
    } else if eq_str(name, "forM") {
        Some("Control.Monad")
    } else if eq_str(name, "forM_") {
        Some("Control.Monad")
    } else if eq_str(name, "mapM") {
        Some("Control.Monad")
    } else if eq_str(name, "mapM_") {
        Some("Control.Monad")
    } else if eq_str(name, "forever") {
        Some("Control.Monad")
    } else if eq_str(name, "pack") {
        Some("Data.Text")
    } else if eq_str(name, "unpack") {
        Some("Data.Text")
    } else if eq_str(name, "trace") {
        Some("Debug.Trace")
    } else if eq_str(name, "traceShow") {
        Some("Debug.Trace")
    } else if eq_str(name, "traceShowId") {
        Some("Debug.Trace")
    } else {
        None
    }
}


fn render_diagnostic_raw(d: &Diagnostic) -> (r: String)
    ensures
        r@ == raw_diag(d@),
{
    let mut out = String::new();
    paint_into(&mut out, crate::style::severity(d.severity.as_str()), d.message.as_str());
    out.append("\n");
    out
}

/// The message that GHC 9.6 and later write on the header line of a
/// diagnostic, after `error:` or `warning:` and an optional `[GHC-n]` code.
pub fn first_line_body(line: &str) -> (r: Option<String>)
    ensures
        opt_view(r) == inline_body(line@),
{
    match first_line_body_v(&chars_of(line)) {
        Some(b) => Some(string_of(&b)),
        None => None,
    }
}

fn first_line_body_v(line: &Vec<char>) -> (r: Option<Vec<char>>)
    ensures
        match r {
            Some(b) => inline_body(line@) == Some(b@),
            None => inline_body(line@) is None,
        },
{
    let n = line.len();
    proof {
        reveal_strlit("error:");
        reveal_strlit("warning:");
    }
    let after: Vec<char> = match find_str(line, "error:") {
        Some(i) => {
            let a = slice(line, i + 6, n);
            assert(a@ =~= line@.skip(i + 6));
            a
        },
        None => match find_str(line, "warning:") {
            Some(i) => {
                let a = slice(line, i + 8, n);
                assert(a@ =~= line@.skip(i + 8));
                a
            },
            None => {
                return None;
            },
        },
    };
    let rest = trim_start_v(&after);
    let rn = rest.len();
    let rest2: Vec<char> = if rn > 0 && rest[0] == '[' {
        let inner = slice(&rest, 1, rn);
        assert(inner@ =~= rest@.drop_first());
        match find_char_from(&inner, ']', 0) {
            Some(c) => {
                assert(inner@.skip(0) =~= inner@);
                let tail = slice(&inner, c + 1, inner.len());
                assert(tail@ =~= inner@.skip(c + 1));
                trim_start_v(&tail)
            },
            None => {
                assert(inner@.skip(0) =~= inner@);
                rest
            },
        }
    } else {
        rest
    };
    if rest2.len() == 0 {
        None
    } else {
        Some(rest2)
    }
}

pub(crate) fn trim_start_char_v(s: &Vec<char>, c: char) -> (r: Vec<char>)
    ensures
        r@ == trim_start_char(s@, c),
{
    let n = s.len();
    let mut i: usize = 0;
    assert(s@.skip(0) =~= s@);
    while i < n && s[i] == c
        invariant
            i <= n,
            n == s@.len(),
            trim_start_char(s@.skip(i as int), c) == trim_start_char(s@, c),
        decreases n - i,
    {
        assert(s@.skip(i as int).drop_first() =~= s@.skip(i + 1));
        i = i + 1;
    }
    let r = slice(s, i, n);
    assert(r@ =~= s@.skip(i as int));
    r
}

pub(crate) fn trim_end_char_v(s: &Vec<char>, c: char) -> (r: Vec<char>)
    ensures
        r@ == trim_end_char(s@, c),
{
    let n = s.len();
    let mut i: usize = n;
    assert(s@.take(n as int) =~= s@);
    while i > 0 && s[i - 1] == c
        invariant
            i <= n,
            n == s@.len(),
            trim_end_char(s@.take(i as int), c) == trim_end_char(s@, c),
        decreases i,
    {
        assert(s@.take(i as int).drop_last() =~= s@.take(i - 1));
        i = i - 1;
    }
    slice(s, 0, i)
}

fn piece_after_v(t: &Vec<char>, p: &str) -> (r: Option<Vec<char>>)
    ensures
        match r {
            Some(a) => piece_after(t@, p@) == Some(a@),
            None => piece_after(t@, p@) is None,
        },
{
    let pv = chars_of(p);
    let n = t.len();
    match find_v(t, &pv) {
        Some(i) => {
            let after = slice(t, i + pv.len(), n);
            assert(after@ =~= t@.skip(i + p@.len()));
            match find_v(&after, &pv) {
                Some(j) => Some(slice(&after, 0, j)),
                None => Some(after),
            }
        },
        None => None,
    }
}

proof fn lemma_ident_run(s: Seq<char>, k: int)
    requires
        0 <= k <= s.len(),
        forall|j: int| 0 <= j < k ==> !is_ws(#[trigger] s[j]) && s[j] != ':',
        k == s.len() || is_ws(s[k]) || s[k] == ':',
    ensures
        ident_run(s) == s.take(k),
    decreases k,
{
    if k > 0 {
        let d = s.drop_first();
        assert forall|j: int| 0 <= j < k - 1 implies !is_ws(#[trigger] d[j]) && d[j] != ':' by {
            assert(d[j] == s[j + 1]);
        }
        lemma_ident_run(d, k - 1);
        assert(s.take(k) =~= seq![s[0]] + d.take(k - 1));
    } else {
        assert(s.take(0) =~= Seq::<char>::empty());
    }
}

fn line_scope_name_v(line: &Vec<char>) -> (r: Option<Vec<char>>)
    ensures
        match r {
            Some(a) => line_scope_name(line@) == Some(a@),
            None => line_scope_name(line@) is None,
        },
{
    let t = trim_v(line);
    let piece = match piece_after_v(&t, "not in scope:") {
        Some(a) => Some(a),
        None => piece_after_v(&t, "Not in scope:"),
    };
    match piece {
        None => None,
        Some(a) => {
            let c1 = trim_v(&a);
            let c2 = trim_start_char_v(&c1, '`');
            let c3 = trim_start_char_v(&c2, '\u{2018}');
            let c4 = trim_end_char_v(&c3, '\'');
            let c5 = trim_end_char_v(&c4, '\u{2019}');
            let cleaned = trim_v(&c5);
            let n = cleaned.len();
            let mut k: usize = 0;
            while k < n && !is_ws_exec(cleaned[k]) && cleaned[k] != ':'
                invariant
                    k <= n,
                    n == cleaned@.len(),
                    forall|j: int| 0 <= j < k ==> !is_ws(#[trigger] cleaned@[j]) && cleaned@[j] != ':',
                decreases n - k,
            {
                k = k + 1;
            }
            proof {
                lemma_ident_run(cleaned@, k as int);
            }
            let run = slice(&cleaned, 0, k);
            let n1 = trim_start_char_v(&run, '(');
            let name = trim_end_char_v(&n1, ')');
            if name.len() > 0 {
                Some(name)
            } else {
                None
            }
        },
    }
}

/// The `:m + Module` hint for a name that is not in scope and that a
/// common module exports.
pub fn import_hint(d: &Diagnostic) -> (r: Option<String>)
    ensures
        opt_view(r) == import_hint_spec(d.message@),
{
    let msg = chars_of(d.message.as_str());
    if !contains_str(&msg, "not in scope") && !contains_str(&msg, "Not in scope") {
        return None;
    }
    let ls = lines_v(&msg);
    let ghost lsv = views(ls@);
    let mut i: usize = 0;
    assert(lsv.skip(0) =~= lsv);
    while i < ls.len()
        invariant
            i <= ls@.len(),
            lsv == views(ls@),
            lsv == lines(msg@),
            contains(msg@, "not in scope"@) || contains(msg@, "Not in scope"@),
            msg@ == d.message@,
            scope_name(lsv) == scope_name(lsv.skip(i as int)),
        decreases ls.len() - i,
    {
        assert(lsv.skip(i as int).drop_first() =~= lsv.skip(i + 1));
        assert(lsv.skip(i as int)[0] == ls@[i as int]@);
        match line_scope_name_v(&ls[i]) {
            Some(name) => {
                assert(lsv.skip(i as int).len() > 0);
                assert(scope_name(lsv.skip(i as int)) == Some(name@));
                assert(scope_name(lines(msg@)) == Some(name@));
                match import_module_exec(&name) {
                    Some(m) => {
                        let mut h = String::new();
                        h.append("try: :m + ");
                        h.append(m);
                        assert(import_hint_spec(d.message@) == Some(h@));
                        return Some(h);
                    },
                    None => {
                        assert(import_hint_spec(d.message@) is None);
                        return None;
                    },
                }
            },
            None => {},
        }
        i = i + 1;
    }
    assert(lsv.skip(ls@.len() as int) =~= Seq::<Seq<char>>::empty());
    None
}

fn code_into(out: &mut String, code: &Option<String>)
    ensures
        final(out)@ == old(out)@ + code_part(opt_view(*code)),
{
    match code {
        Some(c) => {
            let cv = chars_of(c.as_str());
            let n = cv.len();
            if starts_with_str(&cv, "[GHC-") {
                proof {
                    reveal_strlit("[GHC-");
                }
                let rest = slice(&cv, 5, n);
                assert(rest@ =~= cv@.skip(5));
                if ends_with_str(&rest, "]") {
                    proof {
                        reveal_strlit("]");
                    }
                    let num = slice(&rest, 0, rest.len() - 1);
                    assert(num@ =~= rest@.drop_last());
                    let mut url = String::new();
                    url.append("https://errors.haskell.org/messages/GHC-");
                    push_str_into(&mut url, &num);
                    let label = crate::style::paint(crate::style::dim().underline(), c.as_str());
                    out.append("  ");
                    let link = crate::style::hyperlink(url.as_str(), label.as_str());
                    out.append(link.as_str());
                    out.append(" ");
                    paint_into(out, crate::style::dim(), url.as_str());
                    out.append("\n");
                }
            }
        },
        None => {},
    }
}

fn hint_into(out: &mut String, h: &Option<String>)
    ensures
        final(out)@ == old(out)@ + hint_line(opt_view(*h)),
{
    match h {
        Some(s) => {
            out.append("  ");
            paint_into(out, crate::style::hint(), s.as_str());
            out.append("\n");
        },
        None => {},
    }
}

fn body_line_into(out: &mut String, line: &Vec<char>, has_ea: bool, has_s: bool)
    ensures
        final(out)@ == old(out)@ + body_text(line@, has_ea, has_s),
{
    let t = trim_v(line);
    let ea = starts_with_str(&t, "Expected:") || starts_with_str(&t, "Expected type:")
        || starts_with_str(&t, "Actual:") || starts_with_str(&t, "Actual type:");
    let sg = starts_with_str(&t, "Perhaps you meant") || starts_with_str(&t, "Did you mean")
        || starts_with_str(&t, "Suggested fix:");
    if (has_ea && ea) || (has_s && sg) {
        return;
    }
    let c1 = replace_char_v(&t, '\u{2018}', '\'');
    let c = replace_char_v(&c1, '\u{2019}', '\'');
    if c.len() == 0 {
        return;
    }
    out.append("  ");
    paint_chars_into(out, crate::style::dim(), &c);
    out.append("\n");
}

fn sev_loc_into(out: &mut String, d: &Diagnostic)
    ensures
        final(out)@ == old(out)@ + sev_loc(d.severity@, d.location),
{
    paint_into(out, crate::style::severity(d.severity.as_str()).bold(), d.severity.as_str());
    match &d.location {
        Some(loc) => {
            out.append(" ");
            let mut t = String::new();
            t.append("at line ");
            push_str_into(&mut t, &decimal_v(loc.line));
            t.append(":");
            push_str_into(&mut t, &decimal_v(loc.col));
            paint_into(out, crate::style::dim(), t.as_str());
        },
        None => {},
    }
    out.append("\n");
}

fn expected_into(out: &mut String, e: &Option<String>)
    ensures
        final(out)@ == old(out)@ + expected_part(opt_view(*e)),
{
    match e {
        Some(e) => {
            out.append("  ");
            paint_into(out, crate::style::ok(), "expected:");
            out.append(" ");
            paint_into(out, crate::style::ok(), e.as_str());
            out.append("\n");
        },
        None => {},
    }
}

fn actual_into(out: &mut String, a: &Option<String>)
    ensures
        final(out)@ == old(out)@ + actual_part(opt_view(*a)),
{
    match a {
        Some(a) => {
            out.append("  ");
            paint_into(out, crate::style::err(), "actual:");
            out.append("   ");
            paint_into(out, crate::style::err(), a.as_str());
            out.append("\n");
        },
        None => {},
    }
}

fn diag_head_into(out: &mut String, d: &Diagnostic)
    ensures
        final(out)@ == old(out)@ + diag_head(d@),
{
    sev_loc_into(out, d);
    expected_into(out, &d.expected);
    actual_into(out, &d.actual);
}

fn body_sources_v(msg: &Vec<char>) -> (r: Vec<Vec<char>>)
    ensures
        views(r@) == body_sources(msg@),
{
    let ls = lines_v(msg);
    let first: Vec<char> = if ls.len() > 0 {
        ls[0].clone()
    } else {
        Vec::new()
    };
    assert(first@ == first_line(msg@));
    let mut src: Vec<Vec<char>> = Vec::new();
    match first_line_body_v(&first) {
        Some(b) => src.push(b),
        None => {},
    }
    let ghost head = views(src@);
    assert(head =~= (match inline_body(first_line(msg@)) {
        Some(b) => seq![b],
        None => Seq::<Seq<char>>::empty(),
    }));
    let mut i: usize = 1;
    while i < ls.len()
        invariant
            1 <= i,
            i <= ls@.len() || ls@.len() == 0,
            views(ls@) == lines(msg@),
            views(src@) == head + (if ls@.len() > 0 {
                lines(msg@).drop_first().take(i - 1)
            } else {
                seq![]
            }),
        decreases ls.len() - i,
    {
        let ghost before = views(src@);
        src.push(ls[i].clone());
        assert(lines(msg@).drop_first().take(i as int) =~= lines(msg@).drop_first().take(i - 1).push(
            ls@[i as int]@,
        ));
        assert(views(src@) =~= before.push(ls@[i as int]@));
        i = i + 1;
    }
    proof {
        if ls@.len() > 0 {
            assert(lines(msg@).drop_first().take(ls@.len() - 1) =~= lines(msg@).drop_first());
        } else {
            assert(head + Seq::<Seq<char>>::empty() =~= head);
        }
    }
    src
}

fn diag_body_into(out: &mut String, d: &Diagnostic)
    ensures
        final(out)@ == old(out)@ + diag_body(d@),
{
    let has_ea = d.expected.is_some() || d.actual.is_some();
    let has_s = d.suggestion.is_some();
    let msg = chars_of(d.message.as_str());
    let src = body_sources_v(&msg);
    let ghost srcv = views(src@);
    let mut k: usize = 0;
    let ghost base = out@;
    while k < src.len()
        invariant
            k <= src@.len(),
            srcv == views(src@),
            out@ == base + body_block(srcv, k as int, has_ea, has_s),
        decreases src.len() - k,
    {
        body_line_into(out, &src[k], has_ea, has_s);
        k = k + 1;
    }
}

fn render_diagnostic_pretty(d: &Diagnostic) -> (r: String)
    ensures
        r@ == pretty_diag(d@),
{
    let mut out = String::new();
    diag_head_into(&mut out, d);
    diag_body_into(&mut out, d);
    hint_into(&mut out, &d.suggestion);
    let ih = import_hint(d);
    hint_into(&mut out, &ih);
    code_into(&mut out, &d.code);
    out
}

fn render_diagnostics(diags: &Vec<Diagnostic>, config: &Config) -> (r: String)
    ensures
        r@ == diagnostics_text(crate::parse::diag_views(diags@), config.pretty_errors),
{
    let ghost dv = crate::parse::diag_views(diags@);
    let mut out = String::new();
    let mut i: usize = 0;
    while i < diags.len()
        invariant
            i <= diags@.len(),
            dv == crate::parse::diag_views(diags@),
            out@ == diagnostics_text(dv.take(i as int), config.pretty_errors),
        decreases diags.len() - i,
    {
        assert(dv.take(i + 1).drop_last() =~= dv.take(i as int));
        assert(dv.take(i + 1).last() == diags@[i as int]@);
        let block = if config.pretty_errors {
            render_diagnostic_pretty(&diags[i])
        } else {
            render_diagnostic_raw(&diags[i])
        };
        out.append(block.as_str());
        i = i + 1;
    }
    assert(dv.take(diags@.len() as int) =~= dv);
    out
}

// ---------------------------------------------------------------------------
// Bindings
// ---------------------------------------------------------------------------

/// `needle` occurs in `hay` in order, not necessarily adjacent (greedy scan).
pub open spec fn fuzzy(hay: Seq<char>, needle: Seq<char>) -> bool
    decreases hay.len(),
{
    if needle.len() == 0 {
        true
    } else if hay.len() == 0 {
        false
    } else if hay[0] == needle[0] {
        fuzzy(hay.drop_first(), needle.drop_first())
    } else {
        fuzzy(hay.drop_first(), needle)
    }
}

/// `needle`'s characters sit in `hay` at the positions `f(0) < f(1) < ...`.
pub open spec fn embeds_at(hay: Seq<char>, needle: Seq<char>, f: spec_fn(int) -> int) -> bool {
    forall|i: int|
        0 <= i < needle.len() ==> 0 <= #[trigger] f(i) < hay.len() && hay[f(i)] == needle[i] && (i
            + 1 < needle.len() ==> f(i) < f(i + 1))
}

/// `needle` is `hay` with some characters left out.
pub open spec fn subsequence(needle: Seq<char>, hay: Seq<char>) -> bool {
    exists|f: spec_fn(int) -> int| embeds_at(hay, needle, f)
}

proof fn lemma_embeds_rise(hay: Seq<char>, needle: Seq<char>, f: spec_fn(int) -> int, i: int)
    requires
        embeds_at(hay, needle, f),
        0 <= i < needle.len(),
    ensures
        f(i) >= f(0) + i,
    decreases i,
{
    if i > 0 {
        lemma_embeds_rise(hay, needle, f, i - 1);
        assert(f(i - 1) < f(i));
    }
}

proof fn lemma_fuzzy_embeds(hay: Seq<char>, needle: Seq<char>)
    ensures
        fuzzy(hay, needle) <==> subsequence(needle, hay),
    decreases hay.len(),
{
    if needle.len() == 0 {
        let f = |i: int| 0int;
        assert(embeds_at(hay, needle, f));
    } else if hay.len() == 0 {
        if subsequence(needle, hay) {
            let f = choose|f: spec_fn(int) -> int| embeds_at(hay, needle, f);
            assert(0 <= f(0) < hay.len());
        }
    } else {
        let h2 = hay.drop_first();
        if hay[0] == needle[0] {
            let n2 = needle.drop_first();
            lemma_fuzzy_embeds(h2, n2);
            if fuzzy(h2, n2) {
                let g = choose|g: spec_fn(int) -> int| embeds_at(h2, n2, g);
                let f = |i: int|
                    if i == 0 {
                        0int
                    } else {
                        g(i - 1) + 1
                    };
                assert forall|i: int| 0 <= i < needle.len() implies 0 <= #[trigger] f(i) < hay.len()
                    && hay[f(i)] == needle[i] && (i + 1 < needle.len() ==> f(i) < f(i + 1)) by {
                    if i > 0 {
                        assert(0 <= g(i - 1) < h2.len());
                        assert(h2[g(i - 1)] == n2[i - 1]);
                    }
                    if i + 1 < needle.len() {
                        assert(0 <= g(i) < h2.len());
                        if i > 0 {
                            assert(g(i - 1) < g(i));
                        }
                    }
                }
                assert(embeds_at(hay, needle, f));
            }
            if subsequence(needle, hay) {
                let f = choose|f: spec_fn(int) -> int| embeds_at(hay, needle, f);
                let g = |i: int| f(i + 1) - 1;
                assert forall|i: int| 0 <= i < n2.len() implies 0 <= #[trigger] g(i) < h2.len()
                    && h2[g(i)] == n2[i] && (i + 1 < n2.len() ==> g(i) < g(i + 1)) by {
                    assert(0 <= f(i) && f(i) < f(i + 1));
                    assert(f(i + 1) < hay.len());
                    assert(hay[f(i + 1)] == needle[i + 1]);
                    if i + 1 < n2.len() {
                        assert(f(i + 1) < f(i + 2));
                    }
                }
                assert(embeds_at(h2, n2, g));
            }
        } else {
            lemma_fuzzy_embeds(h2, needle);
            if fuzzy(h2, needle) {
                let g = choose|g: spec_fn(int) -> int| embeds_at(h2, needle, g);
                let f = |i: int| g(i) + 1;
                assert forall|i: int| 0 <= i < needle.len() implies 0 <= #[trigger] f(i) < hay.len()
                    && hay[f(i)] == needle[i] && (i + 1 < needle.len() ==> f(i) < f(i + 1)) by {
                    assert(0 <= g(i) < h2.len());
                    assert(h2[g(i)] == needle[i]);
                    if i + 1 < needle.len() {
                        assert(g(i) < g(i + 1));
                    }
                }
                assert(embeds_at(hay, needle, f));
            }
            if subsequence(needle, hay) {
                let f = choose|f: spec_fn(int) -> int| embeds_at(hay, needle, f);
                assert(f(0) != 0) by {
                    assert(hay[f(0)] == needle[0]);
                }
                let g = |i: int| f(i) - 1;
                assert forall|i: int| 0 <= i < needle.len() implies 0 <= #[trigger] g(i) < h2.len()
                    && h2[g(i)] == needle[i] && (i + 1 < needle.len() ==> g(i) < g(i + 1)) by {
                    lemma_embeds_rise(hay, needle, f, i);
                    assert(0 <= f(0));
                    assert(f(i) < hay.len());
                    assert(hay[f(i)] == needle[i]);
                    if i + 1 < needle.len() {
                        assert(f(i) < f(i + 1));
                    }
                }
                assert(embeds_at(h2, needle, g));
            }
        }
    }
}

proof fn lemma_lower_keeps_ws(s: Seq<char>)
    requires
        crate::config::all_ascii(s),
    ensures
        crate::config::ascii_lower(s).len() == s.len(),
        forall|j: int|
            0 <= j < s.len() ==> is_ws(#[trigger] crate::config::ascii_lower(s)[j]) == is_ws(s[j]),
{
    assert forall|j: int| 0 <= j < s.len() implies is_ws(
        #[trigger] crate::config::ascii_lower(s)[j],
    ) == is_ws(s[j]) by {
        let c = s[j];
        assert((c as u32) < 0x80);
        if 'A' <= c && c <= 'Z' {
            assert(!is_ws(c));
            assert(!is_ws(((c as u32) + 32) as char));
        }
    }
}

proof fn lemma_trim_start_lower(s: Seq<char>)
    requires
        crate::config::all_ascii(s),
    ensures
        trim_start(crate::config::ascii_lower(s)) == crate::config::ascii_lower(trim_start(s)),
    decreases s.len(),
{
    let m = crate::config::ascii_lower(s);
    lemma_lower_keeps_ws(s);
    if s.len() > 0 && is_ws(s[0]) {
        let r = s.drop_first();
        assert(crate::config::all_ascii(r)) by {
            assert forall|j: int| 0 <= j < r.len() implies (#[trigger] r[j] as u32) < 0x80 by {
                assert(r[j] == s[j + 1]);
            }
        }
        assert(is_ws(m[0]));
        assert(m.drop_first() =~= crate::config::ascii_lower(r));
        lemma_trim_start_lower(r);
    } else if s.len() > 0 {
        assert(!is_ws(m[0]));
    }
}

proof fn lemma_trim_end_lower(s: Seq<char>)
    requires
        crate::config::all_ascii(s),
    ensures
        trim_end(crate::config::ascii_lower(s)) == crate::config::ascii_lower(trim_end(s)),
    decreases s.len(),
{
    let m = crate::config::ascii_lower(s);
    lemma_lower_keeps_ws(s);
    if s.len() > 0 && is_ws(s.last()) {
        let r = s.drop_last();
        assert(crate::config::all_ascii(r)) by {
            assert forall|j: int| 0 <= j < r.len() implies (#[trigger] r[j] as u32) < 0x80 by {
                assert(r[j] == s[j]);
            }
        }
        assert(is_ws(m.last()));
        assert(m.drop_last() =~= crate::config::ascii_lower(r));
        lemma_trim_end_lower(r);
    } else if s.len() > 0 {
        assert(!is_ws(m.last()));
    }
}

/// The pattern as the binding filter uses it, for an all-ASCII pattern: its
/// lowercase, trimmed.
proof fn lemma_pattern_form(p: Seq<char>)
    requires
        crate::config::all_ascii(p),
    ensures
        crate::config::lower_of(trim(p)) == trim(crate::config::ascii_lower(p)),
{
    let (a, b) = crate::text::lemma_trim_piece(p);
    let tp = trim(p);
    assert(crate::config::all_ascii(tp)) by {
        assert forall|j: int| 0 <= j < tp.len() implies (#[trigger] tp[j] as u32) < 0x80 by {
            assert(tp[j] == p[a + j]);
        }
    }
    let ts = trim_start(p);
    lemma_trim_start_lower(p);
    assert(crate::config::all_ascii(ts)) by {
        let a2 = crate::text::lemma_trim_start_at(p);
        assert forall|j: int| 0 <= j < ts.len() implies (#[trigger] ts[j] as u32) < 0x80 by {
            assert(ts[j] == p[a2 + j]);
        }
    }
    lemma_trim_end_lower(ts);
}

/// The binding filter ignores case: two all-ASCII patterns that differ only
/// in the case of their letters (`Bar`, `bar`, `BAR`) show the same
/// bindings. Only the message for no match quotes each pattern as typed.
pub proof fn law_bindings_ignore_case(output: Seq<char>, p: Seq<char>, q: Seq<char>)
    requires
        crate::config::all_ascii(p),
        crate::config::all_ascii(q),
        crate::config::ascii_lower(p) == crate::config::ascii_lower(q),
    ensures
        bindings_spec(output, Some(p)) == bindings_spec(output, Some(q)) || (bindings_spec(
            output,
            Some(p),
        ) == no_bindings(Some(p)) && bindings_spec(output, Some(q)) == no_bindings(Some(q))),
{
    lemma_pattern_form(p);
    lemma_pattern_form(q);
}

/// Spaces around the pattern do not matter: a pattern and its trimmed form
/// show the same bindings (only the message for no match quotes the pattern
/// as typed).
pub proof fn law_bindings_ignore_pattern_spaces(output: Seq<char>, p: Seq<char>)
    ensures
        bindings_spec(output, Some(p)) == bindings_spec(output, Some(trim(p))) || (bindings_spec(
            output,
            Some(p),
        ) == no_bindings(Some(p)) && bindings_spec(output, Some(trim(p))) == no_bindings(
            Some(trim(p)),
        )),
{
    crate::text::lemma_trim_idempotent(p);
}

proof fn lemma_bindings_all(ls: Seq<Seq<char>>, k: int)
    ensures
        bindings_text(ls, k, Some(crate::config::lower_of(seq![]))) == bindings_text(ls, k, None),
    decreases k,
{
    if k > 0 {
        lemma_bindings_all(ls, k - 1);
        assert(crate::config::lower_of(seq![]).len() == 0) by {
            assert(crate::config::all_ascii(Seq::<char>::empty()));
            assert(crate::config::ascii_lower(Seq::<char>::empty()) =~= Seq::<char>::empty());
        }
    }
}

/// A blank pattern filters nothing: it shows every binding, as no pattern
/// does.
pub proof fn law_blank_pattern_shows_all(output: Seq<char>, p: Seq<char>)
    requires
        trim(p).len() == 0,
    ensures
        bindings_spec(output, Some(p)) == bindings_spec(output, None) || (bindings_spec(
            output,
            Some(p),
        ) == no_bindings(Some(p)) && bindings_spec(output, None) == no_bindings(None)),
{
    assert(trim(p) =~= Seq::<char>::empty());
    lemma_bindings_all(lines(output), lines(output).len() as int);
}

/// The binding explorer's fuzzy search: a pattern matches a name exactly
/// when the name holds the pattern's characters in order, with anything in
/// between.
pub proof fn law_fuzzy_is_subsequence(hay: Seq<char>, needle: Seq<char>)
    ensures
        fuzzy(hay, needle) <==> subsequence(needle, hay),
{
    lemma_fuzzy_embeds(hay, needle);
}

/// Whether the characters of `needle` occur in `haystack` in order.
pub fn fuzzy_match(haystack: &str, needle: &str) -> (r: bool)
    ensures
        r == fuzzy(haystack@, needle@),
{
    let h = chars_of(haystack);
    let n = chars_of(needle);
    let mut i: usize = 0;
    let mut j: usize = 0;
    assert(h@.skip(0) =~= h@);
    assert(n@.skip(0) =~= n@);
    while j < n.len()
        invariant
            i <= h@.len(),
            j <= n@.len(),
            h@ == haystack@,
            n@ == needle@,
            fuzzy(h@.skip(i as int), n@.skip(j as int)) == fuzzy(haystack@, needle@),
        decreases h.len() - i + n.len() - j,
    {
        if i >= h.len() {
            assert(h@.skip(i as int).len() == 0);
            return false;
        }
        assert(h@.skip(i as int).drop_first() =~= h@.skip(i + 1));
        assert(n@.skip(j as int).drop_first() =~= n@.skip(j + 1));
        if h[i] == n[j] {
            j = j + 1;
        }
        i = i + 1;
    }
    true
}

pub open spec fn no_bindings(pattern: Option<Seq<char>>) -> Seq<char> {
    match pattern {
        Some(p) => painted(dim_style(), "(no bindings matching '"@ + p + "')"@) + "\n"@,
        None => painted(dim_style(), "(no bindings)"@) + "\n"@,
    }
}

/// A binding line: `name :: type` with the name bold and the type dimmed,
/// anything else highlighted as Haskell.
pub open spec fn binding_text(l: Seq<char>) -> Seq<char> {
    match find(l, "::"@) {
        Some(sep) => "  "@ + painted(bold_style(), trim(l.take(sep))) + " "@ + painted(
            dim_style(),
            ":: "@ + trim(l.skip(sep + 2)),
        ) + "\n"@,
        None => "  "@ + highlight_spec(l) + "\n"@,
    }
}

/// A trimmed line is shown when it is not blank and matches the pattern
/// (already lowercased) in its lowercase form.
pub open spec fn binding_shown(l: Seq<char>, pat: Option<Seq<char>>) -> bool {
    l.len() > 0 && match pat {
        Some(p) => fuzzy(crate::config::lower_of(l), p),
        None => true,
    }
}

pub open spec fn bindings_text(ls: Seq<Seq<char>>, k: int, pat: Option<Seq<char>>) -> Seq<char>
    decreases k,
{
    if k <= 0 {
        seq![]
    } else {
        bindings_text(ls, k - 1, pat) + (if binding_shown(trim(ls[k - 1]), pat) {
            binding_text(trim(ls[k - 1]))
        } else {
            seq![]
        })
    }
}

/// The output of `:show bindings`, filtered by a fuzzy pattern.
pub open spec fn bindings_spec(output: Seq<char>, pattern: Option<Seq<char>>) -> Seq<char> {
    if trim(output).len() == 0 {
        no_bindings(pattern)
    } else {
        let pat = match pattern {
            Some(p) => Some(crate::config::lower_of(trim(p))),
            None => None,
        };
        let b = bindings_text(lines(output), lines(output).len() as int, pat);
        if b.len() == 0 {
            no_bindings(pattern)
        } else {
            b
        }
    }
}

fn no_bindings_into(out: &mut String, pattern: Option<&str>)
    ensures
        final(out)@ == old(out)@ + no_bindings(opt_str_view(pattern)),
{
    match pattern {
        Some(p) => {
            let mut t = String::new();
            t.append("(no bindings matching '");
            t.append(p);
            t.append("')");
            paint_into(out, crate::style::dim(), t.as_str());
        },
        None => paint_into(out, crate::style::dim(), "(no bindings)"),
    }
    out.append("\n");
}

fn binding_into(out: &mut String, l: &Vec<char>)
    ensures
        final(out)@ == old(out)@ + binding_text(l@),
{
    let n = l.len();
    match find_str(l, "::") {
        Some(sep) => {
            proof {
                reveal_strlit("::");
            }
            let a = slice(l, 0, sep);
            let b = slice(l, sep + 2, n);
            assert(a@ =~= l@.take(sep as int));
            assert(b@ =~= l@.skip(sep + 2));
            out.append("  ");
            paint_chars_into(out, crate::style::bold(), &trim_v(&a));
            out.append(" ");
            let mut t = String::new();
            t.append(":: ");
            push_str_into(&mut t, &trim_v(&b));
            paint_into(out, crate::style::dim(), t.as_str());
            out.append("\n");
        },
        None => {
            out.append("  ");
            let ls = string_of(l);
            out.append(highlight_input(ls.as_str()).as_str());
            out.append("\n");
        },
    }
}

/// Lists the session's bindings, `name :: type` per line, keeping those
/// whose lowercase form fuzzily matches the pattern.
pub fn render_bindings(output: &str, pattern: Option<&str>) -> (r: String)
    ensures
        r@ == bindings_spec(output@, opt_str_view(pattern)),
{
    let v = chars_of(output);
    let t = trim_v(&v);
    let mut out = String::new();
    if t.len() == 0 {
        no_bindings_into(&mut out, pattern);
        return out;
    }
    let pat: Option<String> = match pattern {
        Some(p) => {
            let pt = string_of(&trim_v(&chars_of(p)));
            Some(crate::config::to_lowercase(pt.as_str()))
        },
        None => None,
    };
    let ghost patv = opt_view(pat);
    let ls = lines_v(&v);
    let ghost lsv = views(ls@);
    let mut i: usize = 0;
    while i < ls.len()
        invariant
            i <= ls@.len(),
            lsv == views(ls@),
            patv == opt_view(pat),
            out@ == bindings_text(lsv, i as int, patv),
        decreases ls.len() - i,
    {
        let l = trim_v(&ls[i]);
        let shown = l.len() > 0 && match &pat {
            Some(p) => {
                let lower = crate::config::to_lowercase(string_of(&l).as_str());
                fuzzy_match(lower.as_str(), p.as_str())
            },
            None => true,
        };
        if shown {
            binding_into(&mut out, &l);
        }
        i = i + 1;
    }
    if chars_of(out.as_str()).len() == 0 {
        no_bindings_into(&mut out, pattern);
    }
    out
}

// ---------------------------------------------------------------------------
// Command output
// ---------------------------------------------------------------------------

/// `true` when `t` has `needle` at the start, or after text ending in `:`.
pub open spec fn header_at(t: Seq<char>, needle: Seq<char>) -> bool {
    match find(t, needle) {
        Some(i) => i == 0 || ends_with(trim_end(t.take(i)), ":"@),
        None => false,
    }
}

/// The severity of a diagnostic header such as `Foo.hs:9:22: error:` or
/// `<interactive>:1:1: warning:`.
pub open spec fn diag_header(line: Seq<char>) -> Option<Seq<char>> {
    let t = trim_start(line);
    if header_at(t, "error:"@) {
        Some("error"@)
    } else if header_at(t, "warning:"@) {
        Some("warning"@)
    } else {
        None
    }
}

/// A progress line such as `[1 of 2] Compiling Main`.
pub open spec fn compile_progress(line: Seq<char>) -> bool {
    let t = trim_start(line);
    starts_with(t, "["@) && contains(t, "]"@) && (contains(t, "Compiling"@) || contains(
        t,
        "Loading"@,
    ) || contains(t, "Linking"@))
}

/// One line of command output, and whether it is inside a diagnostic.
pub open spec fn passthrough_line(line: Seq<char>, in_diag: bool) -> (Seq<char>, bool) {
    match diag_header(line) {
        Some(sev) => (painted(severity_style(sev), line) + "\n"@, true),
        None => if in_diag && (line.len() == 0 || starts_with(line, " "@) || starts_with(
            line,
            "\t"@,
        )) {
            (painted(dim_style(), line) + "\n"@, true)
        } else if compile_progress(line) {
            (painted(dim_style(), line) + "\n"@, false)
        } else if starts_with(line, "Failed"@) {
            (painted(err_style(), line) + "\n"@, false)
        } else if starts_with(line, "Ok,"@) || starts_with(line, "Ok "@) {
            (painted(ok_style(), line) + "\n"@, false)
        } else {
            (highlight_spec(line) + "\n"@, false)
        },
    }
}

pub open spec fn passthrough_from(ls: Seq<Seq<char>>, k: int) -> (Seq<char>, bool)
    decreases k,
{
    if k <= 0 {
        (seq![], false)
    } else {
        let prev = passthrough_from(ls, k - 1);
        let step = passthrough_line(ls[k - 1], prev.1);
        (prev.0 + step.0, step.1)
    }
}

fn header_at_v(t: &Vec<char>, needle: &str) -> (r: bool)
    ensures
        r == header_at(t@, needle@),
{
    match find_str(t, needle) {
        Some(i) => {
            if i == 0 {
                true
            } else {
                let before = slice(t, 0, i);
                assert(before@ =~= t@.take(i as int));
                ends_with_str(&trim_end_v(&before), ":")
            }
        },
        None => false,
    }
}

/// The severity of a line that starts a compiler diagnostic
/// (`File.hs:9:22: error:`, `<interactive>:1:1: warning:`, `error: ...`).
pub fn diag_header_severity(line: &str) -> (r: Option<&'static str>)
    ensures
        opt_str_view(r) == diag_header(line@),
{
    diag_header_severity_v(&chars_of(line))
}

fn diag_header_severity_v(line: &Vec<char>) -> (r: Option<&'static str>)
    ensures
        match r {
            Some(s) => diag_header(line@) == Some(s@),
            None => diag_header(line@) is None,
        },
{
    let t = trim_start_v(line);
    if header_at_v(&t, "error:") {
        Some("error")
    } else if header_at_v(&t, "warning:") {
        Some("warning")
    } else {
        None
    }
}

fn is_compile_progress(line: &Vec<char>) -> (r: bool)
    ensures
        r == compile_progress(line@),
{
    let t = trim_start_v(line);
    starts_with_str(&t, "[") && contains_str(&t, "]") && (contains_str(&t, "Compiling")
        || contains_str(&t, "Loading") || contains_str(&t, "Linking"))
}

/// Renders the output of a GHCi command line by line: diagnostic headers
/// in their severity's color with their indented bodies dimmed, progress
/// lines dimmed, `Failed` and `Ok` lines in red and green, and everything
/// else highlighted as Haskell.
pub fn render_passthrough(output: &str) -> (r: String)
    ensures
        r@ == passthrough_from(lines(output@), lines(output@).len() as int).0,
        !output@.contains('\x1b') ==> stripped(r@) == crate::session::text_of_lines(lines(output@)),
{
    let v = chars_of(output);
    let ls = lines_v(&v);
    let ghost lsv = views(ls@);
    let ghost clean = !output@.contains('\x1b');
    proof {
        if clean {
            crate::text::lemma_lines_lack(output@, '\x1b');
        }
        assert forall|y: Seq<char>| #[trigger] stripped(Seq::<char>::empty() + y) == Seq::<char>::empty()
            + stripped(y) by {
            assert(Seq::<char>::empty() + y =~= y);
            assert(Seq::<char>::empty() + stripped(y) =~= stripped(y));
        }
        assert(lsv.take(0) =~= Seq::<Seq<char>>::empty());
    }
    let mut out = String::new();
    let mut in_diag = false;
    let mut i: usize = 0;
    while i < ls.len()
        invariant
            i <= ls@.len(),
            lsv == views(ls@),
            lsv == lines(output@),
            clean == !output@.contains('\x1b'),
            clean ==> forall|j: int| 0 <= j < lsv.len() ==> !(#[trigger] lsv[j]).contains('\x1b'),
            (out@, in_diag) == passthrough_from(lsv, i as int),
            clean ==> strips_to(out@, crate::session::text_of_lines(lsv.take(i as int))),
        decreases ls.len() - i,
    {
        let ghost before = out@;
        let ghost tb = crate::session::text_of_lines(lsv.take(i as int));
        proof {
            assert(lsv.take(i + 1).drop_last() =~= lsv.take(i as int));
            assert(lsv.take(i + 1).last() == lsv[i as int]);
            assert(lsv[i as int] == ls@[i as int]@);
        }
        let line = &ls[i];
        let ls_str = string_of(line);
        assert(ls_str@ == lsv[i as int]);
        let ghost mut x: Seq<char> = seq![];
        match diag_header_severity_v(line) {
            Some(sev) => {
                in_diag = true;
                let st = crate::style::severity(sev);
                paint_into(&mut out, st, ls_str.as_str());
                proof {
                    x = painted(st, ls_str@);
                    if clean {
                        lemma_painted_strips(st, ls_str@);
                    }
                }
                out.append("\n");
            },
            None => {
                if in_diag && (line.len() == 0 || starts_with_str(line, " ") || starts_with_str(
                    line,
                    "\t",
                )) {
                    let st = crate::style::dim();
                    paint_into(&mut out, st, ls_str.as_str());
                    proof {
                        x = painted(st, ls_str@);
                        if clean {
                            lemma_painted_strips(st, ls_str@);
                        }
                    }
                    out.append("\n");
                } else {
                    in_diag = false;
                    if is_compile_progress(line) {
                        let st = crate::style::dim();
                        paint_into(&mut out, st, ls_str.as_str());
                        proof {
                            x = painted(st, ls_str@);
                            if clean {
                                lemma_painted_strips(st, ls_str@);
                            }
                        }
                    } else if starts_with_str(line, "Failed") {
                        let st = crate::style::err();
                        paint_into(&mut out, st, ls_str.as_str());
                        proof {
                            x = painted(st, ls_str@);
                            if clean {
                                lemma_painted_strips(st, ls_str@);
                            }
                        }
                    } else if starts_with_str(line, "Ok,") || starts_with_str(line, "Ok ") {
                        let st = crate::style::ok();
                        paint_into(&mut out, st, ls_str.as_str());
                        proof {
                            x = painted(st, ls_str@);
                            if clean {
                                lemma_painted_strips(st, ls_str@);
                            }
                        }
                    } else {
                        let h = highlight_input(ls_str.as_str());
                        proof {
                            x = h@;
                        }
                        out.append(h.as_str());
                    }
                    out.append("\n");
                }
            },
        }
        proof {
            if clean {
                assert(out@ =~= before + x + "\n"@);
                assert(strips_to(x, lsv[i as int]));
                lemma_strips_line(before, tb, x, lsv[i as int]);
                assert(tb + lsv[i as int] + "\n"@ == crate::session::text_of_lines(
                    lsv.take(i + 1),
                ));
            }
        }
        i = i + 1;
    }
    proof {
        if clean {
            assert(lsv.take(lsv.len() as int) =~= lsv);
            assert(out@ + Seq::<char>::empty() =~= out@);
            assert(strip_from(Seq::<char>::empty(), 0) =~= Seq::<char>::empty());
        }
    }
    out
}

// ---------------------------------------------------------------------------
// Hoogle
// ---------------------------------------------------------------------------

pub open spec fn sig_part(sig: Seq<char>) -> Seq<char> {
    if sig.len() > 0 {
        " "@ + painted(dim_style(), "::"@) + " "@ + painted(type_sig_style(), sig)
    } else {
        seq![]
    }
}

pub open spec fn module_part(m: Seq<char>) -> Seq<char> {
    if m.len() > 0 {
        "  "@ + painted(dim_style(), m)
    } else {
        seq![]
    }
}

pub open spec fn hoogle_line(r: crate::hoogle::HoogleView) -> Seq<char> {
    "  "@ + painted(bold_style(), r.name) + sig_part(r.signature) + module_part(r.module) + "\n"@
}

pub open spec fn hoogle_lines(rs: Seq<crate::hoogle::HoogleView>) -> Seq<char>
    decreases rs.len(),
{
    if rs.len() == 0 {
        seq![]
    } else {
        hoogle_lines(rs.drop_last()) + hoogle_line(rs.last())
    }
}

pub open spec fn hoogle_results_spec(rs: Seq<crate::hoogle::HoogleView>) -> Seq<char> {
    if rs.len() == 0 {
        painted(dim_style(), "(no results)"@) + "\n"@
    } else {
        hoogle_lines(rs)
    }
}

fn sig_into(out: &mut String, sig: &String)
    ensures
        final(out)@ == old(out)@ + sig_part(sig@),
{
    if !is_empty_string(sig) {
        out.append(" ");
        paint_into(out, crate::style::dim(), "::");
        out.append(" ");
        paint_into(out, crate::style::type_sig(), sig.as_str());
    }
}

/// Lists Hoogle hits: the name in bold, then the type and the module.
pub fn render_hoogle_results(results: &Vec<crate::hoogle::HoogleResult>) -> (r: String)
    ensures
        r@ == hoogle_results_spec(crate::hoogle::hoogle_views(results@)),
{
    let ghost rv = crate::hoogle::hoogle_views(results@);
    let mut out = String::new();
    if results.len() == 0 {
        paint_into(&mut out, crate::style::dim(), "(no results)");
        out.append("\n");
        return out;
    }
    let mut i: usize = 0;
    while i < results.len()
        invariant
            i <= results@.len(),
            rv == crate::hoogle::hoogle_views(results@),
            out@ == hoogle_lines(rv.take(i as int)),
        decreases results.len() - i,
    {
        assert(rv.take(i + 1).drop_last() =~= rv.take(i as int));
        assert(rv.take(i + 1).last() == results@[i as int]@);
        let r = &results[i];
        out.append("  ");
        paint_into(&mut out, crate::style::bold(), r.name.as_str());
        sig_into(&mut out, &r.signature);
        if !is_empty_string(&r.module) {
            out.append("  ");
            paint_into(&mut out, crate::style::dim(), r.module.as_str());
        }
        out.append("\n");
        i = i + 1;
    }
    assert(rv.take(results@.len() as int) =~= rv);
    out
}

/// The documentation lines: each indented and dimmed, runs of blank lines
/// kept as one empty line.
pub open spec fn doc_from(ls: Seq<Seq<char>>, k: int) -> (Seq<char>, bool)
    decreases k,
{
    if k <= 0 {
        (seq![], false)
    } else {
        let prev = doc_from(ls, k - 1);
        let blank = trim(ls[k - 1]).len() == 0;
        if blank && prev.1 {
            prev
        } else if blank {
            (prev.0 + "\n"@, true)
        } else {
            (prev.0 + "  "@ + painted(dim_style(), ls[k - 1]) + "\n"@, false)
        }
    }
}

/// A Hoogle hit in full: name and type, module, documentation and link.
pub open spec fn hoogle_doc_spec(r: crate::hoogle::HoogleView) -> Seq<char> {
    painted(bold_style(), r.name) + sig_part(r.signature) + "\n"@ + (if r.module.len() > 0 {
        painted(dim_style(), r.module) + "\n"@
    } else {
        seq![]
    }) + (if r.doc.len() > 0 {
        "\n"@ + doc_from(lines(r.doc), lines(r.doc).len() as int).0
    } else {
        seq![]
    }) + (if r.url.len() > 0 {
        "\n  "@ + painted(dim_style(), r.url) + "\n"@
    } else {
        seq![]
    })
}

fn doc_lines_into(out: &mut String, doc: &String)
    ensures
        final(out)@ == old(out)@ + doc_from(lines(doc@), lines(doc@).len() as int).0,
{
    let v = chars_of(doc.as_str());
    let ls = lines_v(&v);
    let ghost lsv = views(ls@);
    let ghost base = out@;
    let mut prev_blank = false;
    let mut i: usize = 0;
    while i < ls.len()
        invariant
            i <= ls@.len(),
            lsv == views(ls@),
            (out@, prev_blank) == (base + doc_from(lsv, i as int).0, doc_from(lsv, i as int).1),
        decreases ls.len() - i,
    {
        let blank = trim_v(&ls[i]).len() == 0;
        if blank && prev_blank {
        } else if blank {
            out.append("\n");
        } else {
            out.append("  ");
            paint_chars_into(out, crate::style::dim(), &ls[i]);
            out.append("\n");
        }
        prev_blank = if blank && prev_blank {
            true
        } else {
            blank
        };
        i = i + 1;
    }
}

/// Shows one Hoogle hit with its documentation.
pub fn render_hoogle_doc(result: &crate::hoogle::HoogleResult) -> (r: String)
    ensures
        r@ == hoogle_doc_spec(result@),
{
    let mut out = String::new();
    paint_into(&mut out, crate::style::bold(), result.name.as_str());
    sig_into(&mut out, &result.signature);
    out.append("\n");
    if !is_empty_string(&result.module) {
        paint_into(&mut out, crate::style::dim(), result.module.as_str());
        out.append("\n");
    }
    if !is_empty_string(&result.doc) {
        out.append("\n");
        doc_lines_into(&mut out, &result.doc);
    }
    if !is_empty_string(&result.url) {
        out.append("\n  ");
        paint_into(&mut out, crate::style::dim(), result.url.as_str());
        out.append("\n");
    }
    out
}

// ---------------------------------------------------------------------------
// Escape codes
// ---------------------------------------------------------------------------

pub open spec fn is_ascii_alpha(c: char) -> bool {
    ('a' <= c && c <= 'z') || ('A' <= c && c <= 'Z')
}

/// The end of a control sequence's parameters from `j`: the position after
/// its final letter.
pub open spec fn csi_end(s: Seq<char>, j: int) -> int
    decreases s.len() - j,
{
    if j < 0 || j >= s.len() {
        j
    } else if is_ascii_alpha(s[j]) {
        j + 1
    } else {
        csi_end(s, j + 1)
    }
}

/// The end of an operating system command from `j`: after BEL or `ESC \`.
pub open spec fn osc_end(s: Seq<char>, j: int) -> int
    decreases s.len() - j,
{
    if j < 0 || j >= s.len() {
        j
    } else if s[j] == '\x07' {
        j + 1
    } else if s[j] == '\x1b' && j + 1 < s.len() && s[j + 1] == '\\' {
        j + 2
    } else {
        osc_end(s, j + 1)
    }
}

/// The text of `s` from `i` on without escape sequences: `ESC [ ... letter`,
/// `ESC ] ... BEL` or `ESC ] ... ESC \`, and any other `ESC x` pair.
pub open spec fn strip_from(s: Seq<char>, i: int) -> Seq<char>
    decreases s.len() - i,
{
    if i < 0 || i >= s.len() {
        seq![]
    } else if s[i] == '\x1b' && i + 1 < s.len() {
        if s[i + 1] == '[' {
            proof {
                lemma_csi_end(s, i + 2);
            }
            strip_from(s, csi_end(s, i + 2))
        } else if s[i + 1] == ']' {
            proof {
                lemma_osc_end(s, i + 2);
            }
            strip_from(s, osc_end(s, i + 2))
        } else {
            strip_from(s, i + 2)
        }
    } else {
        seq![s[i]] + strip_from(s, i + 1)
    }
}

pub proof fn lemma_csi_end(s: Seq<char>, j: int)
    requires
        0 <= j,
    ensures
        j <= csi_end(s, j),
        csi_end(s, j) <= s.len() || csi_end(s, j) == j,
    decreases s.len() - j,
{
    if j < s.len() && !is_ascii_alpha(s[j]) {
        lemma_csi_end(s, j + 1);
    }
}

pub proof fn lemma_osc_end(s: Seq<char>, j: int)
    requires
        0 <= j,
    ensures
        j <= osc_end(s, j),
        osc_end(s, j) <= s.len() || osc_end(s, j) == j,
    decreases s.len() - j,
{
    if j < s.len() && s[j] != '\x07' && !(s[j] == '\x1b' && j + 1 < s.len() && s[j + 1] == '\\') {
        lemma_osc_end(s, j + 1);
    }
}

pub open spec fn stripped(s: Seq<char>) -> Seq<char> {
    strip_from(s, 0)
}

/// `s` without ANSI escape sequences (colors, cursor control, hyperlinks).
pub fn strip_ansi(s: &str) -> (r: String)
    ensures
        r@ == stripped(s@),
{
    let v = chars_of(s);
    let n = v.len();
    let mut out: Vec<char> = Vec::new();
    let mut i: usize = 0;
    assert(out@ + strip_from(v@, 0) =~= stripped(v@));
    while i < n
        invariant
            n == v@.len(),
            i <= n + 1,
            v@ == s@,
            out@ + strip_from(v@, i as int) == stripped(s@),
        decreases n + 1 - i,
    {
        let ghost i0 = i as int;
        let ghost before = out@;
        if v[i] == '\x1b' && i + 1 < n {
            if v[i + 1] == '[' {
                proof {
                    lemma_csi_end(v@, i0 + 2);
                }
                let mut j = i + 2;
                while j < n && !(('a' <= v[j] && v[j] <= 'z') || ('A' <= v[j] && v[j] <= 'Z'))
                    invariant
                        i0 + 2 <= j <= n,
                        n == v@.len(),
                        csi_end(v@, j as int) == csi_end(v@, i0 + 2),
                    decreases n - j,
                {
                    j = j + 1;
                }
                i = if j < n {
                    j + 1
                } else {
                    j
                };
            } else if v[i + 1] == ']' {
                proof {
                    lemma_osc_end(v@, i0 + 2);
                }
                let mut j = i + 2;
                loop
                    invariant_except_break
                        i0 + 2 <= j <= n,
                        osc_end(v@, j as int) == osc_end(v@, i0 + 2),
                    invariant
                        n == v@.len(),
                    ensures
                        j as int == osc_end(v@, i0 + 2),
                        j <= n,
                    decreases n - j,
                {
                    if j >= n {
                        break;
                    }
                    if v[j] == '\x07' {
                        j = j + 1;
                        break;
                    }
                    if v[j] == '\x1b' && j + 1 < n && v[j + 1] == '\\' {
                        j = j + 2;
                        break;
                    }
                    j = j + 1;
                }
                i = j;
            } else {
                i = i + 2;
            }
        } else {
            out.push(v[i]);
            i = i + 1;
            assert(out@ + strip_from(v@, i as int) =~= before + strip_from(v@, i0));
        }
    }
    assert(strip_from(v@, i as int) =~= Seq::<char>::empty());
    assert(out@ =~= out@ + Seq::<char>::empty());
    string_of(&out)
}

// ---------------------------------------------------------------------------
// Stripping what painting adds
// ---------------------------------------------------------------------------

proof fn lemma_csi_shift(x: Seq<char>, y: Seq<char>, j: int)
    requires
        0 <= j,
    ensures
        csi_end(x + y, x.len() + j) == x.len() + csi_end(y, j),
    decreases y.len() - j,
{
    let s = x + y;
    if j < y.len() {
        assert(s[x.len() + j] == y[j]);
        if !is_ascii_alpha(y[j]) {
            lemma_csi_shift(x, y, j + 1);
        }
    }
}

proof fn lemma_osc_shift(x: Seq<char>, y: Seq<char>, j: int)
    requires
        0 <= j,
    ensures
        osc_end(x + y, x.len() + j) == x.len() + osc_end(y, j),
    decreases y.len() - j,
{
    let s = x + y;
    if j < y.len() {
        assert(s[x.len() + j] == y[j]);
        if j + 1 < y.len() {
            assert(s[x.len() + j + 1] == y[j + 1]);
        }
        if y[j] != '\x07' && !(y[j] == '\x1b' && j + 1 < y.len() && y[j + 1] == '\\') {
            lemma_osc_shift(x, y, j + 1);
        }
    }
}

/// Stripping looks only forward: what comes before a position does not
/// change what is stripped from it on.
pub proof fn lemma_strip_shift(x: Seq<char>, y: Seq<char>, i: int)
    requires
        0 <= i,
    ensures
        strip_from(x + y, x.len() + i) == strip_from(y, i),
    decreases y.len() - i,
{
    let s = x + y;
    let k = x.len() + i;
    if i < y.len() {
        assert(s[k] == y[i]);
        if i + 1 < y.len() {
            assert(s[k + 1] == y[i + 1]);
        }
        if y[i] == '\x1b' && i + 1 < y.len() {
            if y[i + 1] == '[' {
                lemma_csi_shift(x, y, i + 2);
                lemma_csi_end(y, i + 2);
                lemma_strip_shift(x, y, csi_end(y, i + 2));
            } else if y[i + 1] == ']' {
                lemma_osc_shift(x, y, i + 2);
                lemma_osc_end(y, i + 2);
                lemma_strip_shift(x, y, osc_end(y, i + 2));
            } else {
                lemma_strip_shift(x, y, i + 2);
            }
        } else {
            lemma_strip_shift(x, y, i + 1);
        }
    }
}

proof fn lemma_csi_in_sgr(p: Seq<char>, rest: Seq<char>, j: int)
    requires
        sgr(p),
        2 <= j < p.len(),
    ensures
        csi_end(p + rest, j) == p.len(),
    decreases p.len() - j,
{
    let s = p + rest;
    assert(s[j] == p[j]);
    if j < p.len() - 1 {
        assert(('0' <= p[j] && p[j] <= '9') || p[j] == ';');
        lemma_csi_in_sgr(p, rest, j + 1);
    } else {
        assert(p[j] == p.last());
    }
}

/// An SGR escape at the start of a text is stripped whole.
proof fn lemma_strip_sgr(p: Seq<char>, rest: Seq<char>)
    requires
        sgr(p),
    ensures
        strip_from(p + rest, 0) == strip_from(rest, 0),
{
    let s = p + rest;
    assert(s[0] == '\x1b');
    assert(s[1] == '[');
    lemma_csi_in_sgr(p, rest, 2);
    lemma_strip_shift(p, rest, 0);
}

/// Text without escape characters is kept as it is, whatever follows.
proof fn lemma_strip_clean(t: Seq<char>, y: Seq<char>, i: int)
    requires
        0 <= i <= t.len(),
        !t.contains('\x1b'),
    ensures
        strip_from(t + y, i) == t.skip(i) + strip_from(y, 0),
    decreases t.len() - i,
{
    let s = t + y;
    if i == t.len() {
        lemma_strip_shift(t, y, 0);
        assert(t.skip(i) =~= Seq::<char>::empty());
        assert(t.skip(i) + strip_from(y, 0) =~= strip_from(y, 0));
    } else {
        assert(s[i] == t[i]);
        assert(t[i] != '\x1b') by {
            if t[i] == '\x1b' {
                assert(t.contains('\x1b'));
            }
        }
        lemma_strip_clean(t, y, i + 1);
        assert(t.skip(i) =~= seq![t[i]] + t.skip(i + 1));
    }
}

/// No escape character is left in a stripped text but, possibly, a lone
/// one at its very end (an escape with nothing after it).
proof fn lemma_strip_from_clean(s: Seq<char>, i: int)
    requires
        0 <= i,
    ensures
        forall|j: int| 0 <= j < strip_from(s, i).len() - 1 ==> #[trigger] strip_from(s, i)[j] != '\x1b',
    decreases s.len() - i,
{
    if i < s.len() {
        if s[i] == '\x1b' && i + 1 < s.len() {
            if s[i + 1] == '[' {
                lemma_csi_end(s, i + 2);
                lemma_strip_from_clean(s, csi_end(s, i + 2));
                assert(strip_from(s, i) == strip_from(s, csi_end(s, i + 2)));
            } else if s[i + 1] == ']' {
                lemma_osc_end(s, i + 2);
                lemma_strip_from_clean(s, osc_end(s, i + 2));
                assert(strip_from(s, i) == strip_from(s, osc_end(s, i + 2)));
            } else {
                lemma_strip_from_clean(s, i + 2);
                assert(strip_from(s, i) == strip_from(s, i + 2));
            }
        } else {
            lemma_strip_from_clean(s, i + 1);
            let rest = strip_from(s, i + 1);
            let r = strip_from(s, i);
            assert(r == seq![s[i]] + rest);
            if s[i] == '\x1b' {
                assert(strip_from(s, i + 1) =~= Seq::<char>::empty());
            }
            assert forall|j: int| 0 <= j < r.len() - 1 implies #[trigger] r[j] != '\x1b' by {
                if j > 0 {
                    assert(r[j] == rest[j - 1]);
                }
            }
        }
    }
}

/// A style written either without codes or with a prefix of SGR shape.
pub open spec fn prefix_known(st: Style) -> bool {
    st == plain() || sgr_prefix(crate::style::ansi_prefix(st))
}

proof fn lemma_strip_prefix_codes(p: Seq<char>, y: Seq<char>)
    requires
        sgr_prefix(p),
    ensures
        strip_from(p + y, 0) == strip_from(y, 0),
{
    if sgr(p) {
        lemma_strip_sgr(p, y);
    } else {
        let r = reset_code();
        let q = p.skip(4);
        assert(p =~= r + q);
        assert(sgr(r));
        lemma_strip_sgr(r, q + y);
        lemma_strip_sgr(q, y);
        assert(p + y =~= r + (q + y));
    }
}

/// Stripping a painted text followed by more gives the text, then the rest
/// stripped.
pub proof fn lemma_strip_painted_then(st: Style, t: Seq<char>, y: Seq<char>)
    requires
        prefix_known(st),
        !t.contains('\x1b'),
    ensures
        stripped(painted(st, t) + y) == t + stripped(y),
{
    if st == plain() {
        lemma_strip_clean(t, y, 0);
        assert(t.skip(0) =~= t);
    } else {
        let p = crate::style::ansi_prefix(st);
        let r = reset_code();
        assert(painted(st, t) + y =~= p + (t + (r + y)));
        lemma_strip_prefix_codes(p, t + (r + y));
        lemma_strip_clean(t, r + y, 0);
        assert(t.skip(0) =~= t);
        assert(sgr(r));
        lemma_strip_sgr(r, y);
    }
}

/// Painted pieces, stripped, give back their texts, whatever follows them.
pub proof fn lemma_strip_paint_all(ps: Seq<(Style, Seq<char>)>, z: Seq<char>)
    requires
        forall|j: int| 0 <= j < ps.len() ==> prefix_known((#[trigger] ps[j]).0),
        forall|j: int| 0 <= j < ps.len() ==> !(#[trigger] ps[j]).1.contains('\x1b'),
    ensures
        stripped(crate::highlight::paint_all(ps) + z) == concat(crate::highlight::piece_texts(ps))
            + stripped(z),
    decreases ps.len(),
{
    let f = |p: (Style, Seq<char>)| painted(p.0, p.1);
    if ps.len() == 0 {
        assert(ps.map_values(f) =~= Seq::<Seq<char>>::empty());
        assert(crate::highlight::piece_texts(ps) =~= Seq::<Seq<char>>::empty());
        assert(Seq::<char>::empty() + z =~= z);
    } else {
        let rest = ps.drop_first();
        assert forall|j: int| 0 <= j < rest.len() implies prefix_known((#[trigger] rest[j]).0)
            && !rest[j].1.contains('\x1b') by {
            assert(rest[j] == ps[j + 1]);
        }
        lemma_strip_paint_all(rest, z);
        assert(ps.map_values(f) =~= seq![painted(ps[0].0, ps[0].1)] + rest.map_values(f));
        crate::text::lemma_concat_front(painted(ps[0].0, ps[0].1), rest.map_values(f));
        assert(crate::highlight::piece_texts(ps) =~= seq![ps[0].1] + crate::highlight::piece_texts(
            rest,
        ));
        crate::text::lemma_concat_front(ps[0].1, crate::highlight::piece_texts(rest));
        let pr = crate::highlight::paint_all(rest);
        lemma_strip_painted_then(ps[0].0, ps[0].1, pr + z);
        assert(painted(ps[0].0, ps[0].1) + pr + z =~= painted(ps[0].0, ps[0].1) + (pr + z));
    }
}

/// Stripping escape codes twice is stripping them once.
pub proof fn law_strip_idempotent(s: Seq<char>)
    ensures
        stripped(stripped(s)) == stripped(s),
{
    let x = stripped(s);
    lemma_strip_from_clean(s, 0);
    if x.len() > 0 && x.last() == '\x1b' {
        let t = x.drop_last();
        assert(!t.contains('\x1b')) by {
            assert forall|j: int| 0 <= j < t.len() implies t[j] != '\x1b' by {
                assert(t[j] == x[j]);
            }
        }
        let e: Seq<char> = seq!['\x1b'];
        lemma_strip_clean(t, e, 0);
        assert(t + e =~= x);
        assert(t.skip(0) =~= t);
        assert(strip_from(e, 1) =~= Seq::<char>::empty());
        assert(strip_from(e, 0) =~= e);
    } else {
        assert(!x.contains('\x1b')) by {
            assert forall|j: int| 0 <= j < x.len() implies x[j] != '\x1b' by {}
        }
        law_strip_plain_text(x);
    }
}

/// Stripping escape codes gives back the text that was painted: a style's
/// prefix (an SGR escape, possibly after a reset), the text, and the reset
/// are removed down to the text, when the text holds no escape character.
pub proof fn law_strip_painted(p: Seq<char>, t: Seq<char>)
    requires
        sgr_prefix(p),
        !t.contains('\x1b'),
    ensures
        stripped(p + t + reset_code()) == t,
{
    let r = reset_code();
    assert(sgr(r));
    lemma_strip_sgr(r, seq![]);
    assert(r + seq![] =~= r);
    assert(strip_from(seq![], 0) =~= Seq::<char>::empty());
    lemma_strip_clean(t, r, 0);
    assert(t.skip(0) =~= t);
    assert(strip_from(t + r, 0) =~= t);
    if sgr(p) {
        lemma_strip_sgr(p, t + r);
        assert(p + t + r =~= p + (t + r));
    } else {
        let q = p.skip(4);
        assert(p =~= r + q);
        lemma_strip_sgr(r, q + (t + r));
        lemma_strip_sgr(q, t + r);
        assert(p + t + r =~= r + (q + (t + r)));
    }
}

/// Text without escape characters comes through stripping unchanged.
pub proof fn law_strip_plain_text(t: Seq<char>)
    requires
        !t.contains('\x1b'),
    ensures
        stripped(t) == t,
{
    lemma_strip_clean(t, seq![], 0);
    assert(t + seq![] =~= t);
    assert(strip_from(Seq::<char>::empty(), 0) =~= Seq::<char>::empty());
    assert(t.skip(0) =~= t);
    assert(t + Seq::<char>::empty() =~= t);
}

} // verus!
