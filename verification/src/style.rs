//! Terminal styles of the REPL, built with `nu_ansi_term`.
use vstd::prelude::*;
use nu_ansi_term::{Color, Style};

verus! {

#[verifier::external_type_specification]
pub struct ExStyle(Style);

#[verifier::external_type_specification]
pub struct ExColor(Color);

/// A style with no property set (`Style::new()` / `Style::default()`).
pub open spec fn plain() -> Style {
    Style {
        foreground: None,
        background: None,
        is_bold: false,
        is_dimmed: false,
        is_italic: false,
        is_underline: false,
        is_blink: false,
        is_reverse: false,
        is_hidden: false,
        is_strikethrough: false,
        prefix_with_reset: false,
    }
}

/// `Style::new` returns the style with nothing set.
pub assume_specification[ Style::new ]() -> (r: Style)
    ensures
        r == plain(),
;

/// `Style::default` returns the style with nothing set.
pub assume_specification[ <Style as core::default::Default>::default ]() -> (r: Style)
    ensures
        r == plain(),
;

/// `Style::bold` sets `is_bold` and keeps every other property.
pub assume_specification[ Style::bold ](s: &Style) -> (r: Style)
    ensures
        r == (Style { is_bold: true, ..*s }),
;

/// `Style::dimmed` sets `is_dimmed` and keeps every other property.
pub assume_specification[ Style::dimmed ](s: &Style) -> (r: Style)
    ensures
        r == (Style { is_dimmed: true, ..*s }),
;

/// `Style::underline` sets `is_underline` and keeps every other property.
pub assume_specification[ Style::underline ](s: &Style) -> (r: Style)
    ensures
        r == (Style { is_underline: true, ..*s }),
;

/// `Style::fg` sets the foreground color and keeps every other property.
pub assume_specification[ Style::fg ](s: &Style, c: Color) -> (r: Style)
    ensures
        r == (Style { foreground: Some(c), ..*s }),
;

/// `Style::on` sets the background color and keeps every other property.
pub assume_specification[ Style::on ](s: &Style, c: Color) -> (r: Style)
    ensures
        r == (Style { background: Some(c), ..*s }),
;

/// The escape codes that `nu_ansi_term` writes before text painted in a
/// style that is not plain (`Style::prefix`).
pub uninterp spec fn ansi_prefix(style: Style) -> Seq<char>;

/// `ESC [ 0 m`, which `nu_ansi_term` writes after text painted in a style
/// that is not plain.
pub open spec fn reset_code() -> Seq<char> {
    seq!['\x1b', '[', '0', 'm']
}

/// One SGR escape: `ESC [`, digits and `;`, then `m`.
pub open spec fn sgr(p: Seq<char>) -> bool {
    &&& p.len() >= 3
    &&& p[0] == '\x1b'
    &&& p[1] == '['
    &&& p.last() == 'm'
    &&& forall|i: int|
        2 <= i < p.len() - 1 ==> ('0' <= #[trigger] p[i] && p[i] <= '9') || p[i] == ';'
}

/// The shape of a style prefix: one SGR escape, possibly after a reset.
pub open spec fn sgr_prefix(p: Seq<char>) -> bool {
    sgr(p) || (p.len() >= 4 && p.take(4) == reset_code() && sgr(p.skip(4)))
}

/// What `style.paint(text).to_string()` is: the text itself for a plain
/// style, else the prefix, the text and a reset.
pub open spec fn painted(style: Style, text: Seq<char>) -> Seq<char> {
    if style == plain() {
        text
    } else {
        ansi_prefix(style) + text + reset_code()
    }
}

/// Paints `text` in `style` and renders it (`Style::paint`, then `Display`).
/// The contract restates `nu_ansi_term`'s writer: a plain style writes no
/// codes; any other writes its prefix (an optional reset, then `ESC [`,
/// codes made of digits and `;`, and `m`), the text, and `ESC [0m`. The
/// exact codes of the prefix are left to the name `ansi_prefix`.
#[verifier::external_body]
pub(crate) fn paint(style: Style, text: &str) -> (r: String)
    ensures
        r@ == painted(style, text@),
        style != plain() ==> sgr_prefix(r@.take(ansi_prefix(style).len() as int)),
{
    style.paint(text).to_string()
}

pub open spec fn dim_style() -> Style {
    Style { is_dimmed: true, ..plain() }
}

pub open spec fn bold_style() -> Style {
    Style { is_bold: true, ..plain() }
}

pub open spec fn keyword_style() -> Style {
    Style { is_bold: true, foreground: Some(Color::Magenta), ..plain() }
}

pub open spec fn type_con_style() -> Style {
    Style { foreground: Some(Color::Cyan), ..plain() }
}

pub open spec fn type_sig_style() -> Style {
    Style { foreground: Some(Color::Cyan), ..plain() }
}

pub open spec fn string_lit_style() -> Style {
    Style { foreground: Some(Color::Green), ..plain() }
}

pub open spec fn number_style() -> Style {
    Style { foreground: Some(Color::Yellow), ..plain() }
}

pub open spec fn operator_style() -> Style {
    Style { foreground: Some(Color::Blue), ..plain() }
}

pub open spec fn ghci_cmd_style() -> Style {
    Style { is_bold: true, foreground: Some(Color::Cyan), ..plain() }
}

pub open spec fn err_style() -> Style {
    Style { foreground: Some(Color::Red), ..plain() }
}

pub open spec fn warn_style() -> Style {
    Style { foreground: Some(Color::Yellow), ..plain() }
}

pub open spec fn ok_style() -> Style {
    Style { foreground: Some(Color::Green), ..plain() }
}

pub open spec fn hint_style() -> Style {
    Style { foreground: Some(Color::Cyan), ..plain() }
}

/// The style of a diagnostic of the given severity.
pub open spec fn severity_style(sev: Seq<char>) -> Style {
    if sev == "warning"@ {
        warn_style()
    } else {
        err_style()
    }
}

pub fn dim() -> (r: Style)
    ensures
        r == dim_style(),
{
    Style::new().dimmed()
}

pub fn bold() -> (r: Style)
    ensures
        r == bold_style(),
{
    Style::new().bold()
}

pub fn keyword() -> (r: Style)
    ensures
        r == keyword_style(),
{
    Style::new().bold().fg(Color::Magenta)
}

pub fn type_con() -> (r: Style)
    ensures
        r == type_con_style(),
{
    Style::new().fg(Color::Cyan)
}

pub fn type_sig() -> (r: Style)
    ensures
        r == type_sig_style(),
{
    Style::new().fg(Color::Cyan)
}

pub fn string_lit() -> (r: Style)
    ensures
        r == string_lit_style(),
{
    Style::new().fg(Color::Green)
}

pub fn number() -> (r: Style)
    ensures
        r == number_style(),
{
    Style::new().fg(Color::Yellow)
}

pub fn operator() -> (r: Style)
    ensures
        r == operator_style(),
{
    Style::new().fg(Color::Blue)
}

pub fn ghci_cmd() -> (r: Style)
    ensures
        r == ghci_cmd_style(),
{
    Style::new().bold().fg(Color::Cyan)
}

pub fn err() -> (r: Style)
    ensures
        r == err_style(),
{
    Style::new().fg(Color::Red)
}

pub fn warn() -> (r: Style)
    ensures
        r == warn_style(),
{
    Style::new().fg(Color::Yellow)
}

pub fn ok() -> (r: Style)
    ensures
        r == ok_style(),
{
    Style::new().fg(Color::Green)
}

pub fn hint() -> (r: Style)
    ensures
        r == hint_style(),
{
    Style::new().fg(Color::Cyan)
}

/// Add a vim-style match marker to a bracket: tints the background only, so
/// the bracket keeps its syntax color.
pub fn bracket_match(base: Style) -> (r: Style)
    ensures
        r == (Style { background: Some(Color::Rgb(60, 56, 80)), ..base }),
{
    base.on(Color::Rgb(60, 56, 80))
}

/// The style of a diagnostic: warnings in yellow, everything else in red.
pub fn severity(sev: &str) -> (r: Style)
    ensures
        r == severity_style(sev@),
{
    let v = crate::text::chars_of(sev);
    if crate::text::eq_str(&v, "warning") {
        warn()
    } else {
        err()
    }
}

/// An OSC 8 hyperlink around `text`.
pub fn hyperlink(url: &str, text: &str) -> (r: String)
    ensures
        r@ == "\x1b]8;;"@ + url@ + "\x1b\\"@ + text@ + "\x1b]8;;\x1b\\"@,
{
    let mut out = String::new();
    out.append("\x1b]8;;");
    out.append(url);
    out.append("\x1b\\");
    out.append(text);
    out.append("\x1b]8;;\x1b\\");
    out
}

} // verus!
