use std::time::Duration;

use ghcitty::config::Config;
use ghcitty::parse::{simple_diagnostic, DiagLocation, Diagnostic, EvalResult};
use ghcitty::render::{
    diag_header_severity, first_line_body, fuzzy_match, import_hint, render, render_bindings,
    render_passthrough, strip_ansi,
};
use ghcitty::style;

fn make_diag(severity: &str, message: &str) -> Diagnostic {
    simple_diagnostic(severity, message.to_string())
}

fn default_cfg() -> Config {
    Config {
        pretty_errors: true,
        pretty_print: true,
        show_timing: false,
        max_output_lines: 20,
        max_output_chars: 3000,
    }
}

fn raw_cfg() -> Config {
    Config {
        pretty_errors: false,
        pretty_print: false,
        show_timing: false,
        max_output_lines: 20,
        max_output_chars: 3000,
    }
}

fn timing_cfg() -> Config {
    Config {
        pretty_errors: true,
        pretty_print: true,
        show_timing: true,
        max_output_lines: 20,
        max_output_chars: 3000,
    }
}

/// The label the program prints for an evaluation's duration.
fn timing_label(d: Duration) -> String {
    let secs = d.as_secs_f64();
    if secs < 0.001 {
        "(<1ms)".to_string()
    } else if secs < 1.0 {
        format!("({:.0}ms)", secs * 1000.0)
    } else {
        format!("({:.2}s)", secs)
    }
}

#[test]
fn test_render_value_with_type() {
    let r = EvalResult {
        expr: "1+1".into(),
        type_str: Some("Integer".into()),
        value: "2".into(),
        diagnostics: vec![],
    };
    let out = render(&r, &default_cfg(), None);
    let plain = strip_ansi(&out);
    assert!(plain.contains("2"));
    assert!(plain.contains(":: Integer"));
}

#[test]
fn test_render_value_without_type() {
    let r = EvalResult {
        expr: "putStrLn \"hi\"".into(),
        type_str: None,
        value: "hi".into(),
        diagnostics: vec![],
    };
    let out = render(&r, &default_cfg(), None);
    assert!(out.contains("hi"));
    assert!(!out.contains("::"));
}

#[test]
fn test_render_error_pretty() {
    let r = EvalResult {
        expr: "foo".into(),
        type_str: None,
        value: "".into(),
        diagnostics: vec![make_diag("error", "Variable not in scope: foo")],
    };
    let out = render(&r, &default_cfg(), None);
    let plain = strip_ansi(&out);
    assert!(plain.contains("error"));
    assert!(!plain.contains('\u{2718}'));
    assert!(!plain.contains('\u{26a0}'));
}

#[test]
fn test_render_error_raw() {
    let r = EvalResult {
        expr: "foo".into(),
        type_str: None,
        value: "".into(),
        diagnostics: vec![make_diag("error", "Variable not in scope: foo")],
    };
    let out = render(&r, &raw_cfg(), None);
    let plain = strip_ansi(&out);
    assert!(plain.contains("Variable not in scope: foo"));
}

#[test]
fn test_render_error_inline_body_ghc96() {
    let d = Diagnostic {
        severity: "error".into(),
        message: "<interactive>:1:1: error: [GHC-88464] Variable not in scope: x".into(),
        location: Some(DiagLocation { line: 1, col: 1 }),
        code: Some("[GHC-88464]".into()),
        expected: None,
        actual: None,
        suggestion: None,
    };
    let r = EvalResult {
        expr: "x".into(),
        type_str: None,
        value: "".into(),
        diagnostics: vec![d],
    };
    let out = render(&r, &default_cfg(), None);
    let plain = strip_ansi(&out);
    assert!(
        plain.contains("Variable not in scope: x"),
        "missing inline body in: {plain}"
    );
}

#[test]
fn test_first_line_body_extracts_inline() {
    assert_eq!(
        first_line_body("<interactive>:1:1: error: [GHC-88464] Variable not in scope: x").as_deref(),
        Some("Variable not in scope: x")
    );
    assert_eq!(
        first_line_body("Foo.hs:9:22: warning: [GHC-12345] Unused binding").as_deref(),
        Some("Unused binding")
    );
    assert_eq!(
        first_line_body("<interactive>:1:1: error: parse error on input 'x'").as_deref(),
        Some("parse error on input 'x'")
    );
    assert_eq!(
        first_line_body("<interactive>:1:1: error: [GHC-88464]").as_deref(),
        None
    );
    assert_eq!(first_line_body("<interactive>:1:1: error:").as_deref(), None);
}

#[test]
fn test_render_error_with_expected_actual() {
    let d = Diagnostic {
        severity: "error".into(),
        message: "<interactive>:3:29: error: [GHC-83865]\n    Couldn't match\n      Expected: String\n        Actual: Int".into(),
        location: Some(DiagLocation { line: 3, col: 29 }),
        code: Some("[GHC-83865]".into()),
        expected: Some("String".into()),
        actual: Some("Int".into()),
        suggestion: None,
    };
    let r = EvalResult {
        expr: "bad".into(),
        type_str: None,
        value: "".into(),
        diagnostics: vec![d],
    };
    let out = render(&r, &default_cfg(), None);
    let plain = strip_ansi(&out);
    assert!(plain.contains("expected:"));
    assert!(plain.contains("String"));
    assert!(plain.contains("actual:"));
    assert!(plain.contains("Int"));
    assert!(plain.contains("line 3:29"));
}

#[test]
fn test_render_warning() {
    let r = EvalResult {
        expr: "x".into(),
        type_str: None,
        value: "".into(),
        diagnostics: vec![make_diag("warning", "some warning")],
    };
    let out = render(&r, &default_cfg(), None);
    assert!(out.contains(&style::warn().bold().prefix().to_string()));
}

#[test]
fn test_render_empty_value_no_output() {
    let r = EvalResult {
        expr: "putStrLn \"hi\"".into(),
        type_str: None,
        value: "".into(),
        diagnostics: vec![],
    };
    let out = render(&r, &default_cfg(), None);
    assert_eq!(out, "");
}

#[test]
fn test_render_let_binding_shows_type() {
    let r = EvalResult {
        expr: "let f x y = x + y".into(),
        type_str: Some("Num a => a -> a -> a".into()),
        value: "".into(),
        diagnostics: vec![],
    };
    let out = render(&r, &default_cfg(), None);
    let plain = strip_ansi(&out);
    assert!(plain.contains("f :: Num a => a -> a -> a"));
    assert!(out.contains(&style::dim().prefix().to_string()));
}

#[test]
fn test_render_let_binding_no_type() {
    let r = EvalResult {
        expr: "let x = 1".into(),
        type_str: None,
        value: "".into(),
        diagnostics: vec![],
    };
    let out = render(&r, &default_cfg(), None);
    assert_eq!(out, "");
}

#[test]
fn test_render_suggestion() {
    let d = Diagnostic {
        severity: "error".into(),
        message: "<interactive>:1:1: error:\n    Not in scope".into(),
        location: None,
        code: None,
        expected: None,
        actual: None,
        suggestion: Some("Perhaps you meant 'fmap'".into()),
    };
    let r = EvalResult {
        expr: "fma".into(),
        type_str: None,
        value: "".into(),
        diagnostics: vec![d],
    };
    let out = render(&r, &default_cfg(), None);
    let plain = strip_ansi(&out);
    assert!(plain.contains("Perhaps you meant"));
    assert!(out.contains(&style::hint().prefix().to_string()));
}

#[test]
fn test_render_timing() {
    let r = EvalResult {
        expr: "1+1".into(),
        type_str: Some("Integer".into()),
        value: "2".into(),
        diagnostics: vec![],
    };
    let d = Duration::from_millis(42);
    let label = timing_label(d);
    let out = render(&r, &timing_cfg(), Some(&label));
    let plain = strip_ansi(&out);
    assert!(plain.contains("42ms"));
}

#[test]
fn test_render_timing_slow() {
    let r = EvalResult {
        expr: "1+1".into(),
        type_str: Some("Integer".into()),
        value: "2".into(),
        diagnostics: vec![],
    };
    let d = Duration::from_secs_f64(1.5);
    let label = timing_label(d);
    let out = render(&r, &timing_cfg(), Some(&label));
    let plain = strip_ansi(&out);
    assert!(plain.contains("1.50s"));
}

#[test]
fn test_render_timing_off_by_default() {
    let r = EvalResult {
        expr: "1+1".into(),
        type_str: Some("Integer".into()),
        value: "2".into(),
        diagnostics: vec![],
    };
    let d = Duration::from_millis(42);
    let label = timing_label(d);
    let out = render(&r, &default_cfg(), Some(&label));
    let plain = strip_ansi(&out);
    assert!(!plain.contains("ms"));
}

#[test]
fn test_render_truncation() {
    let long_value = (0..50)
        .map(|i| format!("line {i}"))
        .collect::<Vec<_>>()
        .join("\n");
    let r = EvalResult {
        expr: "big".into(),
        type_str: None,
        value: long_value,
        diagnostics: vec![],
    };
    let out = render(&r, &default_cfg(), None);
    let plain = strip_ansi(&out);
    assert!(plain.contains("... (30 more lines)"));
    assert!(plain.contains("line 0"));
    assert!(plain.contains("line 19"));
    assert!(!plain.contains("line 20"));
}

#[test]
fn test_import_hint_sort() {
    let d = Diagnostic {
        severity: "error".into(),
        message: "Variable not in scope: sort".into(),
        location: None,
        code: None,
        expected: None,
        actual: None,
        suggestion: None,
    };
    let r = EvalResult {
        expr: "sort [3,1,2]".into(),
        type_str: None,
        value: "".into(),
        diagnostics: vec![d],
    };
    let out = render(&r, &default_cfg(), None);
    let plain = strip_ansi(&out);
    assert!(plain.contains("try: :m + Data.List"));
}

#[test]
fn test_no_import_hint_for_known() {
    let d = make_diag("error", "Variable not in scope: myCustomFunc");
    let hint = import_hint(&d);
    assert!(hint.is_none());
}

#[test]
fn passthrough_does_not_haskell_highlight_errors() {
    let raw = "[1 of 1] Compiling Main             ( Foo.hs, interpreted )\n\
               Foo.hs:9:22: error: [GHC-83865]\n    \
               \u{2022} Couldn't match type \u{2018}[Char]\u{2019} with \u{2018}Int\u{2019}\n      \
               Expected: Int\n        \
               Actual: [Char]\nFailed, no modules loaded.\n";
    let out = render_passthrough(raw);
    let kw_prefix = style::keyword().prefix().to_string();
    assert!(
        !out.contains(&kw_prefix),
        "passthrough error output should not be keyword-highlighted: {out:?}"
    );
    let type_prefix = style::type_con().prefix().to_string();
    assert!(
        !out.contains(&type_prefix),
        "passthrough error output should not be type-highlighted: {out:?}"
    );
    let plain = strip_ansi(&out);
    assert!(plain.contains("Couldn't match type"));
    assert!(plain.contains("[1 of 1] Compiling Main"));
    assert!(plain.contains("Failed, no modules loaded."));
}

#[test]
fn passthrough_still_highlights_haskell_lines() {
    let raw = "data Maybe a = Nothing | Just a\n";
    let out = render_passthrough(raw);
    let kw_prefix = style::keyword().prefix().to_string();
    assert!(
        out.contains(&kw_prefix),
        "passthrough should highlight real Haskell: {out:?}"
    );
}

#[test]
fn diag_header_detects_file_location() {
    assert_eq!(
        diag_header_severity("Foo.hs:9:22: error: [GHC-83865]"),
        Some("error")
    );
    assert_eq!(
        diag_header_severity("<interactive>:1:1: warning:"),
        Some("warning")
    );
    assert_eq!(diag_header_severity("error: something"), Some("error"));
    assert_eq!(diag_header_severity("    Real error: in body"), None);
    assert_eq!(
        diag_header_severity("data Maybe a = Nothing | Just a"),
        None
    );
}

#[test]
fn render_char_limit_cuts_at_a_break() {
    let cfg = Config {
        pretty_errors: true,
        pretty_print: false,
        show_timing: false,
        max_output_lines: 0,
        max_output_chars: 10,
    };
    let r = EvalResult {
        expr: "s".into(),
        type_str: None,
        value: "aaaa bbbb cccc dddd".into(),
        diagnostics: vec![],
    };
    let plain = strip_ansi(&render(&r, &cfg, None));
    assert!(plain.starts_with("aaaa bbbb\n"), "got {plain:?}");
    assert!(plain.contains("... (10 more chars)"), "got {plain:?}");
}

#[test]
fn render_zero_limits_show_everything() {
    let cfg = Config {
        pretty_errors: true,
        pretty_print: false,
        show_timing: false,
        max_output_lines: 0,
        max_output_chars: 0,
    };
    let long_value = (0..80).map(|i| format!("line {i}")).collect::<Vec<_>>().join("\n");
    let r = EvalResult {
        expr: "big".into(),
        type_str: None,
        value: long_value.clone(),
        diagnostics: vec![],
    };
    let plain = strip_ansi(&render(&r, &cfg, None));
    assert!(plain.contains("line 79"));
    assert!(!plain.contains("more lines"));
}

#[test]
fn strip_ansi_removes_codes_and_links() {
    assert_eq!(strip_ansi("\x1b[1;31mred\x1b[0m plain"), "red plain");
    assert_eq!(
        strip_ansi("\x1b]8;;https://x\x1b\\link\x1b]8;;\x1b\\"),
        "link"
    );
    assert_eq!(strip_ansi(&style::dim().paint("quiet").to_string()), "quiet");
    assert_eq!(strip_ansi("no codes"), "no codes");
}

#[test]
fn bindings_fuzzy_filter() {
    assert!(fuzzy_match("fuzzy", "fzy"));
    assert!(fuzzy_match("anything", ""));
    assert!(!fuzzy_match("fuzzy", "yz"));
    let out = "xs :: [Int] = [1,2]\nfoo :: Int -> Int = <fun>\n";
    let plain = strip_ansi(&render_bindings(out, Some("fo")));
    assert!(plain.contains("foo"));
    assert!(!plain.contains("xs"));
}
