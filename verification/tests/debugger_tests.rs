use ghcitty::debugger::{
    col_span, is_location_echo, is_step_or_continue, observe, parse_local, render_frame,
    source_lines, strip_location_echo, DebuggerState,
};

#[test]
fn parses_simple_stop() {
    let out = "Stopped in Main.doThing, /tmp/Foo.hs:42:7-19\n_result :: Int = _\nn :: Int = 5\n";
    let f = observe(out).expect("frame");
    assert_eq!(f.function, "Main.doThing");
    assert_eq!(f.file, "/tmp/Foo.hs");
    assert_eq!(f.line, 42);
    assert_eq!(f.col_start, 7);
    assert_eq!(f.col_end, 19);
    assert_eq!(f.locals.len(), 2);
    assert_eq!(f.locals[0].name, "_result");
    assert_eq!(f.locals[0].value, "_");
    assert_eq!(f.locals[1].name, "n");
    assert_eq!(f.locals[1].value, "5");
}

#[test]
fn parses_multiline_paren_span() {
    let out = "Stopped in Main.doThing, /tmp/Foo.hs:(42,7)-(43,9)\n";
    let f = observe(out).expect("frame");
    assert_eq!(f.line, 42);
    assert_eq!(f.col_start, 7);
    assert_eq!(f.col_end, usize::MAX);
}

#[test]
fn parses_single_line_paren_span() {
    let out = "Stopped in Main.doThing, /tmp/Foo.hs:(42,7)-(42,19)\n";
    let f = observe(out).expect("frame");
    assert_eq!(f.line, 42);
    assert_eq!(f.col_start, 7);
    assert_eq!(f.col_end, 19);
}

#[test]
fn parses_point_span() {
    let out = "Stopped in Main.go, /a/b/C.hs:1:1\n";
    let f = observe(out).expect("frame");
    assert_eq!(f.line, 1);
    assert_eq!(f.col_start, 1);
    assert_eq!(f.col_end, 1);
}

#[test]
fn no_stop_returns_none() {
    assert!(observe("hello\nworld\n").is_none());
}

#[test]
fn col_span_formats() {
    assert_eq!(col_span(10, 25), "10-25");
    assert_eq!(col_span(7, 7), "7");
    assert_eq!(col_span(7, usize::MAX), "7");
    assert_eq!(col_span(10, 5), "10");
}

#[test]
fn parses_local_with_function_type() {
    let l = parse_local("f :: Int -> Int = <fun>").unwrap();
    assert_eq!(l.name, "f");
    assert_eq!(l.ty.as_deref(), Some("Int -> Int"));
    assert_eq!(l.value, "<fun>");
}

#[test]
fn parses_thunk_local() {
    let l = parse_local("xs :: [Int] = _").unwrap();
    assert_eq!(l.name, "xs");
    assert_eq!(l.value, "_");
}

#[test]
fn strips_location_echo() {
    assert!(is_location_echo("[Foo.hs:42:7-19]"));
    assert!(is_location_echo("[/tmp/Bar.hs:1:1]"));
    assert!(is_location_echo("[Demo.hs:(3,5)-(4,7)]"));
    assert!(!is_location_echo("[1, 2, 3]"));
    assert!(!is_location_echo("[]"));
    assert!(!is_location_echo("plain text"));

    let cleaned = strip_location_echo("first\n[Foo.hs:1:2-3]\nsecond\n");
    assert_eq!(cleaned, "first\nsecond\n");
}

#[test]
fn step_or_continue_detection() {
    assert!(is_step_or_continue(":c"));
    assert!(is_step_or_continue(":continue"));
    assert!(is_step_or_continue(":step"));
    assert!(is_step_or_continue(":steplocal"));
    assert!(is_step_or_continue(":abandon"));
    assert!(!is_step_or_continue(":print xs"));
    assert!(!is_step_or_continue("n + 1"));
}

#[test]
fn debugger_cache_reads_back_what_was_stored() {
    let mut d = DebuggerState::new();
    assert!(d.needs_reload("/a.hs", 1));
    d.store("/a.hs".to_string(), 1, source_lines("x = 1\ny = 2\n"));
    d.store("/b.hs".to_string(), 7, source_lines("z = 3"));
    assert!(!d.needs_reload("/a.hs", 1));
    assert!(d.needs_reload("/a.hs", 2));
    assert_eq!(d.source("/a.hs").unwrap(), &vec!["x = 1".to_string(), "y = 2".to_string()]);
    d.store("/a.hs".to_string(), 2, source_lines("x = 10"));
    assert_eq!(d.source("/a.hs").unwrap(), &vec!["x = 10".to_string()]);
    // Storing one file leaves the others as they were.
    assert_eq!(d.source("/b.hs").unwrap(), &vec!["z = 3".to_string()]);
    assert!(d.source("/c.hs").is_none());
}

#[test]
fn render_frame_shows_source_and_locals() {
    let raw = "Stopped in Fact.fact, /work/Fact.hs:2:1-26\n_result :: Int = _\nn :: Int = 3\n";
    let frame = observe(raw).expect("frame");
    let mut d = DebuggerState::new();
    d.store(
        "/work/Fact.hs".to_string(),
        1,
        source_lines("module Fact where\nfact n = if n <= 1 then 1 else n * fact (n - 1)\n"),
    );
    let out = render_frame(&frame, &d, Some("/work"));
    let plain = ghcitty::render::strip_ansi(&out);
    assert!(plain.contains("break"));
    assert!(plain.contains("locals"));
    assert!(plain.contains("Fact.fact"));
    assert!(plain.contains("fact n = if n <= 1"));
    // The file is shown relative to the working directory.
    assert!(plain.contains("Fact.hs:2:1-26"), "got {plain}");
    assert!(!plain.contains("/work/Fact.hs"), "got {plain}");
}

#[test]
fn paren_span_splits_at_last_colon_paren() {
    let out = "Stopped in M.f, /x:(y)/F.hs:(3,1)-(4,2)\n";
    let f = observe(out).expect("frame");
    assert_eq!(f.function, "M.f");
    assert_eq!(f.file, "/x:(y)/F.hs");
    assert_eq!(f.line, 3);
    assert_eq!(f.col_start, 1);
    assert_eq!(f.col_end, usize::MAX);
    assert!(f.locals.is_empty());
}
