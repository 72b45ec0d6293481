use ghcitty::parse::EvalResult;
use ghcitty::session::{data_dir, history_path, session_file_name, sessions_dir, Session, MAX_LINES};

fn append_record(content: &mut String, r: &EvalResult) {
    for l in Session::record_lines(r) {
        content.push_str(&l);
        content.push('\n');
    }
}

#[test]
fn test_record_and_replay() {
    let mut content = String::new();
    append_record(
        &mut content,
        &EvalResult {
            expr: "map (+1) [1,2,3]".into(),
            type_str: Some("[Integer]".into()),
            value: "[2,3,4]".into(),
            diagnostics: vec![],
        },
    );
    append_record(
        &mut content,
        &EvalResult {
            expr: "1 + 1".into(),
            type_str: Some("Integer".into()),
            value: "2".into(),
            diagnostics: vec![],
        },
    );
    let exprs = Session::replay_from(&content);
    assert_eq!(exprs, vec!["map (+1) [1,2,3]", "1 + 1"]);
    assert!(content.contains("-- \u{03bb}> map (+1) [1,2,3]"));
    assert!(content.contains("-- [2,3,4] :: [Integer]"));
}

#[test]
fn test_soft_trim() {
    let mut content = String::new();
    for i in 0..MAX_LINES {
        content.push_str(&format!("-- \u{03bb}> expr_{i}\n"));
    }
    let mut session = Session::open("/tmp/test-trim.hs".to_string(), Some(&content));
    assert!(session.needs_trim());
    let mut new_content = Session::trimmed(&content).expect("trimmed");
    session.note_trimmed();
    append_record(
        &mut new_content,
        &EvalResult {
            expr: "final".into(),
            type_str: None,
            value: "done".into(),
            diagnostics: vec![],
        },
    );
    assert!(new_content.contains("trimmed at"));
    assert!(new_content.lines().count() < MAX_LINES);
    assert!(new_content.contains("-- \u{03bb}> final"));
}

#[test]
fn test_symlink_created() {
    let name = session_file_name(Some("test-symlink"), 0);
    assert!(name.contains("test-symlink.hs"));
}

#[test]
fn session_file_names_and_paths() {
    assert_eq!(session_file_name(None, 1700000000), "session-1700000000.hs");
    assert_eq!(data_dir(Some("/x"), Some("/home/u")), "/x");
    assert_eq!(data_dir(None, Some("/home/u")), "/home/u/.local/share");
    assert_eq!(data_dir(None, None), ".ghcitty");
    assert_eq!(sessions_dir("/x"), "/x/ghcitty");
    assert_eq!(history_path("/x"), "/x/ghcitty/history");
}

#[test]
fn rewrite_then_replay_gives_back_expressions() {
    let es: Vec<String> = vec!["let x = 1".into(), "x + 1".into(), ":t x".into()];
    let text = Session::rewrite_text(&es);
    assert_eq!(text, "-- \u{03bb}> let x = 1\n-- \u{03bb}> x + 1\n-- \u{03bb}> :t x\n");
    assert_eq!(Session::replay_from(&text), es);
}

#[test]
fn record_lines_with_diagnostics() {
    let r = EvalResult {
        expr: "foo".into(),
        type_str: None,
        value: "".into(),
        diagnostics: vec![ghcitty::parse::simple_diagnostic("error", "not in scope".into())],
    };
    assert_eq!(
        Session::record_lines(&r),
        vec!["-- \u{03bb}> foo", "-- [error] not in scope", ""]
    );
}
