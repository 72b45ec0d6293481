use ghcitty::ghc::{
    command_lines, complete_query, eval_begin, eval_output, eval_step, is_sentinel_line,
    launch_command, module_paths, parse_completions, passthrough_output, project_mode,
    holds_sentinel, relay_begin, relay_step, reload_needed, type_answer, type_query, version_text, EvalPhase,
    EvalStep, LaunchMode, RelayAction, RelayEvent, RelayPhase,
};
use ghcitty::error::Error;
use ghcitty::parse::SENTINEL;

fn names(v: &[&str]) -> Vec<String> {
    v.iter().map(|s| s.to_string()).collect()
}

#[test]
fn detects_stack_at_root() {
    assert_eq!(project_mode(true, false, &names(&["stack.yaml"])), Some(LaunchMode::Stack));
}

#[test]
fn detects_cabal_project_at_root() {
    assert_eq!(
        project_mode(false, true, &names(&["cabal.project"])),
        Some(LaunchMode::Cabal)
    );
}

#[test]
fn detects_bare_cabal_file() {
    assert_eq!(project_mode(false, false, &names(&["foo.cabal"])), Some(LaunchMode::Cabal));
}

#[test]
fn does_not_walk_up_from_subdir() {
    // The nested directory itself holds no marker file.
    assert_eq!(project_mode(false, false, &names(&[])), None);
}

#[test]
fn stack_wins_over_cabal_at_same_level() {
    assert_eq!(
        project_mode(true, false, &names(&["stack.yaml", "foo.cabal"])),
        Some(LaunchMode::Stack)
    );
}

#[test]
fn no_project_returns_none() {
    assert_eq!(project_mode(false, false, &names(&["README.md", ".cabal"])), None);
}

#[test]
fn launch_commands_forward_extra_args() {
    let (p, a) = launch_command(LaunchMode::Stack, "ghci", &names(&["--flag", "mypkg:dev"]));
    assert_eq!(p, "stack");
    assert_eq!(a, vec!["ghci", "--ghci-options=-v0", "--flag", "mypkg:dev"]);
    let (p, a) = launch_command(LaunchMode::Plain, "/usr/bin/ghci", &names(&["-package", "text"]));
    assert_eq!(p, "/usr/bin/ghci");
    assert_eq!(a, vec!["-v0", "-package", "text"]);
    let (p, a) = launch_command(LaunchMode::Cabal, "ghci", &names(&[]));
    assert_eq!(p, "cabal");
    assert_eq!(a, vec!["repl", "--repl-options=-v0"]);
}

#[test]
fn multi_line_commands_are_wrapped() {
    assert_eq!(command_lines("1 + 1"), vec!["1 + 1"]);
    assert_eq!(command_lines("f x =\n  x"), vec![":{", "f x =", "  x", ":}"]);
}

#[test]
fn sentinel_line_detection() {
    assert!(is_sentinel_line("___GHCITTY_SENTINEL___\n"));
    assert!(is_sentinel_line("___GHCITTY_SENTINEL___\r\n"));
    assert!(!is_sentinel_line("x ___GHCITTY_SENTINEL___\n"));
}

#[test]
fn type_round() {
    assert_eq!(type_query("map"), ":type map");
    assert_eq!(type_answer("map :: (a -> b) -> [a] -> [b]\n").as_deref(), Some("(a -> b) -> [a] -> [b]"));
}

#[test]
fn eval_output_falls_back_to_stderr() {
    let (v, d) = eval_output("42", &vec![]);
    assert_eq!(v, "42");
    assert!(d.is_empty());
    let (v, d) = eval_output("", &vec!["*** Exception: boom".to_string()]);
    assert_eq!(v, "");
    assert_eq!(d.len(), 1);
    assert_eq!(d[0].severity, "error");
    assert_eq!(d[0].message, "*** Exception: boom");
    let (_, d) = eval_output("", &vec!["   ".to_string()]);
    assert!(d.is_empty());
}

#[test]
fn evaluation_steps_for_an_expression() {
    let step = eval_begin("1 + 1");
    let ev = match step {
        EvalStep::Query(ev, q) => {
            assert_eq!(q, ":type 1 + 1");
            assert_eq!(ev.phase, EvalPhase::TypeAsked);
            ev
        }
        other => panic!("unexpected {other:?}"),
    };
    let ev = match eval_step(ev, "it :: Integer", &vec![]) {
        EvalStep::Run(ev, cmd) => {
            assert_eq!(cmd, "1 + 1");
            ev
        }
        other => panic!("unexpected {other:?}"),
    };
    match eval_step(ev, "2", &vec![]) {
        EvalStep::Done(r) => {
            assert_eq!(r.expr, "1 + 1");
            assert_eq!(r.type_str.as_deref(), Some("Integer"));
            assert_eq!(r.value, "2");
            assert!(r.diagnostics.is_empty());
        }
        other => panic!("unexpected {other:?}"),
    }
}

#[test]
fn evaluation_steps_for_a_binding() {
    let ev = match eval_begin("let f x = x") {
        EvalStep::Run(ev, cmd) => {
            assert_eq!(cmd, "let f x = x");
            ev
        }
        other => panic!("unexpected {other:?}"),
    };
    let ev = match eval_step(ev, "", &vec![]) {
        EvalStep::Query(ev, q) => {
            assert_eq!(q, ":type f");
            ev
        }
        other => panic!("unexpected {other:?}"),
    };
    match eval_step(ev, "f :: p -> p", &vec![]) {
        EvalStep::Done(r) => assert_eq!(r.type_str.as_deref(), Some("p -> p")),
        other => panic!("unexpected {other:?}"),
    }
}

#[test]
fn completions_and_queries() {
    assert_eq!(complete_query("say \"hi"), ":complete repl \"say \\\"hi\"");
    assert_eq!(complete_query("a\nfo"), ":complete repl \"fo\"");
    assert_eq!(
        parse_completions("2 2 \"\"\n\"foldr\"\n\"foldl\"\nnoise"),
        vec!["foldr", "foldl"]
    );
}

#[test]
fn passthrough_and_version() {
    assert_eq!(passthrough_output("  ok  ", &vec!["warn".to_string()]), "ok\nwarn");
    assert_eq!(passthrough_output("", &vec!["warn".to_string()]), "warn");
    assert_eq!(version_text("\"9.6.7\"\n"), "9.6.7");
    assert_eq!(version_text("   "), "unknown");
}

#[test]
fn loaded_module_paths() {
    let raw = "Main             ( /w/Main.hs, interpreted )\nLib ( src/Lib.hs, interpreted )\njunk";
    assert_eq!(module_paths(raw), vec!["/w/Main.hs", "src/Lib.hs"]);
}

#[test]
fn reload_when_a_file_is_newer() {
    assert!(!reload_needed(&vec![]));
    assert!(!reload_needed(&vec![(5, Some(5)), (7, None)]));
    assert!(reload_needed(&vec![(5, Some(5)), (7, Some(8))]));
}

#[test]
fn quick_command_finishes_quietly() {
    let r = relay_begin();
    let (r, a) = relay_step(r, RelayEvent::Line("42\n".to_string()));
    assert!(matches!(a, RelayAction::Wait));
    let (r, a) = relay_step(r, RelayEvent::Line(format!("{SENTINEL}\r\n")));
    assert!(matches!(a, RelayAction::Finish(false)));
    assert_eq!(r.output, "42\n");
    assert_eq!(r.phase, RelayPhase::Quiet);
}

#[test]
fn slow_command_goes_live_and_forwards_input() {
    let r = relay_begin();
    let (r, _) = relay_step(r, RelayEvent::Line("name? ".to_string()));
    let (r, a) = relay_step(r, RelayEvent::QuietOver);
    match a {
        RelayAction::Show(s) => assert_eq!(s, "name? "),
        other => panic!("unexpected {other:?}"),
    }
    assert_eq!(r.phase, RelayPhase::Live);
    let (r, a) = relay_step(r, RelayEvent::Typed("Ada  \n".to_string()));
    match a {
        RelayAction::Send(s) => assert_eq!(s, "Ada\n"),
        other => panic!("unexpected {other:?}"),
    }
    let (r, a) = relay_step(r, RelayEvent::Typed(String::new()));
    assert!(matches!(a, RelayAction::Wait));
    let (r, a) = relay_step(r, RelayEvent::Line("hi Ada\n".to_string()));
    match a {
        RelayAction::Show(s) => assert_eq!(s, "hi Ada\n"),
        other => panic!("unexpected {other:?}"),
    }
    let (r, a) = relay_step(r, RelayEvent::Line(format!("{SENTINEL}\n")));
    assert!(matches!(a, RelayAction::Finish(true)));
    assert_eq!(r.output, "name? hi Ada\n");
}

#[test]
fn typing_before_live_is_ignored() {
    let (r, a) = relay_step(relay_begin(), RelayEvent::Typed("x\n".to_string()));
    assert!(matches!(a, RelayAction::Wait));
    assert_eq!(r.phase, RelayPhase::Quiet);
    assert_eq!(r.output, "");
}

#[test]
fn closed_output_fails_the_command() {
    let (_, a) = relay_step(relay_begin(), RelayEvent::Closed);
    match a {
        RelayAction::Fail(Error::Ghc(m)) => assert_eq!(m, "ghci process exited unexpectedly"),
        other => panic!("unexpected {other:?}"),
    }
}

#[test]
fn startup_sentinel_found_after_other_text() {
    assert!(holds_sentinel(&format!("GHCi, version 9.6.7  {SENTINEL}\n")));
    assert!(!holds_sentinel("Loaded package environment\n"));
}
