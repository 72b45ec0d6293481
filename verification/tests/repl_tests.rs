use ghcitty::config::Config;
use ghcitty::ghc::LaunchMode;
use ghcitty::repl::{
    banner_suffix, classify, config_command, config_kind, dedent, is_set_prompt, prepare_input,
    shell_output, undo_keep, ConfigKind, ConfigReply, ReplCommand,
};

#[test]
fn set_prompt_detected() {
    assert!(is_set_prompt(":set prompt"));
    assert!(is_set_prompt(":set prompt foo"));
    assert!(is_set_prompt(":set prompt \"ghci> \""));
    assert!(is_set_prompt(":set prompt-cont"));
    assert!(is_set_prompt(":set prompt-cont \"  \""));
    assert!(is_set_prompt(
        ":set prompt-function (\\_ _ -> return \"%\")"
    ));
    assert!(is_set_prompt(":seti prompt foo"));
}

#[test]
fn other_set_passes_through() {
    assert!(!is_set_prompt(":set -fwarn-unused-imports"));
    assert!(!is_set_prompt(":set +s"));
    assert!(!is_set_prompt(":set"));
    assert!(!is_set_prompt(":load Foo.hs"));
    assert!(!is_set_prompt("prompt = 1"));
    assert!(!is_set_prompt(":show prompt"));
}

#[test]
fn config_kinds() {
    assert_eq!(config_kind("pretty_print"), Some(ConfigKind::Bool));
    assert_eq!(config_kind("max_output_chars"), Some(ConfigKind::Number));
    assert_eq!(config_kind("max-output-chars"), None);
    assert_eq!(config_kind("colour"), None);
}

#[test]
fn dedent_common_indent() {
    assert_eq!(dedent("\n\n    f x =\n      x + 1\n\n"), "f x =\n  x + 1");
    assert_eq!(dedent("   \n  \n"), "");
    assert_eq!(dedent("a\n  b"), "a\n  b");
    assert_eq!(dedent("    a\n\n    b"), "a\n\nb");
}

#[test]
fn prepare_block_and_plain_input() {
    assert_eq!(prepare_input(":{\n  let f x =\n        x + 1\n:}"), "let f x =\n      x + 1");
    assert_eq!(prepare_input("   1 + 1   "), "1 + 1");
    assert_eq!(prepare_input("  \n "), "");
}

#[test]
fn classify_commands() {
    assert_eq!(classify(""), ReplCommand::Empty);
    assert_eq!(classify("/"), ReplCommand::Bindings(None));
    assert_eq!(classify("/fo"), ReplCommand::Bindings(Some("fo".to_string())));
    assert_eq!(classify(":/"), ReplCommand::Bindings(None));
    assert_eq!(classify(":/fo"), ReplCommand::Bindings(Some("fo".to_string())));
    assert_eq!(classify("/= 3"), ReplCommand::Eval);
    assert_eq!(classify(":q"), ReplCommand::Quit);
    assert_eq!(classify(":quit"), ReplCommand::Quit);
    assert_eq!(classify(":set prompt x"), ReplCommand::SetPrompt);
    assert_eq!(classify(":config"), ReplCommand::ConfigList);
    assert_eq!(classify(":config_show_timing"), ReplCommand::ConfigKey);
    assert_eq!(classify(":undo"), ReplCommand::Undo(1));
    assert_eq!(classify(":undo 3"), ReplCommand::Undo(3));
    assert_eq!(classify(":undo x"), ReplCommand::Undo(1));
    assert_eq!(classify(":scratch"), ReplCommand::Scratch);
    assert_eq!(classify(":e"), ReplCommand::Edit);
    assert_eq!(classify(":edit"), ReplCommand::Edit);
    assert_eq!(classify(":doc  map "), ReplCommand::Doc("map".to_string()));
    assert_eq!(classify(":hoogle [a] -> [a]"), ReplCommand::Hoogle("[a] -> [a]".to_string()));
    assert_eq!(classify(":!ls"), ReplCommand::Shell);
    assert_eq!(classify(":load Foo.hs"), ReplCommand::Passthrough(true));
    assert_eq!(classify(":reload"), ReplCommand::Passthrough(true));
    assert_eq!(classify(":add Bar"), ReplCommand::Passthrough(true));
    assert_eq!(classify(":type map"), ReplCommand::Passthrough(false));
    assert_eq!(classify("1 + 1"), ReplCommand::Eval);
}

#[test]
fn config_command_toggles_sets_and_shows() {
    let mut c = Config::default();
    match config_command(":config_pretty_print", &mut c) {
        ConfigReply::Changed { command, key, value } => {
            assert_eq!(command, ":config_pretty_print");
            assert_eq!(key, "pretty_print");
            assert_eq!(value, "false");
        }
        other => panic!("unexpected {other:?}"),
    }
    assert!(!c.pretty_print);
    config_command(":config_pretty_print", &mut c);
    assert!(c.pretty_print);
    match config_command(":config_max_output_lines 200", &mut c) {
        ConfigReply::Changed { value, .. } => assert_eq!(value, "200"),
        other => panic!("unexpected {other:?}"),
    }
    assert_eq!(c.max_output_lines, 200);
    match config_command(":config_max_output_lines", &mut c) {
        ConfigReply::Shown { key, value, .. } => {
            assert_eq!(key, "max_output_lines");
            assert_eq!(value, "200");
        }
        other => panic!("unexpected {other:?}"),
    }
    assert_eq!(
        config_command(":config_max_output_lines lots", &mut c),
        ConfigReply::Rejected("expected a number, got 'lots'".to_string())
    );
    assert_eq!(
        config_command(":config_colour on", &mut c),
        ConfigReply::UnknownKey("colour".to_string())
    );
    assert_eq!(config_command(":config_", &mut c), ConfigReply::MissingKey);
    assert_eq!(c.max_output_lines, 200);
}

#[test]
fn undo_keeps_the_first_expressions() {
    let es: Vec<String> = vec!["a".into(), "b".into(), "c".into()];
    assert_eq!(undo_keep(&es, 1), vec!["a", "b"]);
    assert_eq!(undo_keep(&es, 0), vec!["a", "b", "c"]);
    assert!(undo_keep(&es, 5).is_empty());
}

#[test]
fn shell_output_joins_streams() {
    assert_eq!(shell_output("out", &vec!["e1".into(), "e2".into()]), "out\ne1\ne2");
    assert_eq!(shell_output("out\n", &vec!["e".into()]), "out\ne");
    assert_eq!(shell_output("", &vec!["e".into()]), "e");
    assert_eq!(shell_output("only", &vec![]), "only");
}

#[test]
fn banner_names_the_launcher() {
    assert_eq!(banner_suffix("9.6.7", LaunchMode::Plain), "(GHC 9.6.7)");
    assert_eq!(
        banner_suffix("9.6.7", LaunchMode::Cabal),
        "(GHC 9.6.7, via cabal repl)"
    );
}
