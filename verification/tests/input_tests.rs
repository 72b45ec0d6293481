use ghcitty::input::{
    completion_word, hint_from_completions, hint_lookup, is_incomplete, next_hint_token,
    types_shown, with_own_commands, GhciPrompt, HaskellHighlighter, HaskellValidator, HintLookup,
    TYPED_LIST_MAX,
};

#[test]
fn test_balanced_parens() {
    assert!(!is_incomplete("map (+1) [1,2,3]"));
}

#[test]
fn test_unbalanced_paren() {
    assert!(is_incomplete("map (+1) [1,2,3"));
}

#[test]
fn test_unbalanced_brace() {
    assert!(is_incomplete("let { x = 1"));
}

#[test]
fn test_do_continuation() {
    assert!(is_incomplete("main = do"));
}

#[test]
fn test_where_continuation() {
    assert!(is_incomplete("f x = g x where"));
}

#[test]
fn test_arrow_continuation() {
    assert!(is_incomplete("f = \\x ->"));
}

#[test]
fn test_equals_continuation() {
    assert!(is_incomplete("f x ="));
}

#[test]
fn test_comma_continuation() {
    assert!(is_incomplete("[1,2,"));
}

#[test]
fn test_backslash_continuation() {
    assert!(is_incomplete("longExpr \\"));
}

#[test]
fn test_complete_let() {
    assert!(!is_incomplete("let x = 1"));
}

#[test]
fn test_complete_multiline() {
    assert!(!is_incomplete("let x = 1\n    y = 2\nin x + y"));
}

#[test]
fn test_unclosed_string() {
    assert!(is_incomplete("putStrLn \"hello"));
}

#[test]
fn test_closed_string() {
    assert!(!is_incomplete("putStrLn \"hello\""));
}

#[test]
fn test_string_with_escaped_quote() {
    assert!(!is_incomplete(r#"putStrLn "say \"hi\"""#));
}

#[test]
fn test_comment_doesnt_count() {
    assert!(!is_incomplete("1 + 1 -- this is (unbalanced"));
}

#[test]
fn test_block_comment() {
    assert!(!is_incomplete("{- ( -} 1 + 1"));
}

#[test]
fn test_empty() {
    assert!(!is_incomplete(""));
}

#[test]
fn test_colon_command_not_incomplete() {
    assert!(!is_incomplete(":type map"));
}

#[test]
fn test_dollar_continuation() {
    assert!(is_incomplete("putStrLn $"));
}

#[test]
fn test_pipe_continuation() {
    assert!(is_incomplete("x |"));
}

#[test]
fn test_case_of() {
    assert!(is_incomplete("case x of"));
}

#[test]
fn test_then_else() {
    assert!(is_incomplete("if True then"));
    assert!(is_incomplete("if True then 1 else"));
}

#[test]
fn test_concat_continuation() {
    assert!(is_incomplete("[1,2] ++"));
}

#[test]
fn test_blank_line_submits() {
    assert!(!is_incomplete("f x =\n  x + 1\n\n"));
    assert!(!is_incomplete("f x =\n  x + 1\n"));
    assert!(!is_incomplete("let f x y =\n    x + y + 15\n"));
}

#[test]
fn block_waits_for_close() {
    assert!(is_incomplete(":{\nlet x = 1"));
    assert!(!is_incomplete(":{\nlet x = 1\n:}"));
    assert!(HaskellValidator.validate(":{"));
    assert!(!HaskellValidator.validate("1 + 1"));
}

#[test]
fn prompt_texts() {
    let p = GhciPrompt { json_mode: false };
    assert_eq!(p.render_prompt_left(), "\u{03bb}>");
    assert_eq!(p.render_prompt_indicator(), " ");
    assert_eq!(p.render_prompt_multiline_indicator(), "   ");
    assert_eq!(p.render_prompt_right(), "");
    assert_eq!(p.render_prompt_history_search_indicator(false, "map"), "(search: map) ");
    assert_eq!(
        p.render_prompt_history_search_indicator(true, "zz"),
        "(failing search: zz) "
    );
    assert_eq!(GhciPrompt { json_mode: true }.render_prompt_left(), "");
}

#[test]
fn highlighter_skips_empty_line() {
    assert!(HaskellHighlighter.highlight("").is_empty());
    let pieces = HaskellHighlighter.highlight("x + 1");
    let joined: String = pieces.iter().map(|(_, t)| t.as_str()).collect();
    assert_eq!(joined, "x + 1");
}

#[test]
fn completion_word_start() {
    assert_eq!(completion_word(":m + Data.Li"), "Data.Li");
    assert_eq!(completion_word("map (fo"), "fo");
    assert_eq!(completion_word("[a,b"), "b");
    assert_eq!(completion_word("foo "), "");
    assert_eq!(completion_word("xs"), "xs");
}

#[test]
fn hint_from_ghci_answer_and_cache() {
    let (cache, hint) = hint_from_completions(
        "map fol",
        vec!["foldr".to_string(), "foldl".to_string()],
    );
    assert_eq!(hint.as_deref(), Some("dr"));
    assert_eq!(cache.before, "map ");
    assert_eq!(cache.word, "fol");
    let cache = Some(cache);
    // The word grew: the cache answers.
    assert_eq!(
        hint_lookup(&cache, "map foldl", true),
        HintLookup::Show(None)
    );
    assert_eq!(
        hint_lookup(&cache, "map foldr", true),
        HintLookup::Show(None)
    );
    assert_eq!(hint_lookup(&cache, "map fold", true), HintLookup::Show(Some("r".to_string())));
    // A different text before the word asks again.
    assert_eq!(hint_lookup(&cache, "x fold", true), HintLookup::Ask);
    // No hint away from the end or for a short word.
    assert_eq!(hint_lookup(&cache, "map fold", false), HintLookup::Skip);
    assert_eq!(hint_lookup(&cache, "map f", true), HintLookup::Skip);
    assert_eq!(hint_lookup(&None, "map fold", true), HintLookup::Ask);
}

#[test]
fn hint_token_stops_after_a_word() {
    assert_eq!(next_hint_token("Map.insert k"), "Map");
    assert_eq!(next_hint_token(" (foo bar"), " (foo");
    assert_eq!(next_hint_token("x'_1 y"), "x'_1");
    assert_eq!(next_hint_token(""), "");
}

#[test]
fn own_commands_join_completions() {
    let cs = with_own_commands(":sc", vec![":script".to_string()]);
    assert_eq!(cs, vec![":script", ":scratch"]);
    let cs = with_own_commands(":config_m", vec![]);
    assert_eq!(cs, vec![":config_max_output_lines", ":config_max_output_chars"]);
    let cs = with_own_commands("fo", vec!["foldr".to_string()]);
    assert_eq!(cs, vec!["foldr"]);
    let cs = with_own_commands(":e", vec![":edit".to_string()]);
    assert_eq!(cs, vec![":edit"]);
}

#[test]
fn only_short_candidate_lists_show_types() {
    assert!(types_shown(1));
    assert!(types_shown(TYPED_LIST_MAX));
    assert!(!types_shown(TYPED_LIST_MAX + 1));
}
