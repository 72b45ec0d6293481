use ghcitty::parse::{
    extract_between_sentinels, is_let_binding, let_bound_name, parse_diagnostic,
    parse_eval_output, parse_type_output, simple_diagnostic, SENTINEL,
};

#[test]
fn test_extract_between_sentinels_clean() {
    let raw = format!("{SENTINEL}\nhello world\n{SENTINEL}");
    assert_eq!(extract_between_sentinels(&raw), "hello world");
}

#[test]
fn test_extract_between_sentinels_no_leading() {
    let raw = format!("hello world\n{SENTINEL}");
    assert_eq!(extract_between_sentinels(&raw), "hello world");
}

#[test]
fn test_extract_between_sentinels_bare() {
    assert_eq!(extract_between_sentinels("just text"), "just text");
}

#[test]
fn test_extract_empty() {
    let raw = format!("{SENTINEL}\n{SENTINEL}");
    assert_eq!(extract_between_sentinels(&raw), "");
}

#[test]
fn test_parse_type_simple() {
    let raw = format!("{SENTINEL}\nit :: Integer\n{SENTINEL}");
    assert_eq!(parse_type_output(&raw), Some("Integer".to_string()));
}

#[test]
fn test_parse_type_polymorphic() {
    let raw = format!("{SENTINEL}\nit :: Num a => a\n{SENTINEL}");
    assert_eq!(parse_type_output(&raw), Some("Num a => a".to_string()));
}

#[test]
fn test_parse_type_multiline() {
    let raw = format!("{SENTINEL}\nit :: (Num a,\n      Show a)\n   => a\n{SENTINEL}");
    assert_eq!(
        parse_type_output(&raw),
        Some("(Num a, Show a) => a".to_string())
    );
}

#[test]
fn test_parse_type_function() {
    let raw = format!("{SENTINEL}\nmap :: (a -> b) -> [a] -> [b]\n{SENTINEL}");
    assert_eq!(
        parse_type_output(&raw),
        Some("(a -> b) -> [a] -> [b]".to_string())
    );
}

#[test]
fn test_parse_eval_simple() {
    let raw = format!("{SENTINEL}\n42\n{SENTINEL}");
    let (val, diags) = parse_eval_output(&raw);
    assert_eq!(val, "42");
    assert!(diags.is_empty());
}

#[test]
fn test_parse_eval_multiline_value() {
    let raw = format!("{SENTINEL}\n[1\n,2\n,3]\n{SENTINEL}");
    let (val, diags) = parse_eval_output(&raw);
    assert_eq!(val, "[1\n,2\n,3]");
    assert!(diags.is_empty());
}

#[test]
fn test_parse_eval_error() {
    let raw = format!(
        "{SENTINEL}\n<interactive>:1:1: error:\n    Variable not in scope: foo\n{SENTINEL}"
    );
    let (val, diags) = parse_eval_output(&raw);
    assert_eq!(val, "");
    assert_eq!(diags.len(), 1);
    assert_eq!(diags[0].severity, "error");
    assert!(diags[0].message.contains("Variable not in scope"));
}

#[test]
fn test_is_let_binding_simple() {
    assert!(is_let_binding("let x = 1"));
}

#[test]
fn test_is_let_binding_function() {
    assert!(is_let_binding("let f x y = x + y"));
}

#[test]
fn test_is_let_binding_multiline() {
    assert!(is_let_binding("let f x y =\n    x + y"));
}

#[test]
fn test_is_not_let_in_expression() {
    assert!(!is_let_binding("let x = 1 in x + 1"));
}

#[test]
fn test_is_not_let_in_multiline() {
    assert!(!is_let_binding("let x = 1\nin x + 1"));
}

#[test]
fn test_is_not_let_other() {
    assert!(!is_let_binding("map (+1) [1,2,3]"));
}

#[test]
fn test_let_bound_name_simple() {
    assert_eq!(let_bound_name("let x = 1"), Some("x".into()));
}

#[test]
fn test_let_bound_name_function() {
    assert_eq!(let_bound_name("let f x y = x + y"), Some("f".into()));
}

#[test]
fn test_let_bound_name_multiline() {
    assert_eq!(
        let_bound_name("let greet name =\n    \"hello \" ++ name"),
        Some("greet".into())
    );
}

#[test]
fn test_bare_definition_simple() {
    assert!(is_let_binding("x = 1"));
}

#[test]
fn test_bare_definition_function() {
    assert!(is_let_binding("f x y = x + y"));
}

#[test]
fn test_bare_definition_multiline() {
    assert!(is_let_binding("f x y =\n    x + y + 22"));
}

#[test]
fn test_bare_definition_name() {
    assert_eq!(let_bound_name("f x y = x + y"), Some("f".into()));
}

#[test]
fn test_bare_definition_name_simple() {
    assert_eq!(let_bound_name("x = 1"), Some("x".into()));
}

#[test]
fn test_not_bare_definition_expression() {
    assert!(!is_let_binding("map (+1) [1,2,3]"));
    assert!(!is_let_binding("x + y"));
    assert!(!is_let_binding("putStrLn \"hello\""));
}

#[test]
fn test_not_bare_definition_comparison() {
    assert!(!is_let_binding("x == 1"));
}

#[test]
fn test_guarded_definition() {
    let input = "fizzbuzz n\n  | n `mod` 15 == 0 = \"FizzBuzz\"\n  | otherwise = show n";
    assert!(is_let_binding(input));
    assert_eq!(let_bound_name(input), Some("fizzbuzz".into()));
}

#[test]
fn diagnostic_fields_are_read() {
    let block = "<interactive>:3:29: error: [GHC-83865]\n    Couldn't match\n      Expected: String\n        Actual: Int";
    let d = parse_diagnostic(block);
    assert_eq!(d.severity, "error");
    assert_eq!(d.code.as_deref(), Some("[GHC-83865]"));
    assert_eq!(d.expected.as_deref(), Some("String"));
    assert_eq!(d.actual.as_deref(), Some("Int"));
    let loc = d.location.expect("location");
    assert_eq!((loc.line, loc.col), (3, 29));
}

#[test]
fn simple_diagnostic_has_only_text() {
    let d = simple_diagnostic("warning", "careful".to_string());
    assert_eq!(d.severity, "warning");
    assert_eq!(d.message, "careful");
    assert!(d.location.is_none() && d.code.is_none() && d.suggestion.is_none());
}

#[test]
fn extracted_text_is_trimmed() {
    let raw = format!("  {SENTINEL}\n\n   value  \n\n{SENTINEL}  ");
    let once = extract_between_sentinels(&raw);
    assert_eq!(once, "value");
    assert_eq!(extract_between_sentinels(&once), once);
}
