use ghcitty::pretty::{pretty, well_bracketed};

#[test]
fn passthrough_atom() {
    assert_eq!(pretty("42"), "42");
    assert_eq!(pretty("\"hello\""), "\"hello\"");
    assert_eq!(pretty("Just 5"), "Just 5");
}

#[test]
fn small_record_stays_inline() {
    let input = "User {name = \"Alice\", age = 30}";
    assert_eq!(pretty(input), input);
}

#[test]
fn small_list_stays_inline() {
    assert_eq!(pretty("[1, 2, 3]"), "[1, 2, 3]");
}

#[test]
fn long_record_expands() {
    let input =
        "User {name = \"Alice\", age = 30, city = \"NYC\", country = \"USA\", active = True}";
    let expected = "\
User { name = \"Alice\"
     , age = 30
     , city = \"NYC\"
     , country = \"USA\"
     , active = True
     }";
    assert_eq!(pretty(input), expected);
}

#[test]
fn nested_record_expands_both_levels() {
    let input = "User {name = \"Alice\", contact = Contact {email = \"alice@example.com\", phone = \"+1-555-0100\"}}";
    let out = pretty(input);
    assert!(out.contains("User { name = \"Alice\""), "got: {out}");
    assert!(out.contains("contact = Contact { email"), "got: {out}");
    let inner_close = out.find("\n     , contact").unwrap();
    let outer_close = out.rfind("}").unwrap();
    assert!(outer_close > inner_close);
}

#[test]
fn long_list_of_records_expands() {
    let input =
        "[User {name = \"Alice\", age = 30}, User {name = \"Bob\", age = 25}, User {name = \"Carol\", age = 28}]";
    let out = pretty(input);
    assert!(out.starts_with("[ User"), "got: {out}");
    assert!(out.contains("\n, User"), "got: {out}");
    assert!(out.ends_with("\n]"), "got: {out}");
}

#[test]
fn brackets_inside_strings_are_ignored() {
    let input = "Note {body = \"hello {world}, how are [you]?\"}";
    assert_eq!(pretty(input), input);
}

#[test]
fn escaped_quote_in_string() {
    let input = "Msg {text = \"say \\\"hi\\\"\"}";
    assert_eq!(pretty(input), input);
}

#[test]
fn empty_collections() {
    assert_eq!(pretty("[]"), "[]");
    assert_eq!(pretty("()"), "()");
    assert_eq!(pretty("Map.fromList []"), "Map.fromList []");
}

#[test]
fn tuple_inline() {
    assert_eq!(pretty("(1, 2, 3)"), "(1, 2, 3)");
}

#[test]
fn long_flat_list_stays_inline() {
    let xs: Vec<String> = (1..=50).map(|n| n.to_string()).collect();
    let input = format!("[{}]", xs.join(", "));
    assert_eq!(pretty(&input), input);
}

#[test]
fn long_flat_tuple_stays_inline() {
    let xs: Vec<String> = (1..=20).map(|n| n.to_string()).collect();
    let input = format!("({})", xs.join(", "));
    assert_eq!(pretty(&input), input);
}

#[test]
fn list_of_records_still_expands() {
    let input =
        "[User {name = \"Alice\", age = 30}, User {name = \"Bob\", age = 25}, User {name = \"Carol\", age = 28}]";
    let out = pretty(input);
    assert!(out.starts_with("[ User"), "got: {out}");
}

#[test]
fn deeply_nested_just() {
    assert_eq!(pretty("Just (Just (Just 5))"), "Just (Just (Just 5))");
}

#[test]
fn bracket_check() {
    assert!(well_bracketed("Just (Just 5)"));
    assert!(well_bracketed("\")\""));
    assert!(well_bracketed("[1, 2"));
    assert!(!well_bracketed("1)"));
    assert!(!well_bracketed("(a))"));
}

#[test]
fn pretty_normalises_spacing() {
    assert_eq!(pretty("[1,2,  3]"), "[1, 2, 3]");
}
