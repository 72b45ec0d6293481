use ghcitty::highlight::{highlight_input, highlight_styled};
use ghcitty::style;

fn styled_with(out: &str, style: nu_ansi_term::Style, text: &str) -> bool {
    out.contains(&style.paint(text).to_string())
}

fn strip_escapes(s: &str) -> String {
    let mut out = String::new();
    let mut in_escape = false;
    for ch in s.chars() {
        if ch == '\x1b' {
            in_escape = true;
        } else if in_escape {
            if ch == 'm' {
                in_escape = false;
            }
        } else {
            out.push(ch);
        }
    }
    out
}

#[test]
fn test_keyword_highlighted() {
    let out = highlight_input("let x = 1");
    assert!(styled_with(&out, style::keyword(), "let"));
}

#[test]
fn test_string_highlighted() {
    let out = highlight_input("putStrLn \"hello\"");
    assert!(styled_with(&out, style::string_lit(), "\"hello\""));
}

#[test]
fn test_number_highlighted() {
    let out = highlight_input("42 + 3.14");
    assert!(styled_with(&out, style::number(), "42"));
    assert!(styled_with(&out, style::number(), "3.14"));
}

#[test]
fn test_type_constructor() {
    let out = highlight_input("Just True");
    assert!(styled_with(&out, style::type_con(), "Just"));
    assert!(styled_with(&out, style::type_con(), "True"));
}

#[test]
fn test_comment() {
    let out = highlight_input("1 + 1 -- add");
    assert!(styled_with(&out, style::dim(), "-- add"));
}

#[test]
fn test_operator() {
    let out = highlight_input("x + y");
    assert!(styled_with(&out, style::operator(), "+"));
}

#[test]
fn test_ghci_command() {
    let out = highlight_input(":type map");
    assert!(styled_with(&out, style::ghci_cmd(), ":type"));
}

#[test]
fn test_roundtrip_no_content_lost() {
    let input = "let f x = case x of { Just y -> y; Nothing -> 0 }";
    let out = highlight_input(input);
    let stripped = strip_escapes(&out);
    assert_eq!(stripped, input);
}

#[test]
fn test_block_comment_highlight() {
    let out = highlight_input("{- comment -} 1");
    assert!(styled_with(&out, style::dim(), "{- comment -}"));
}

#[test]
fn test_hex_number() {
    let out = highlight_input("0xFF");
    assert!(styled_with(&out, style::number(), "0xFF"));
    assert_eq!(strip_escapes(&out), "0xFF");
}

#[test]
fn test_non_ascii_no_panic() {
    let out = highlight_input("putStrLn \"\u{03bb} hello\"");
    let stripped = strip_escapes(&out);
    assert!(stripped.contains("\u{03bb}"));
}

#[test]
fn test_backtick_infix() {
    let out = highlight_input("n `mod` 15");
    let stripped = strip_escapes(&out);
    assert_eq!(stripped, "n `mod` 15");
}

#[test]
fn highlight_pieces_make_up_the_input() {
    for input in [
        "let f x = case x of { Just y -> y; Nothing -> 0 }",
        ":{\nlet f x =\n  x + 1\n:}",
        "'a' : \"b\\\"c\" ++ [0x1F, 2.5e3] -- end",
    ] {
        let pieces = highlight_styled(input);
        let joined: String = pieces.iter().map(|(_, t)| t.as_str()).collect();
        assert_eq!(joined, input);
    }
}

#[test]
fn strip_ansi_undoes_highlighting() {
    let input = "map (\\x -> x * 2) [1, 2, 3] `div` 0";
    assert_eq!(ghcitty::render::strip_ansi(&highlight_input(input)), input);
}

#[test]
fn block_delimiters_are_dimmed() {
    let out = highlight_input(":{\nx = 1\n:}");
    assert!(styled_with(&out, style::dim(), ":{"));
    assert!(styled_with(&out, style::dim(), ":}"));
}
