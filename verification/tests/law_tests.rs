use ghcitty::config::Config;
use ghcitty::debugger::strip_location_echo;
use ghcitty::highlight::{highlight_input, tokenize};
use ghcitty::parse::{extract_between_sentinels, SENTINEL};
use ghcitty::render::{render_passthrough, strip_ansi};
use ghcitty::ghc::{relay_begin, relay_step, RelayAction, RelayEvent, RelayPhase};
use ghcitty::hoogle::{percent_encode, unquote};
use ghcitty::input::is_incomplete;
use ghcitty::pretty::pretty;

#[test]
fn encoded_queries_are_url_safe() {
    let enc = percent_encode("Map.insert :: k -> [a] <> \"x\" & \u{03bb} # ?");
    assert!(enc
        .chars()
        .all(|c| c.is_ascii_alphanumeric() || "-_.~+%".contains(c)));
}

#[test]
fn quoted_query_is_trimmed_inner_text() {
    assert_eq!(unquote("\"  [a] -> [a]  \""), "[a] -> [a]");
    assert_eq!(unquote("  ' sort '  "), "sort");
}

#[test]
fn fitting_values_stay_on_one_line() {
    let v = "Foo {a = 1, b = [2, 3], c = Just (Left 'x')}";
    assert_eq!(pretty(v), v);
}

#[test]
fn incomplete_never_waits_on_commands_or_blank_lines() {
    assert!(!is_incomplete("   "));
    assert!(!is_incomplete(":load (Foo"));
    assert!(!is_incomplete("f x = (\n"));
    assert!(is_incomplete(":{\nf x = ("));
}

#[test]
fn live_output_is_printed_once_in_order() {
    let events = vec![
        RelayEvent::Line("a\n".to_string()),
        RelayEvent::Line("b\n".to_string()),
        RelayEvent::QuietOver,
        RelayEvent::Typed("in\n".to_string()),
        RelayEvent::Line("c\n".to_string()),
        RelayEvent::QuietOver,
    ];
    let mut r = relay_begin();
    let mut printed = String::new();
    for ev in events {
        let (next, action) = relay_step(r, ev);
        r = next;
        if let RelayAction::Show(s) = action {
            printed.push_str(&s);
        }
    }
    assert_eq!(r.phase, RelayPhase::Live);
    assert_eq!(printed, r.output);
    assert_eq!(printed, "a\nb\nc\n");
}

#[test]
fn tokens_cut_the_line_into_consecutive_pieces() {
    let chars: Vec<char> = "putStrLn \"\u{03bb} hello\" -- hi".chars().collect();
    let spans = tokenize(&chars);
    assert_eq!(spans[0].start, 0);
    assert_eq!(spans.last().unwrap().end, chars.len());
    for w in spans.windows(2) {
        assert_eq!(w[0].end, w[1].start);
    }
    assert!(spans.iter().all(|s| s.start < s.end));
    assert!(tokenize(&Vec::new()).is_empty());
}

#[test]
fn stripping_highlighted_text_gives_it_back() {
    for input in ["putStrLn \"\u{03bb} hello\"", "n `mod` 15", ":{\nlet x = 1\n:}", "data T = A | B"] {
        assert_eq!(strip_ansi(&highlight_input(input)), input);
    }
}

#[test]
fn listed_settings_can_be_set_back() {
    let mut c = Config::default();
    c.set("pretty_print", "off").unwrap();
    c.set("max_output_lines", "7").unwrap();
    let mut d = Config::default();
    for (k, v) in c.entries() {
        d.set(k, &v).unwrap();
    }
    assert_eq!(d.entries(), c.entries());
}

#[test]
fn stripping_location_echoes_twice_changes_nothing() {
    let once = strip_location_echo("[Foo.hs:3:1-5]\nx = 1\n  [M.hs:(1,2)-(3,4)]\ndone");
    assert_eq!(once, "x = 1\ndone\n");
    assert_eq!(strip_location_echo(&once), once);
}

#[test]
fn framed_answer_reads_back() {
    for s in ["", "42", "[1,2]\n[3]"] {
        assert_eq!(extract_between_sentinels(&format!("{SENTINEL}\n{s}\n{SENTINEL}")), s);
    }
    let raw = format!("noise\n{SENTINEL}\n  Just 3 \n");
    let got = extract_between_sentinels(&raw);
    assert!(raw.contains(&got));
    assert_eq!(got, got.trim());
}

#[test]
fn stripping_passthrough_output_gives_the_lines() {
    let out = "[1 of 1] Compiling Main\nFoo.hs:1:1: error:\n    bad\nOk, one module loaded.\nlet x = 1";
    let want: String = out.lines().map(|l| format!("{l}\n")).collect();
    assert_eq!(strip_ansi(&render_passthrough(out)), want);
}

#[test]
fn stripping_is_idempotent() {
    let s = "\x1b[1;31merror\x1b[0m \x1b]8;;u\x1b\\link\x1b]8;;\x1b\\ end\x1b";
    let once = strip_ansi(s);
    assert_eq!(strip_ansi(&once), once);
}

/// Whitespace outside string literals left out.
fn squeezed(s: &str) -> String {
    let mut out = String::new();
    let mut quoted = false;
    let mut escaped = false;
    for c in s.chars() {
        if quoted {
            out.push(c);
            if escaped {
                escaped = false;
            } else if c == '\\' {
                escaped = true;
            } else if c == '"' {
                quoted = false;
            }
        } else {
            if c == '"' {
                quoted = true;
            }
            if !c.is_whitespace() {
                out.push(c);
            }
        }
    }
    out
}

#[test]
fn pretty_changes_only_layout() {
    let inputs = [
        "Person {name = \"Alice  B\", age = 30, tags = [\"a, b\",\"(c\"]}",
        "Just (Node {left = Leaf, value = 123456789, right = Node {left = Leaf, value = 987654321, right = Leaf}})",
        "[(1,\"x\"),(2,\"y\")]",
    ];
    for input in inputs {
        assert_eq!(squeezed(&pretty(input)), squeezed(input));
    }
}
