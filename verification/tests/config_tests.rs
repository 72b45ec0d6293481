use ghcitty::config::{parse_ini, Config};

#[test]
fn test_parse_ini_basic() {
    let content = "# comment\npretty_errors = false\n";
    let map = parse_ini(content);
    assert_eq!(map.get("pretty_errors").unwrap(), "false");
}

#[test]
fn test_parse_ini_whitespace() {
    let content = "  pretty-errors  =  yes  \n";
    let map = parse_ini(content);
    assert_eq!(map.get("pretty-errors").unwrap(), "yes");
}

#[test]
fn test_config_default() {
    let c = Config::default();
    assert!(c.pretty_errors);
}

#[test]
fn test_set_bool_and_dashed() {
    let mut c = Config::default();
    c.set("pretty_print", "false").unwrap();
    assert!(!c.pretty_print);
    c.set("show-timing", "yes").unwrap();
    assert!(c.show_timing);
}

#[test]
fn test_set_max_output_lines() {
    let mut c = Config::default();
    c.set("max_output_lines", "5").unwrap();
    assert_eq!(c.max_output_lines, 5);
    assert!(c.set("max_output_lines", "abc").is_err());
}

#[test]
fn test_set_unknown_key() {
    let mut c = Config::default();
    assert!(c.set("nope", "true").is_err());
}

#[test]
fn config_error_messages() {
    let mut c = Config::default();
    assert_eq!(c.set("nope", "true").unwrap_err(), "unknown setting 'nope'");
    assert_eq!(
        c.set("max_output_chars", "x1").unwrap_err(),
        "expected a number, got 'x1'"
    );
    assert_eq!(
        c.set("pretty_errors", "maybe").unwrap_err(),
        "expected true/false, got 'maybe'"
    );
    // A refused value leaves the settings as they were.
    assert!(c.pretty_errors);
    assert_eq!(c.max_output_chars, 3000);
}

#[test]
fn config_bool_words_any_case() {
    let mut c = Config::default();
    c.set("pretty_errors", "OFF").unwrap();
    assert!(!c.pretty_errors);
    c.set("pretty_errors", "On").unwrap();
    assert!(c.pretty_errors);
    c.set("show_timing", "1").unwrap();
    assert!(c.show_timing);
    c.set("show_timing", "No").unwrap();
    assert!(!c.show_timing);
}

#[test]
fn config_set_then_entries_lists_new_value() {
    let mut c = Config::default();
    c.set("max-output-lines", "200").unwrap();
    let entries = c.entries();
    assert_eq!(entries.len(), 5);
    assert_eq!(entries[0], ("pretty_errors", "true".to_string()));
    assert_eq!(entries[1], ("pretty_print", "true".to_string()));
    assert_eq!(entries[2], ("show_timing", "false".to_string()));
    assert_eq!(entries[3], ("max_output_lines", "200".to_string()));
    assert_eq!(entries[4], ("max_output_chars", "3000".to_string()));
}

#[test]
fn config_from_ini_reads_settings() {
    let c = Config::from_ini("pretty-print = off\nmax_output_chars = 10\nshow_timing = bogus\n");
    assert!(!c.pretty_print);
    assert_eq!(c.max_output_chars, 10);
    // An unreadable value keeps the default.
    assert!(!c.show_timing);
    assert!(c.pretty_errors);
    assert_eq!(c.max_output_lines, 50);
}

#[test]
fn config_lowercase_wrapper_is_used() {
    // `TRUE` only parses because the value is lowercased first.
    assert_eq!(ghcitty::config::parse_bool("TRUE"), Ok(true));
    assert_eq!(ghcitty::config::parse_bool("FaLsE"), Ok(false));
}
