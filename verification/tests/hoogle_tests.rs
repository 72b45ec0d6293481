use ghcitty::hoogle::{
    cli_args, doc, doc_from_info, parse_cli_line, parse_cli_output, parse_hoogle_json,
    percent_encode, search, strip_html, unquote, web_url, DocStep, Fetch, Reply, SearchStep,
};

#[test]
fn test_parse_cli_line_with_module() {
    let r = parse_cli_line("Data.List sort :: Ord a => [a] -> [a]").unwrap();
    assert_eq!(r.module, "Data.List");
    assert_eq!(r.name, "sort");
    assert_eq!(r.signature, "Ord a => [a] -> [a]");
}

#[test]
fn test_parse_cli_line_no_module() {
    let r = parse_cli_line("map :: (a -> b) -> [a] -> [b]").unwrap();
    assert_eq!(r.name, "map");
    assert_eq!(r.signature, "(a -> b) -> [a] -> [b]");
}

#[test]
fn test_parse_hoogle_json() {
    let json = r#"[{"url":"https://example.com","module":{"name":"Data.List"},"item":"<b>sort</b> :: Ord a =&gt; [a] -&gt; [a]","docs":"Sort a list."}]"#;
    let results = parse_hoogle_json(json).unwrap();
    assert_eq!(results.len(), 1);
    assert_eq!(results[0].name, "sort");
    assert_eq!(results[0].module, "Data.List");
    assert!(results[0].signature.contains("Ord a"));
    assert_eq!(results[0].doc, "Sort a list.");
}

#[test]
fn test_strip_html() {
    assert_eq!(
        strip_html("<b>sort</b> :: Ord a =&gt; [a]"),
        "sort :: Ord a => [a]"
    );
}

#[test]
fn unquote_strips_double_quotes() {
    assert_eq!(unquote("\"[a] -> [a]\""), "[a] -> [a]");
}

#[test]
fn unquote_strips_single_quotes() {
    assert_eq!(unquote("'sort'"), "sort");
}

#[test]
fn unquote_keeps_unquoted() {
    assert_eq!(unquote("[a] -> [a]"), "[a] -> [a]");
    assert_eq!(unquote("sort"), "sort");
}

#[test]
fn unquote_keeps_mismatched_quotes() {
    assert_eq!(unquote("\"foo'"), "\"foo'");
    assert_eq!(unquote("\"foo"), "\"foo");
}

#[test]
fn percent_encode_type_signature() {
    assert_eq!(percent_encode("[a] -> [a]"), "%5Ba%5D+-%3E+%5Ba%5D");
}

#[test]
fn percent_encode_passes_unreserved() {
    assert_eq!(percent_encode("sort"), "sort");
    assert_eq!(percent_encode("a.b-c_d~e"), "a.b-c_d~e");
}

#[test]
fn percent_encode_handles_special_chars() {
    assert_eq!(percent_encode("a b&c"), "a+b%26c");
}

#[test]
fn percent_encode_multibyte() {
    assert_eq!(percent_encode("\u{03bb}"), "%CE%BB");
}

#[test]
fn hoogle_json_not_an_array() {
    assert!(parse_hoogle_json("{\"a\": 1}").is_none());
    assert!(parse_hoogle_json("not json").is_none());
    assert_eq!(parse_hoogle_json("[]").unwrap().len(), 0);
}

#[test]
fn hoogle_json_entry_without_item_is_skipped() {
    let json = r#"[{"url":"u1"},{"url":"u2","item":"x :: Int"}]"#;
    let results = parse_hoogle_json(json).unwrap();
    assert_eq!(results.len(), 1);
    assert_eq!(results[0].name, "x");
    assert_eq!(results[0].signature, "Int");
    assert_eq!(results[0].url, "u2");
    assert_eq!(results[0].module, "");
}

#[test]
fn hoogle_cli_output_lines() {
    let out = "Data.List sort :: Ord a => [a] -> [a]\n\nPrelude data Maybe a\n";
    let rs = parse_cli_output(out);
    assert_eq!(rs.len(), 2);
    assert_eq!(rs[1].module, "Prelude");
    assert_eq!(rs[1].name, "data Maybe a");
}

#[test]
fn hoogle_info_output() {
    let out = "sort :: Ord a => [a] -> [a]\nData.List\n\nSort a list.\nhttps://hackage.haskell.org/sort\n";
    let r = doc_from_info(out, "sort").unwrap();
    assert_eq!(r.name, "sort");
    assert_eq!(r.signature, "Ord a => [a] -> [a]");
    assert_eq!(r.module, "Data.List");
    assert_eq!(r.doc, "Sort a list.");
    assert_eq!(r.url, "https://hackage.haskell.org/sort");
    assert!(doc_from_info("No results found\n", "sort").is_none());
    assert!(doc_from_info("   \n", "sort").is_none());
}

#[test]
fn hoogle_requests() {
    assert_eq!(cli_args("[a] -> [a]", 10), vec!["search", "--count", "10", "[a] -> [a]"]);
    assert_eq!(
        web_url("a b", 1),
        "https://hoogle.haskell.org/?mode=json&hoogle=a+b&start=1&count=1"
    );
}

#[test]
fn hoogle_search_tries_cli_then_web() {
    match search("\"[a] -> [a]\"", 10, Reply::Begin) {
        SearchStep::Run(Fetch::Cli(args)) => {
            assert_eq!(args, vec!["search", "--count", "10", "[a] -> [a]"])
        }
        other => panic!("unexpected {other:?}"),
    }
    match search("\"[a] -> [a]\"", 10, Reply::Cli(None)) {
        SearchStep::Run(Fetch::Web(url)) => assert_eq!(
            url,
            "https://hoogle.haskell.org/?mode=json&hoogle=%5Ba%5D+-%3E+%5Ba%5D&start=1&count=10"
        ),
        other => panic!("unexpected {other:?}"),
    }
    match search("sort", 10, Reply::Cli(Some("Data.List sort :: [a] -> [a]\n".to_string()))) {
        SearchStep::Found(rs) => {
            assert_eq!(rs.len(), 1);
            assert_eq!(rs[0].name, "sort");
        }
        other => panic!("unexpected {other:?}"),
    }
    match search("sort", 10, Reply::Web(None)) {
        SearchStep::Found(rs) => assert!(rs.is_empty()),
        other => panic!("unexpected {other:?}"),
    }
    match search("sort", 10, Reply::Web(Some("oops".to_string()))) {
        SearchStep::Found(rs) => assert!(rs.is_empty()),
        other => panic!("unexpected {other:?}"),
    }
}

#[test]
fn hoogle_doc_falls_back_to_web() {
    match doc("'sort'", Reply::Begin) {
        DocStep::Run(Fetch::Cli(args)) => assert_eq!(args, vec!["search", "--info", "sort"]),
        other => panic!("unexpected {other:?}"),
    }
    match doc("sort", Reply::Cli(Some("No results found".to_string()))) {
        DocStep::Run(Fetch::Web(url)) => assert!(url.ends_with("hoogle=sort&start=1&count=1")),
        other => panic!("unexpected {other:?}"),
    }
    let body = r#"[{"url":"u","module":{"name":"M"},"item":"<b>f</b> :: a","docs":"d"},{"url":"v","item":"g"}]"#;
    match doc("f", Reply::Web(Some(body.to_string()))) {
        DocStep::Found(Some(r)) => {
            assert_eq!(r.name, "f");
            assert_eq!(r.module, "M");
            assert_eq!(r.doc, "d");
        }
        other => panic!("unexpected {other:?}"),
    }
    match doc("f", Reply::Web(Some("[]".to_string()))) {
        DocStep::Found(None) => {}
        other => panic!("unexpected {other:?}"),
    }
}
