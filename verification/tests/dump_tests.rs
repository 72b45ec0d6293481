use ghcitty::dump::{build_module, extract_section, filter_cmm, filter_reachable};

#[test]
fn build_module_includes_imports_and_bindings() {
    let src = build_module(
        "y",
        &["import Data.List".to_string()],
        &["y = (\\x -> x + 1) 41".to_string()],
    );
    assert!(src.contains("module GhcittyDump where"));
    assert!(src.contains("import Data.List"));
    assert!(src.contains("y = (\\x -> x + 1) 41"));
    assert!(src.contains("ghcittyDump ="));
    assert!(src.contains("    y"));
}

#[test]
fn extract_section_drops_leading_noise() {
    let stdout = "[1 of 1] Compiling GhcittyDump\n\
        ==================== Tidy Core ====================\n\
        Result size of Tidy Core = {terms: 1}\n\
        ghcittyDump = I# 1#\n\n\n";
    let section = extract_section(stdout);
    assert!(section.starts_with("===================="));
    assert!(section.contains("ghcittyDump = I# 1#"));
    assert!(!section.ends_with('\n'));
}

#[test]
fn extract_section_empty_when_no_banner() {
    assert_eq!(extract_section("error: boom\n"), "");
}

#[test]
fn filter_reachable_drops_unrelated_bindings() {
    let section = "==================== Final STG: ====================\n\
        y = IS! [42#];\n\n\
        ghcittyDump5 = I#! [2#];\n\n\
        ghcittyDump1 = :! [ghcittyDump5 []];\n\n\
        ghcittyDump = :! [ghcittyDump5 ghcittyDump1];";
    let kept = filter_reachable(section);
    assert!(kept.contains("ghcittyDump ="));
    assert!(kept.contains("ghcittyDump5 ="));
    assert!(kept.contains("ghcittyDump1 ="));
    assert!(!kept.contains("y = IS!"));
    assert!(kept.starts_with("===================="));
}

#[test]
fn filter_reachable_keeps_referenced_session_binding() {
    let section = "==================== Final STG: ====================\n\
        y = IS! [42#];\n\n\
        ghcittyDump = y;";
    let kept = filter_reachable(section);
    assert!(kept.contains("y = IS!"));
    assert!(kept.contains("ghcittyDump = y"));
}

#[test]
fn filter_cmm_keeps_only_wrapper_sections() {
    let section = "==================== Output Cmm ====================\n\
        [section \"\"data\" . y_closure\" {\n\
        \x20    y_closure:\n\
        \x20        const I#_con_info;\n\
        \x20        const 42;\n\
        \x20}]\n\n\n\
        ==================== Output Cmm ====================\n\
        [section \"\"data\" . ghcittyDump_closure\" {\n\
        \x20    ghcittyDump_closure:\n\
        \x20        const I#_con_info;\n\
        \x20        const 2;\n\
        \x20}]";
    let kept = filter_cmm(section);
    assert!(kept.contains("ghcittyDump_closure"));
    assert!(!kept.contains("y_closure"));
}

#[test]
fn filter_cmm_passes_through_when_nothing_matched() {
    let section = "==================== Output Cmm ====================\n\
        [section \"\"data\" . y_closure\" { y_closure: }]";
    assert_eq!(filter_cmm(section), section);
}

#[test]
fn filter_reachable_passes_through_unknown_shape() {
    let section = "==================== Tidy Core ====================\nsomething weird";
    assert_eq!(filter_reachable(section), section);
}
