use zipmount::sanitize::{disambiguate, sanitize_component, split_path};

#[test]
fn strips_characters_windows_rejects() {
    assert_eq!(sanitize_component("a:b*c?d"), "a_b_c_d");
    assert_eq!(sanitize_component("quote\"here"), "quote_here");
}

#[test]
fn strips_trailing_dots_and_spaces() {
    assert_eq!(sanitize_component("report."), "report");
    assert_eq!(sanitize_component("report   "), "report");
    assert_eq!(sanitize_component("report. . "), "report");
}

#[test]
fn escapes_device_names_with_and_without_extension() {
    assert_eq!(sanitize_component("CON"), "_CON");
    assert_eq!(sanitize_component("con.txt"), "_con.txt");
    assert_eq!(sanitize_component("COM1.log"), "_COM1.log");
    // Not a device: similar, but no match.
    assert_eq!(sanitize_component("CONSOLE.txt"), "CONSOLE.txt");
    assert_eq!(sanitize_component("COM10"), "COM10");
}

#[test]
fn keeps_cyrillic_and_spaces_inside_name() {
    assert_eq!(sanitize_component("отчёт за год.txt"), "отчёт за год.txt");
}

#[test]
fn empty_after_cleanup_becomes_placeholder() {
    assert_eq!(sanitize_component("..."), "_");
    assert_eq!(sanitize_component("   "), "_");
}

#[test]
fn disambiguate_inserts_before_extension() {
    assert_eq!(disambiguate("log.txt", 1), "log~1.txt");
    assert_eq!(disambiguate("noext", 2), "noext~2");
    assert_eq!(disambiguate(".gitignore", 1), ".gitignore~1");
    assert_eq!(disambiguate("a.tar.gz", 1), "a.tar~1.gz");
}

#[test]
fn split_path_drops_traversal_and_empty_segments() {
    assert_eq!(split_path("a//b/./c.txt"), vec!["a", "b", "c.txt"]);
    assert_eq!(
        split_path("../../windows/system32/evil.dll"),
        vec!["windows", "system32", "evil.dll"]
    );
    assert_eq!(
        split_path("mixed\\sep/here.txt"),
        vec!["mixed", "sep", "here.txt"]
    );
}

#[test]
fn split_path_of_directory_entry_ignores_trailing_slash() {
    assert_eq!(split_path("docs/sub/"), vec!["docs", "sub"]);
}

#[test]
fn control_characters_and_pipes_are_replaced() {
    assert_eq!(sanitize_component("a\tb|c"), "a_b_c");
    assert_eq!(sanitize_component("lpt9.txt"), "_lpt9.txt");
    assert_eq!(sanitize_component("aux"), "_aux");
}

#[test]
fn disambiguate_counts_in_decimal() {
    assert_eq!(disambiguate("x.txt", 123), "x~123.txt");
    assert_eq!(disambiguate("x", 0), "x~0");
}

#[test]
fn split_path_sanitizes_each_component() {
    assert_eq!(split_path("a:b/CON/c."), vec!["a_b", "_CON", "c"]);
    assert!(split_path("").is_empty());
    assert!(split_path("/./../").is_empty());
}

#[test]
fn sanitizing_twice_changes_nothing() {
    for name in ["a<b>:c.txt", "CON.txt", "trailing. . ", "", "com7", "ok name.log", "\u{1}x"] {
        let once = sanitize_component(name);
        assert!(!once.is_empty());
        assert!(!once.ends_with('.') && !once.ends_with(' '));
        assert!(!once.chars().any(|c| "<>:\"/\\|?*".contains(c) || (c as u32) < 0x20));
        assert_eq!(sanitize_component(&once), once);
    }
}
