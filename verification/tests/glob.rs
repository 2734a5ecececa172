use zipmount::glob::{dos_pattern_match, glob_match};

#[test]
fn glob_basic_wildcards() {
    assert!(glob_match("*.log", "server.log"));
    assert!(glob_match("*.log", "a.b.log"));
    assert!(!glob_match("*.log", "server.txt"));
    assert!(glob_match("report?.txt", "report1.txt"));
    assert!(!glob_match("report?.txt", "report12.txt"));
}

#[test]
fn glob_is_case_insensitive_including_cyrillic() {
    assert!(glob_match("*.LOG", "server.log"));
    assert!(glob_match("отчёт*", "ОТЧЁТ за 2024.txt"));
}

#[test]
fn glob_handles_exact_and_star_only() {
    assert!(glob_match("*", "anything at all"));
    assert!(glob_match("exact.txt", "exact.txt"));
    assert!(!glob_match("exact.txt", "exact.txt.bak"));
}

#[test]
fn glob_does_not_blow_up_on_many_stars() {
    let name = "a".repeat(64);
    assert!(!glob_match("*a*a*a*a*a*b", &name));
}

#[test]
fn glob_matches_empty_segments() {
    assert!(glob_match("a*b", "ab"));
    assert!(glob_match("*", ""));
    assert!(!glob_match("?", ""));
}

#[test]
fn dos_star_matches_everything_including_extensionless() {
    assert!(dos_pattern_match("*.*", "README"));
    assert!(dos_pattern_match("*", "README"));
    assert!(dos_pattern_match("", "README"));
}

#[test]
fn dos_special_wildcards_are_translated() {
    assert!(dos_pattern_match("file<", "file00001.log"));
    assert!(dos_pattern_match("file0000>.log", "file00001.log"));
    assert!(dos_pattern_match("file00001\"log", "file00001.log"));
}

#[test]
fn dos_pattern_still_handles_ordinary_masks() {
    assert!(dos_pattern_match("file0000?.log", "file00001.log"));
    assert!(!dos_pattern_match("file0000?.log", "file00012.log"));
    assert!(dos_pattern_match("*.LOG", "server.log"));
}

#[test]
fn stars_backtrack_to_the_last_one() {
    assert!(glob_match("*ab*cd", "xxabyyabzzcd"));
    assert!(glob_match("a*?*c", "abc"));
    assert!(!glob_match("a*?*c", "ac"));
    assert!(glob_match("**", "x"));
    assert!(!glob_match("", "x"));
    assert!(glob_match("", ""));
}

#[test]
fn a_star_in_the_pattern_is_a_star_whatever_the_name_holds() {
    assert!(glob_match("*b", "*xb"));
    assert!(glob_match("*a", "*ba"));
    assert!(glob_match("x*a", "x*ba"));
    assert!(glob_match("a*", "a*"));
    assert!(!glob_match("a?", "a"));
}

fn sample_tree() -> zipmount::tree::Tree {
    let entries: Vec<zipmount::entry::EntryMeta> =
        ["logs/b.log", "logs/A.LOG", "readme.txt", "logs/old/c.log"]
            .iter()
            .map(|p| zipmount::entry::EntryMeta {
                path: p.to_string(),
                is_dir: false,
                size: 1,
                mtime: 0,
            })
            .collect();
    zipmount::tree::Tree::build(&entries)
}

#[test]
fn names_are_found_sorted_with_their_prefix() {
    let t = sample_tree();
    assert_eq!(
        zipmount::glob::find_by_name(&t, "*.log", None),
        vec!["logs\\A.LOG", "logs\\b.log", "logs\\old\\c.log"]
    );
    assert_eq!(
        zipmount::glob::find_by_name(&t, "LOGS", Some("X:\\")),
        vec!["X:\\logs"]
    );
    assert!(zipmount::glob::find_by_name(&t, "*.zip", None).is_empty());
    // Every node but the root.
    assert_eq!(zipmount::glob::find_by_name(&t, "*", None).len(), 6);
}
