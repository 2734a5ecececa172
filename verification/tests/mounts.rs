use std::path::Path;

use zipmount::cmdline::quote_arg;
use zipmount::mounts::{
    find, find_by_archive, first_free_letter, format_records, free_letters, is_drive_letter, list,
    normalize, parse_records, parse_u32, register, stop_event_name, unregister, MountRecord,
    LETTER_COUNT,
};

fn rec(letter: &str, archive: &str, pid: u32) -> MountRecord {
    MountRecord {
        letter: letter.to_string(),
        archive: archive.to_string(),
        pid,
    }
}

fn letters(rs: &[MountRecord]) -> Vec<String> {
    rs.iter().map(|r| r.letter.clone()).collect()
}

fn taken_now() -> Vec<bool> {
    (0..LETTER_COUNT)
        .map(|i| {
            let c = (b'D' + i as u8) as char;
            Path::new(&format!("{c}:\\")).exists()
        })
        .collect()
}

#[test]
fn drive_letter_is_recognised_exactly() {
    // This check decides whether a mount can be stopped without the
    // list — that is, whether unmounting from the menu works for a process
    // that could not reach the user's profile.
    assert!(is_drive_letter("D:"));
    assert!(is_drive_letter("z:"));
    assert!(!is_drive_letter("D"));
    assert!(!is_drive_letter("D:\\"));
    assert!(!is_drive_letter("D:\\logs"));
    assert!(!is_drive_letter(""));
    assert!(!is_drive_letter("archive.zip"));
}

#[test]
fn stop_event_name_is_stable_and_safe() {
    assert_eq!(stop_event_name("Z:"), "Local\\ZipMount-Stop-Z");
    assert_eq!(stop_event_name("z:"), "Local\\ZipMount-Stop-Z");
    // Stray characters must not get into a kernel object name.
    assert_eq!(stop_event_name("Z:\\"), "Local\\ZipMount-Stop-Z");
}

#[test]
fn free_letters_do_not_include_existing_drives() {
    for d in free_letters(&taken_now()) {
        assert!(
            !Path::new(&format!("{d}\\")).exists(),
            "{d} is actually taken"
        );
    }
}

#[test]
fn free_letters_follow_the_taken_flags() {
    let mut taken = vec![false; LETTER_COUNT];
    taken[0] = true;
    taken[2] = true;
    let free = free_letters(&taken);
    assert_eq!(free.len(), LETTER_COUNT - 2);
    assert_eq!(free[0], "E:");
    assert_eq!(free[1], "G:");
    assert_eq!(free.last().unwrap(), "Z:");
    assert_eq!(first_free_letter(&taken), Some("E:".to_string()));
    assert_eq!(first_free_letter(&vec![true; LETTER_COUNT]), None);
    assert_eq!(first_free_letter(&vec![false; LETTER_COUNT]), Some("D:".to_string()));
}

#[test]
fn mounts_quoting_leaves_simple_arguments_alone() {
    // Without spaces or quotes there is no reason to quote: parsing
    // returns the argument as is, trailing backslash included.
    assert_eq!(quote_arg("simple"), "simple");
    assert_eq!(quote_arg("C:\\path\\"), "C:\\path\\");
}

#[test]
fn mounts_quoting_doubles_backslashes_before_closing_quote() {
    // Here doubling is mandatory: otherwise the trailing backslash escapes
    // the closing quote and the path runs into the next argument.
    assert_eq!(quote_arg("C:\\my path\\"), "\"C:\\my path\\\\\"");
}

#[test]
fn quoting_escapes_inner_quotes() {
    assert_eq!(quote_arg("say \"hi\""), "\"say \\\"hi\\\"\"");
    assert_eq!(quote_arg("with space"), "\"with space\"");
    assert_eq!(quote_arg(""), "\"\"");
}

#[test]
fn host_quoting_leaves_simple_arguments_alone() {
    assert_eq!(quote_arg("mount"), "mount");
    assert_eq!(quote_arg("C:\\logs\\a.zip"), "C:\\logs\\a.zip");
}

#[test]
fn host_quoting_doubles_backslashes_before_closing_quote() {
    // Without doubling, the trailing backslash escapes the closing quote
    // and the path runs into the next argument.
    assert_eq!(quote_arg("C:\\my logs\\"), "\"C:\\my logs\\\\\"");
}

#[test]
fn quoting_escapes_backslashes_only_before_quotes() {
    assert_eq!(quote_arg("a\\\\\"b c"), "\"a\\\\\\\\\\\"b c\"");
    assert_eq!(quote_arg("tab\there"), "\"tab\there\"");
}

#[test]
fn register_replaces_the_letter_and_goes_last() {
    let rs = vec![rec("D:", "a.zip", 1), rec("E:", "b.zip", 2)];
    let rs = register(rs, "d:", "c.zip", 3);
    assert_eq!(letters(&rs), vec!["E:", "d:"]);
    assert_eq!(rs[1].archive, "c.zip");
    assert_eq!(rs[1].pid, 3);
    let rs = unregister(rs, "E:");
    assert_eq!(letters(&rs), vec!["d:"]);
}

#[test]
fn list_keeps_live_records_in_order() {
    let rs = vec![rec("D:", "a", 1), rec("E:", "b", 2), rec("F:", "c", 3)];
    let live = list(rs, &[true, false, true]);
    assert_eq!(letters(&live), vec!["D:", "F:"]);
}

#[test]
fn find_ignores_ascii_case() {
    let rs = vec![rec("D:", "a", 1), rec("E:", "b", 2)];
    assert_eq!(find(&rs, "e:").unwrap().pid, 2);
    assert!(find(&rs, "F:").is_none());
    let normalized = vec!["C:\\x\\a".to_string(), "C:\\x\\b".to_string()];
    assert_eq!(find_by_archive(&rs, &normalized, "C:\\x\\b").unwrap().letter, "E:");
    assert!(find_by_archive(&rs, &normalized, "C:\\x\\c").is_none());
}

#[test]
fn normalize_drops_the_extended_prefix() {
    assert_eq!(normalize("\\\\?\\C:\\logs\\a.zip"), "C:\\logs\\a.zip");
    assert_eq!(normalize("C:\\logs\\a.zip"), "C:\\logs\\a.zip");
}

#[test]
fn state_file_round_trips() {
    let rs = vec![rec("D:", "C:\\logs\\a.zip", 4242), rec("E:", "", 0)];
    let text = format_records(&rs);
    assert_eq!(text, "D:\t4242\tC:\\logs\\a.zip\nE:\t0\t\n");
    let back = parse_records(&text);
    assert_eq!(back.len(), 2);
    assert_eq!(back[0].letter, "D:");
    assert_eq!(back[0].pid, 4242);
    assert_eq!(back[0].archive, "C:\\logs\\a.zip");
    assert_eq!(back[1].archive, "");
}

#[test]
fn state_file_lines_that_do_not_parse_are_skipped() {
    let text = "D:\t12\ta.zip\r\nbroken\nE:\tx\tb.zip\nF:\t+7\tc.zip\textra\nG:\t99999999999\td.zip";
    let rs = parse_records(text);
    assert_eq!(letters(&rs), vec!["D:", "F:"]);
    assert_eq!(rs[0].archive, "a.zip");
    assert_eq!(rs[1].pid, 7);
    assert_eq!(rs[1].archive, "c.zip");
    assert!(parse_records("").is_empty());
}

#[test]
fn pid_parses_like_str_parse() {
    for s in ["0", "7", "+7", "4294967295", "4294967296", "", "+", "-1", " 1", "12a"] {
        let chars: Vec<char> = s.chars().collect();
        assert_eq!(parse_u32(&chars), s.parse::<u32>().ok(), "{s:?}");
    }
}
