use encoding_rs::{IBM866, WINDOWS_1251};
use zipmount::names::{decode_name, parse_encoding, score, NameEncoding};

/// "Документы/отчёт.txt" ("Documents/report.txt") in CP866.
fn cp866_sample() -> Vec<u8> {
    let (bytes, _, _) = IBM866.encode("Документы/отчёт.txt");
    bytes.into_owned()
}

/// The same in CP1251.
fn cp1251_sample() -> Vec<u8> {
    let (bytes, _, _) = WINDOWS_1251.encode("Документы/отчёт.txt");
    bytes.into_owned()
}

#[test]
fn ascii_is_encoding_independent() {
    let raw = b"docs/report.txt";
    for enc in [
        NameEncoding::Auto,
        NameEncoding::Utf8,
        NameEncoding::Cp866,
        NameEncoding::Cp1251,
    ] {
        assert_eq!(decode_name(raw, None, false, enc), "docs/report.txt");
    }
}

#[test]
fn auto_detects_cp866() {
    let raw = cp866_sample();
    assert_eq!(
        decode_name(&raw, None, false, NameEncoding::Auto),
        "Документы/отчёт.txt"
    );
}

#[test]
fn auto_detects_cp1251() {
    let raw = cp1251_sample();
    assert_eq!(
        decode_name(&raw, None, false, NameEncoding::Auto),
        "Документы/отчёт.txt"
    );
}

#[test]
fn auto_detects_utf8_even_without_flag() {
    // Archivers that write UTF-8 and forget to set bit 11 do exist.
    let raw = "Документы/отчёт.txt".as_bytes();
    assert_eq!(
        decode_name(raw, None, false, NameEncoding::Auto),
        "Документы/отчёт.txt"
    );
}

#[test]
fn unicode_path_extra_field_wins() {
    // The raw name is CP866, but the extra field already holds the
    // checked answer.
    let raw = cp866_sample();
    assert_eq!(
        decode_name(&raw, Some("правильное.txt"), false, NameEncoding::Auto),
        "правильное.txt"
    );
}

#[test]
fn explicit_encoding_overrides_heuristic() {
    let raw = cp866_sample();
    // Forcing CP1251 gives predictable gibberish rather than CP866.
    let decoded = decode_name(&raw, None, false, NameEncoding::Cp1251);
    assert_ne!(decoded, "Документы/отчёт.txt");
}

#[test]
fn lying_utf8_flag_falls_back_to_heuristic() {
    let raw = cp866_sample();
    assert_eq!(
        decode_name(&raw, None, true, NameEncoding::Auto),
        "Документы/отчёт.txt"
    );
}

#[test]
fn honest_utf8_flag_is_taken_at_its_word() {
    let raw = "Привет.txt".as_bytes();
    assert_eq!(decode_name(raw, None, true, NameEncoding::Auto), "Привет.txt");
}

#[test]
fn score_prefers_cyrillic_over_pseudographics() {
    assert!(score("отчёт") > score("®в票"));
    assert!(score("Документы") > score("─│┌┐└┘"));
}

#[test]
fn score_counts_points_per_character() {
    // Cyrillic 3 each, ASCII letters and name punctuation 1, box drawing -5,
    // replacement -10, control -10, other symbols -2.
    assert_eq!(score("Да"), 6);
    assert_eq!(score("a.b"), 3);
    assert_eq!(score("─"), -5);
    assert_eq!(score("\u{FFFD}"), -10);
    assert_eq!(score("\u{1}"), -10);
    assert_eq!(score("®"), -2);
    assert_eq!(score("票"), 0);
    assert_eq!(score(""), 0);
}

#[test]
fn encoding_parses_from_common_spellings() {
    assert_eq!(
        "CP-866".parse::<NameEncoding>().unwrap(),
        NameEncoding::Cp866
    );
    assert_eq!(
        "windows_1251".parse::<NameEncoding>().unwrap(),
        NameEncoding::Cp1251
    );
    assert_eq!("UTF8".parse::<NameEncoding>().unwrap(), NameEncoding::Utf8);
    assert!("koi8r".parse::<NameEncoding>().is_err());
}

#[test]
fn unknown_encoding_reports_the_normalized_spelling() {
    assert_eq!(parse_encoding("KOI8-R"), Err("koi8r".to_string()));
    assert_eq!(parse_encoding("Auto"), Ok(NameEncoding::Auto));
    assert_eq!(parse_encoding("OEM"), Ok(NameEncoding::Cp866));
    assert_eq!(NameEncoding::default(), NameEncoding::Auto);
}
