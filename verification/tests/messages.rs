use zipmount::i18n::language_at;
use zipmount::messages::{message_in, FluentArg};

fn catalogues() -> Vec<String> {
    vec![
        "hello = Hello, { $name }!\nonly-en = English only\nfiles = { $n ->\n    [one] one file\n   *[other] { $n } files\n}\n"
            .to_string(),
        "hello = Привет, { $name }!\n".to_string(),
    ]
}

fn name(n: &str) -> Vec<(String, FluentArg)> {
    vec![("name".to_string(), FluentArg::Text(n.to_string()))]
}

#[test]
fn messages_come_in_the_chosen_language() {
    let c = catalogues();
    assert_eq!(message_in(&c, language_at(1), "hello", &name("Ann")), "Привет, Ann!");
    assert_eq!(message_in(&c, language_at(0), "hello", &name("Ann")), "Hello, Ann!");
}

#[test]
fn missing_messages_fall_back_to_english_then_to_the_id() {
    let c = catalogues();
    assert_eq!(message_in(&c, language_at(1), "only-en", &vec![]), "English only");
    // A language whose catalogue is not given at all.
    assert_eq!(message_in(&c, language_at(7), "hello", &name("Bo")), "Hello, Bo!");
    assert_eq!(message_in(&c, language_at(1), "no-such-id", &vec![]), "no-such-id");
    assert_eq!(message_in(&vec![], language_at(0), "hello", &vec![]), "hello");
}

#[test]
fn counts_pick_plural_forms_without_isolation_marks() {
    let c = catalogues();
    let one = vec![("n".to_string(), FluentArg::Count(1))];
    let many = vec![("n".to_string(), FluentArg::Count(5))];
    assert_eq!(message_in(&c, language_at(0), "files", &one), "one file");
    assert_eq!(message_in(&c, language_at(0), "files", &many), "5 files");
}
