use unic_langid::LanguageIdentifier;
use zipmount::i18n::{
    decide, decide_without_environment, from_windows, language, languages, match_tag, refresh,
    save, saved, source, switch_to, I18nState, SettingChange, Source,
};

#[test]
fn every_language_code_is_a_valid_tag() {
    for language in languages() {
        assert!(
            language.code.parse::<LanguageIdentifier>().is_ok(),
            "{} is not a BCP 47 tag",
            language.code
        );
        assert_eq!(
            match_tag(language.code).map(|l| l.code),
            Some(language.code)
        );
    }
}

#[test]
fn matches_windows_language_tags() {
    let code = |tag: &str| match_tag(tag).map(|l| l.code);
    assert_eq!(code("ru-RU"), Some("ru"));
    assert_eq!(code("en-GB"), Some("en"));
    assert_eq!(code("de-AT"), Some("de"));
    assert_eq!(code("es-419"), Some("es"));
    assert_eq!(code("zh-CN"), Some("zh-CN"));
    assert_eq!(code("zh-Hans-HK"), Some("zh-CN"));
    assert_eq!(code("zh-TW"), None);
    assert_eq!(code("zh-Hant"), None);
    assert_eq!(code("ja-JP"), Some("ja"));
    assert_eq!(code("ko-KR"), Some("ko"));
    assert_eq!(code("pt-BR"), Some("pt-BR"));
    assert_eq!(code("pt-PT"), Some("pt-BR"));
    assert_eq!(code("fr-FR"), None);
    assert_eq!(code("he-IL"), None);
    assert_eq!(code(""), None);
    assert_eq!(code("RU"), Some("ru"));
}

#[test]
fn tags_are_trimmed_and_underscores_read_as_dashes() {
    let code = |tag: &str| match_tag(tag).map(|l| l.code);
    assert_eq!(code("  de_DE \n"), Some("de"));
    assert_eq!(code("-ru"), None);
    assert_eq!(code("zh"), Some("zh-CN"));
    assert_eq!(code("zh_hant_hans"), Some("zh-CN"));
}

#[test]
fn switching_changes_the_language_at_once() {
    let all = languages();
    let mut state = I18nState { language: all[0], source: Source::Default };
    let before = language(&state);
    let other = all
        .iter()
        .find(|l| l.code != before.code)
        .expect("a second language");
    switch_to(&mut state, *other, Source::Saved);
    assert_eq!(language(&state).code, other.code);
    assert_eq!(source(&state), Source::Saved);
    switch_to(&mut state, before, Source::Default);
}

#[test]
fn refresh_switches_only_on_a_change() {
    let all = languages();
    let mut state = I18nState { language: all[0], source: Source::Default };
    assert!(!refresh(&mut state, (all[0], Source::Default)));
    assert!(refresh(&mut state, (all[0], Source::Windows)));
    assert_eq!(state.source, Source::Windows);
    assert!(refresh(&mut state, (all[1], Source::Windows)));
    assert_eq!(state.language.code, "ru");
}

#[test]
fn decision_order_is_environment_saved_windows_english() {
    let ru = match_tag("ru").unwrap();
    let de = match_tag("de").unwrap();
    let ja = match_tag("ja").unwrap();
    assert_eq!(decide(Some(ru), Some(de), Some(ja)), (ru, Source::Environment));
    assert_eq!(decide(None, Some(de), Some(ja)), (de, Source::Saved));
    assert_eq!(decide(None, None, Some(ja)), (ja, Source::Windows));
    let (fallback, src) = decide_without_environment(None, None);
    assert_eq!((fallback.code, src), ("en", Source::Default));
    assert_eq!(saved(Some("ko-KR")).map(|l| l.code), Some("ko"));
    assert_eq!(saved(None), None);
    let tags = vec!["fr-FR".to_string(), "pt-PT".to_string(), "ru".to_string()];
    assert_eq!(from_windows(&tags).map(|l| l.code), Some("pt-BR"));
    assert_eq!(save(Some(de)), SettingChange::Write("de"));
    assert_eq!(save(None), SettingChange::Delete);
}
