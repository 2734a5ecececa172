//! Which language the program speaks.
//!
//! The language is decided in this order ([`Source`]):
//! 1. `ZIPMOUNT_LANG` — for one command or one session;
//! 2. the choice saved by `zipmount language <code>`;
//! 3. the user's Windows display languages, in their order of preference;
//! 4. English.
//!
//! This module holds the table of languages, how a BCP 47 tag is matched to
//! one, and the decision itself; the environment, the saved setting and the
//! display languages are read around it. Messages in the chosen language are
//! formatted by `messages`.

use vstd::prelude::*;

use crate::mounts::{eq_ignore_ascii_case, same_letter, split_at_char};
use crate::text::{chars_of, string_from_chars};
use crate::tree::{lower_key, lower_key_of};

verus! {

/// A language the program speaks.
#[derive(Debug, Clone, Copy, PartialEq, Eq)]
pub struct Language {
    /// BCP 47 tag, as accepted by `ZIPMOUNT_LANG` and `zipmount language`.
    pub code: &'static str,
    /// The language's name in itself, for listings.
    pub native_name: &'static str,
}

/// The codes of the languages, English first: it is the default and the
/// reference.
pub open spec fn language_codes() -> Seq<Seq<char>> {
    seq!["en"@, "ru"@, "zh-CN"@, "ja"@, "ko"@, "pt-BR"@, "es"@, "de"@]
}

/// The languages' names in themselves, in the order of the codes.
pub open spec fn native_names() -> Seq<Seq<char>> {
    seq![
        "English"@,
        "Русский"@,
        "简体中文"@,
        "日本語"@,
        "한국어"@,
        "Português (Brasil)"@,
        "Español"@,
        "Deutsch"@,
    ]
}

/// How many languages there are.
pub const LANGUAGE_COUNT: usize = 8;

/// The language with index `i` in the table.
pub fn language_at(i: usize) -> (res: Language)
    requires
        i < LANGUAGE_COUNT,
    ensures
        res.code@ == language_codes()[i as int],
        res.native_name@ == native_names()[i as int],
{
    if i == 0 {
        Language { code: "en", native_name: "English" }
    } else if i == 1 {
        Language { code: "ru", native_name: "Русский" }
    } else if i == 2 {
        Language { code: "zh-CN", native_name: "简体中文" }
    } else if i == 3 {
        Language { code: "ja", native_name: "日本語" }
    } else if i == 4 {
        Language { code: "ko", native_name: "한국어" }
    } else if i == 5 {
        Language { code: "pt-BR", native_name: "Português (Brasil)" }
    } else if i == 6 {
        Language { code: "es", native_name: "Español" }
    } else {
        Language { code: "de", native_name: "Deutsch" }
    }
}

/// The languages the program speaks, English first.
pub fn languages() -> (res: Vec<Language>)
    ensures
        res@.len() == LANGUAGE_COUNT,
        forall|i: int| 0 <= i < LANGUAGE_COUNT ==> (#[trigger] res@[i]).code@ == language_codes()[i],
{
    let mut v: Vec<Language> = Vec::new();
    for i in 0..LANGUAGE_COUNT
        invariant
            v@.len() == i,
            forall|j: int| 0 <= j < i ==> (#[trigger] v@[j]).code@ == language_codes()[j],
    {
        v.push(language_at(i));
    }
    v
}

/// What decided the current language.
#[derive(Debug, Clone, Copy, PartialEq, Eq, Structural)]
pub enum Source {
    /// `ZIPMOUNT_LANG`.
    Environment,
    /// `zipmount language <code>`.
    Saved,
    /// The Windows display language.
    Windows,
    /// Nothing matched; English.
    Default,
}

/// Unicode's white space, as `str::trim` removes it.
pub open spec fn is_white_space(c: char) -> bool {
    ('\u{9}' <= c && c <= '\u{D}') || c == ' ' || c == '\u{85}' || c == '\u{A0}' || c
        == '\u{1680}' || ('\u{2000}' <= c && c <= '\u{200A}') || c == '\u{2028}' || c == '\u{2029}'
        || c == '\u{202F}' || c == '\u{205F}' || c == '\u{3000}'
}

fn white_space(c: char) -> (res: bool)
    ensures
        res == is_white_space(c),
{
    ('\u{9}' <= c && c <= '\u{D}') || c == ' ' || c == '\u{85}' || c == '\u{A0}' || c
        == '\u{1680}' || ('\u{2000}' <= c && c <= '\u{200A}') || c == '\u{2028}' || c == '\u{2029}'
        || c == '\u{202F}' || c == '\u{205F}' || c == '\u{3000}'
}

/// A character of a tag as it is compared: ASCII letters lowered and `_`
/// read as `-`.
pub open spec fn tag_char(c: char) -> char {
    if c == '_' {
        '-'
    } else {
        crate::sanitize::ascii_lower(c)
    }
}

/// The first index after the leading white space from `i`.
pub open spec fn skip_white(s: Seq<char>, i: int) -> int
    decreases s.len() - i,
{
    if 0 <= i < s.len() && is_white_space(s[i]) {
        skip_white(s, i + 1)
    } else {
        i
    }
}

/// The end index before the trailing white space up to `j`.
pub open spec fn back_white(s: Seq<char>, lo: int, j: int) -> int
    decreases j - lo,
{
    if lo < j && j <= s.len() && is_white_space(s[j - 1]) {
        back_white(s, lo, j - 1)
    } else {
        j
    }
}

/// A tag trimmed, lowered and with `_` read as `-`.
pub open spec fn normalized_tag(tag: Seq<char>) -> Seq<char> {
    let lo = skip_white(tag, 0);
    let hi = back_white(tag, lo, tag.len() as int);
    tag.subrange(lo, hi).map_values(|c: char| tag_char(c))
}

/// The pieces of a tag between dashes.
pub open spec fn tag_parts(t: Seq<char>) -> Seq<Seq<char>> {
    crate::mounts::split_at_char(t, '-')
}

/// Whether a Chinese tag asks for the traditional script: a traditional
/// subtag without an explicit simplified one.
pub open spec fn traditional_chinese(rest: Seq<Seq<char>>) -> bool {
    &&& exists|i: int|
        0 <= i < rest.len() && (rest[i] == "hant"@ || rest[i] == "tw"@ || rest[i] == "hk"@ || rest[i]
            == "mo"@)
    &&& !(exists|i: int| 0 <= i < rest.len() && rest[i] == "hans"@)
}

/// The index of the language a tag asks for, if one is spoken: matched by
/// the primary subtag; Chinese only in the simplified script; one Portuguese
/// for both sides of the Atlantic.
pub open spec fn spec_match_tag(tag: Seq<char>) -> Option<int> {
    let parts = tag_parts(normalized_tag(tag));
    let primary = parts[0];
    if primary.len() == 0 {
        None
    } else if primary == "zh"@ {
        if traditional_chinese(parts.drop_first()) {
            None
        } else {
            Some(2)
        }
    } else if primary == "pt"@ {
        Some(5)
    } else if primary == "en"@ {
        Some(0)
    } else if primary == "ru"@ {
        Some(1)
    } else if primary == "ja"@ {
        Some(3)
    } else if primary == "ko"@ {
        Some(4)
    } else if primary == "es"@ {
        Some(6)
    } else if primary == "de"@ {
        Some(7)
    } else {
        None
    }
}

proof fn lemma_split_nonempty(s: Seq<char>, sep: char)
    ensures
        split_at_char(s, sep).len() >= 1,
    decreases s.len(),
{
    if s.len() > 0 {
        lemma_split_nonempty(s.drop_last(), sep);
    }
}

/// Characters without the separator only lengthen the last piece.
proof fn lemma_split_extend(x: Seq<char>, y: Seq<char>, sep: char)
    requires
        forall|i: int| 0 <= i < y.len() ==> y[i] != sep,
    ensures
        split_at_char(x + y, sep) == split_at_char(x, sep).update(
            split_at_char(x, sep).len() - 1,
            split_at_char(x, sep).last() + y,
        ),
    decreases y.len(),
{
    lemma_split_nonempty(x, sep);
    let p = split_at_char(x, sep);
    if y.len() == 0 {
        assert(x + y =~= x);
        assert(p.last() + y =~= p.last());
        assert(p.update(p.len() - 1, p.last() + y) =~= p);
    } else {
        let y2 = y.drop_last();
        lemma_split_extend(x, y2, sep);
        assert((x + y).drop_last() =~= x + y2);
        assert((x + y).last() == y.last());
        assert(y.last() == y[y.len() - 1]);
        let q = split_at_char(x + y2, sep);
        assert(q.last() == p.last() + y2);
        assert(q.last().push(y.last()) =~= p.last() + y);
        assert(q.update(q.len() - 1, q.last().push(y.last())) =~= p.update(p.len() - 1, p.last() + y));
    }
}

/// A tag in the form the table writes it: ASCII letters, at most one dash
/// between two pieces.
proof fn lemma_table_tag(a: Seq<char>, b: Option<Seq<char>>)
    requires
        a.len() > 0,
        forall|i: int| 0 <= i < a.len() ==> ('a' <= #[trigger] a[i] <= 'z' || 'A' <= a[i] <= 'Z'),
        b matches Some(bb) ==> bb.len() > 0 && forall|i: int|
            0 <= i < bb.len() ==> ('a' <= #[trigger] bb[i] <= 'z' || 'A' <= bb[i] <= 'Z'),
    ensures
        ({
            let t = match b {
                Some(bb) => a + seq!['-'] + bb,
                None => a,
            };
            let low = |s: Seq<char>| s.map_values(|c: char| tag_char(c));
            tag_parts(normalized_tag(t)) == match b {
                Some(bb) => seq![low(a), low(bb)],
                None => seq![low(a)],
            }
        }),
{
    let t = match b {
        Some(bb) => a + seq!['-'] + bb,
        None => a,
    };
    assert(t[0] == a[0]);
    assert(!is_white_space(t[0]));
    assert(skip_white(t, 0) == 0);
    let last = t[t.len() - 1];
    match b {
        Some(bb) => {
            assert(last == bb[bb.len() - 1]);
        },
        None => {
            assert(last == a[a.len() - 1]);
        },
    }
    assert(!is_white_space(last));
    assert(back_white(t, 0, t.len() as int) == t.len());
    assert(t.subrange(0, t.len() as int) =~= t);
    let low = |s: Seq<char>| s.map_values(|c: char| tag_char(c));
    let la = low(a);
    assert forall|i: int| 0 <= i < la.len() implies la[i] != '-' by {
        assert(la[i] == tag_char(a[i]));
    }
    lemma_split_extend(Seq::empty(), la, '-');
    assert(Seq::<char>::empty() + la =~= la);
    assert(split_at_char(Seq::<char>::empty(), '-') == seq![Seq::<char>::empty()]);
    assert(seq![Seq::<char>::empty()].update(0, Seq::<char>::empty() + la) =~= seq![la]);
    match b {
        Some(bb) => {
            let lb = low(bb);
            assert(normalized_tag(t) =~= la + seq!['-'] + lb);
            assert forall|i: int| 0 <= i < lb.len() implies lb[i] != '-' by {
                assert(lb[i] == tag_char(bb[i]));
            }
            let x = la + seq!['-'];
            assert(x.drop_last() =~= la);
            assert(x.last() == '-');
            assert(split_at_char(x, '-') == seq![la].push(Seq::<char>::empty()));
            assert(seq![la].push(Seq::<char>::empty()) =~= seq![la, Seq::<char>::empty()]);
            lemma_split_extend(x, lb, '-');
            assert(Seq::<char>::empty() + lb =~= lb);
            assert(seq![la, Seq::<char>::empty()].update(1, Seq::<char>::empty() + lb) =~= seq![la, lb]);
        },
        None => {
            assert(normalized_tag(t) =~= la);
        },
    }
}

/// A language saved by its code reads back as itself.
pub proof fn saved_code_reads_back(i: int)
    requires
        0 <= i < 8,
    ensures
        spec_match_tag(language_codes()[i]) == Some(i),
{
    reveal_strlit("en");
    reveal_strlit("ru");
    reveal_strlit("zh-CN");
    reveal_strlit("ja");
    reveal_strlit("ko");
    reveal_strlit("pt-BR");
    reveal_strlit("es");
    reveal_strlit("de");
    reveal_strlit("zh");
    reveal_strlit("pt");
    reveal_strlit("hant");
    reveal_strlit("hans");
    reveal_strlit("tw");
    reveal_strlit("hk");
    reveal_strlit("mo");
    let code = language_codes()[i];
    let low = |s: Seq<char>| s.map_values(|c: char| tag_char(c));
    let primary = if i == 2 || i == 5 {
        code.take(2)
    } else {
        code
    };
    if i == 2 || i == 5 {
        let b = code.skip(3);
        assert(code =~= primary + seq!['-'] + b);
        lemma_table_tag(primary, Some(b));
        assert(low(primary) =~= primary);
        if i == 2 {
            assert(low(b) =~= seq!['c', 'n']) by {
                assert(tag_char('C') == 'c');
                assert(tag_char('N') == 'n');
            }
            let rest = tag_parts(normalized_tag(code)).drop_first();
            assert(rest =~= seq![seq!['c', 'n']]);
            assert(!traditional_chinese(rest)) by {
                assert forall|k: int| 0 <= k < rest.len() implies !(rest[k] == "hant"@ || rest[k]
                    == "tw"@ || rest[k] == "hk"@ || rest[k] == "mo"@) by {
                    assert(rest[k] == seq!['c', 'n']);
                    assert(rest[k][0] != "tw"@[0]);
                    assert(rest[k][0] != "hk"@[0]);
                    assert(rest[k][0] != "mo"@[0]);
                    assert(rest[k].len() != "hant"@.len());
                }
            }
        }
    } else {
        lemma_table_tag(code, None);
        assert(low(code) =~= code);
    }
    assert(tag_parts(normalized_tag(code))[0] == primary);
    assert(primary.len() == 2);
    if i == 0 {
        assert(primary =~= "en"@);
        assert(primary[0] != "zh"@[0]);
        assert(primary[0] != "pt"@[0]);
        assert(primary[0] != "ru"@[0]);
        assert(primary[0] != "ja"@[0]);
        assert(primary[0] != "ko"@[0]);
        assert(primary[1] != "es"@[1]);
        assert(primary[0] != "de"@[0]);
    }
    if i == 1 {
        assert(primary =~= "ru"@);
        assert(primary[0] != "zh"@[0]);
        assert(primary[0] != "pt"@[0]);
        assert(primary[0] != "en"@[0]);
        assert(primary[0] != "ja"@[0]);
        assert(primary[0] != "ko"@[0]);
        assert(primary[0] != "es"@[0]);
        assert(primary[0] != "de"@[0]);
    }
    if i == 2 {
        assert(primary =~= "zh"@);
        assert(primary[0] != "pt"@[0]);
        assert(primary[0] != "en"@[0]);
        assert(primary[0] != "ru"@[0]);
        assert(primary[0] != "ja"@[0]);
        assert(primary[0] != "ko"@[0]);
        assert(primary[0] != "es"@[0]);
        assert(primary[0] != "de"@[0]);
    }
    if i == 3 {
        assert(primary =~= "ja"@);
        assert(primary[0] != "zh"@[0]);
        assert(primary[0] != "pt"@[0]);
        assert(primary[0] != "en"@[0]);
        assert(primary[0] != "ru"@[0]);
        assert(primary[0] != "ko"@[0]);
        assert(primary[0] != "es"@[0]);
        assert(primary[0] != "de"@[0]);
    }
    if i == 4 {
        assert(primary =~= "ko"@);
        assert(primary[0] != "zh"@[0]);
        assert(primary[0] != "pt"@[0]);
        assert(primary[0] != "en"@[0]);
        assert(primary[0] != "ru"@[0]);
        assert(primary[0] != "ja"@[0]);
        assert(primary[0] != "es"@[0]);
        assert(primary[0] != "de"@[0]);
    }
    if i == 5 {
        assert(primary =~= "pt"@);
        assert(primary[0] != "zh"@[0]);
        assert(primary[0] != "en"@[0]);
        assert(primary[0] != "ru"@[0]);
        assert(primary[0] != "ja"@[0]);
        assert(primary[0] != "ko"@[0]);
        assert(primary[0] != "es"@[0]);
        assert(primary[0] != "de"@[0]);
    }
    if i == 6 {
        assert(primary =~= "es"@);
        assert(primary[0] != "zh"@[0]);
        assert(primary[0] != "pt"@[0]);
        assert(primary[1] != "en"@[1]);
        assert(primary[0] != "ru"@[0]);
        assert(primary[0] != "ja"@[0]);
        assert(primary[0] != "ko"@[0]);
        assert(primary[0] != "de"@[0]);
    }
    if i == 7 {
        assert(primary =~= "de"@);
        assert(primary[0] != "zh"@[0]);
        assert(primary[0] != "pt"@[0]);
        assert(primary[0] != "en"@[0]);
        assert(primary[0] != "ru"@[0]);
        assert(primary[0] != "ja"@[0]);
        assert(primary[0] != "ko"@[0]);
        assert(primary[0] != "es"@[0]);
    }
}

fn is_word(v: &Vec<char>, w: &str) -> (res: bool)
    ensures
        res == (v@ == w@),
{
    let wc = chars_of(w);
    crate::names::chars_eq(v, &wc)
}

/// Finds the supported language for a BCP 47 tag such as `ru-RU` or
/// `zh-Hans-CN`.
pub fn match_tag(tag: &str) -> (res: Option<Language>)
    ensures
        match spec_match_tag(tag@) {
            Some(i) => res matches Some(l) && l.code@ == language_codes()[i] && l.native_name@
                == native_names()[i],
            None => res is None,
        },
{
    let chars = chars_of(tag);
    let mut lo: usize = 0;
    while lo < chars.len() && white_space(chars[lo])
        invariant
            chars@ == tag@,
            lo <= chars.len(),
            skip_white(tag@, 0) == skip_white(tag@, lo as int),
        decreases chars.len() - lo,
    {
        lo = lo + 1;
    }
    let mut hi: usize = chars.len();
    while hi > lo && white_space(chars[hi - 1])
        invariant
            chars@ == tag@,
            lo <= hi <= chars.len(),
            skip_white(tag@, 0) == lo,
            back_white(tag@, lo as int, tag@.len() as int) == back_white(tag@, lo as int, hi as int),
        decreases hi,
    {
        hi = hi - 1;
    }
    let ghost norm = normalized_tag(tag@);
    // Lowered, `_` as `-`, split at dashes.
    let mut parts: Vec<Vec<char>> = Vec::new();
    let mut cur: Vec<char> = Vec::new();
    let mut i: usize = lo;
    while i < hi
        invariant
            chars@ == tag@,
            lo <= i <= hi <= chars.len(),
            lo == skip_white(tag@, 0),
            hi == back_white(tag@, lo as int, tag@.len() as int),
            norm == normalized_tag(tag@),
            parts@.map_values(|v: Vec<char>| v@).push(cur@) == tag_parts(norm.take(i - lo)),
        decreases hi - i,
    {
        let c = chars[i];
        let t = if c == '_' {
            '-'
        } else if 'A' <= c && c <= 'Z' {
            ((c as u32) + 32) as u8 as char
        } else {
            c
        };
        assert(t == tag_char(c)) by {
            if c != '_' && 'A' <= c && c <= 'Z' {
                assert(((c as u32) + 32) as u8 as char == ((c as u32) + 32) as char);
            }
        }
        let ghost prev = norm.take(i - lo);
        proof {
            assert(norm.take(i + 1 - lo).drop_last() =~= prev);
            assert(norm.take(i + 1 - lo).last() == t);
            crate::mounts::lemma_split_len(prev, '-');
        }
        let ghost before = parts@.map_values(|v: Vec<char>| v@);
        if t == '-' {
            let done = cur;
            parts.push(done);
            cur = Vec::new();
            proof {
                assert(parts@.map_values(|v: Vec<char>| v@) =~= before.push(done@));
                assert(parts@.map_values(|v: Vec<char>| v@).push(cur@) =~= before.push(done@).push(
                    Seq::empty(),
                ));
            }
        } else {
            cur.push(t);
            proof {
                let p = tag_parts(prev);
                assert(before.push(cur@) =~= p.update(p.len() - 1, p.last().push(t)));
            }
        }
        i = i + 1;
    }
    proof {
        assert(norm.take(hi - lo) =~= norm);
    }
    let ghost before = parts@.map_values(|v: Vec<char>| v@);
    parts.push(cur);
    let ghost ps = parts@.map_values(|v: Vec<char>| v@);
    proof {
        assert(ps =~= before.push(parts@[parts@.len() - 1]@));
        assert(ps == tag_parts(norm));
        assert(ps[0] == parts@[0]@);
    }
    let primary = &parts[0];
    if primary.len() == 0 {
        return None;
    }
    if is_word(primary, "zh") {
        let mut simplified = false;
        let mut traditional = false;
        for k in 1..parts.len()
            invariant
                ps == parts@.map_values(|v: Vec<char>| v@),
                simplified == exists|j: int| 0 <= j < k - 1 && ps.drop_first()[j] == "hans"@,
                traditional == exists|j: int|
                    0 <= j < k - 1 && (ps.drop_first()[j] == "hant"@ || ps.drop_first()[j] == "tw"@
                        || ps.drop_first()[j] == "hk"@ || ps.drop_first()[j] == "mo"@),
        {
            let p = &parts[k];
            proof {
                assert(ps.drop_first()[k - 1] == p@);
            }
            if is_word(p, "hans") {
                simplified = true;
            }
            if is_word(p, "hant") || is_word(p, "tw") || is_word(p, "hk") || is_word(p, "mo") {
                traditional = true;
            }
        }
        if traditional && !simplified {
            return None;
        }
        return Some(language_at(2));
    }
    if is_word(primary, "pt") {
        return Some(language_at(5));
    }
    if is_word(primary, "en") {
        Some(language_at(0))
    } else if is_word(primary, "ru") {
        Some(language_at(1))
    } else if is_word(primary, "ja") {
        Some(language_at(3))
    } else if is_word(primary, "ko") {
        Some(language_at(4))
    } else if is_word(primary, "es") {
        Some(language_at(6))
    } else if is_word(primary, "de") {
        Some(language_at(7))
    } else {
        None
    }
}

/// The language this process speaks, and what decided it.
#[derive(Debug, Clone, Copy, PartialEq, Eq)]
pub struct I18nState {
    pub language: Language,
    pub source: Source,
}

/// The language this process speaks.
pub fn language(state: &I18nState) -> (res: Language)
    ensures
        res == state.language,
{
    state.language
}

/// What decided the language this process speaks.
pub fn source(state: &I18nState) -> (res: Source)
    ensures
        res == state.source,
{
    state.source
}

/// Switches to a language right away, whatever decides it otherwise — so
/// that `zipmount language de` can confirm in German.
pub fn switch_to(state: &mut I18nState, language: Language, source: Source)
    ensures
        final(state).language == language,
        final(state).source == source,
{
    state.language = language;
    state.source = source;
}

/// Switches to the language decided anew if it changed. Returns whether it
/// did: a different language, or the same one decided otherwise.
pub fn refresh(state: &mut I18nState, decided: (Language, Source)) -> (res: bool)
    ensures
        res == !(old(state).language.code@ == decided.0.code@ && old(state).source == decided.1),
        res ==> final(state).language == decided.0 && final(state).source == decided.1,
        !res ==> *final(state) == *old(state),
{
    let current = chars_of(state.language.code);
    let next = chars_of(decided.0.code);
    if crate::names::chars_eq(&current, &next) && state.source == decided.1 {
        return false;
    }
    switch_to(state, decided.0, decided.1);
    true
}

/// The language as decided for a process that does not see `ZIPMOUNT_LANG`
/// — File Explorer, above all: the saved choice, else the Windows display
/// language, else English.
pub fn decide_without_environment(saved: Option<Language>, windows: Option<Language>) -> (res: (
    Language,
    Source,
))
    ensures
        match (saved, windows) {
            (Some(l), _) => res == (l, Source::Saved),
            (None, Some(l)) => res == (l, Source::Windows),
            (None, None) => res.1 == Source::Default && res.0.code@ == "en"@,
        },
{
    if let Some(language) = saved {
        return (language, Source::Saved);
    }
    if let Some(language) = windows {
        return (language, Source::Windows);
    }
    (language_at(0), Source::Default)
}

/// The language as decided for this process: `ZIPMOUNT_LANG` first, then
/// as without it.
pub fn decide(environment: Option<Language>, saved: Option<Language>, windows: Option<Language>) -> (res: (
    Language,
    Source,
))
    ensures
        match (environment, saved, windows) {
            (Some(l), _, _) => res == (l, Source::Environment),
            (None, Some(l), _) => res == (l, Source::Saved),
            (None, None, Some(l)) => res == (l, Source::Windows),
            (None, None, None) => res.1 == Source::Default && res.0.code@ == "en"@,
        },
{
    match environment {
        Some(language) => (language, Source::Environment),
        None => decide_without_environment(saved, windows),
    }
}

/// The language a saved setting names, if it is one we speak.
pub fn saved(setting: Option<&str>) -> (res: Option<Language>)
    ensures
        match setting {
            Some(tag) => match spec_match_tag(tag@) {
                Some(i) => res matches Some(l) && l.code@ == language_codes()[i],
                None => res is None,
            },
            None => res is None,
        },
{
    match setting {
        Some(tag) => match_tag(tag),
        None => None,
    }
}

/// The language `ZIPMOUNT_LANG` asks for, if it is set to one we speak.
pub fn from_environment(value: Option<&str>) -> (res: Option<Language>)
    ensures
        match value {
            Some(tag) => match spec_match_tag(tag@) {
                Some(i) => res matches Some(l) && l.code@ == language_codes()[i],
                None => res is None,
            },
            None => res is None,
        },
{
    saved(value)
}

/// The language Windows asks for: the first of the user's display
/// languages, in their order of preference, that we speak.
pub fn from_windows(tags: &[String]) -> (res: Option<Language>)
    ensures
        match res {
            Some(l) => exists|k: int|
                0 <= k < tags@.len() && (spec_match_tag(#[trigger] tags@[k]@) matches Some(i) && l.code@
                    == language_codes()[i]) && forall|j: int|
                    0 <= j < k ==> spec_match_tag(#[trigger] tags@[j]@) is None,
            None => forall|j: int| 0 <= j < tags@.len() ==> spec_match_tag(#[trigger] tags@[j]@) is None,
        },
{
    for k in 0..tags.len()
        invariant
            forall|j: int| 0 <= j < k ==> spec_match_tag(#[trigger] tags@[j]@) is None,
    {
        if let Some(language) = match_tag(tags[k].as_str()) {
            return Some(language);
        }
    }
    None
}

/// What saving a choice does to the stored setting.
#[derive(Debug, Clone, Copy, PartialEq, Eq)]
pub enum SettingChange {
    /// Store this code.
    Write(&'static str),
    /// Remove the setting, handing the decision back to Windows.
    Delete,
}

/// Saves the language choice for this user; `None` removes it.
pub fn save(language: Option<Language>) -> (res: SettingChange)
    ensures
        match language {
            Some(l) => res == SettingChange::Write(l.code),
            None => res == SettingChange::Delete,
        },
{
    match language {
        Some(l) => SettingChange::Write(l.code),
        None => SettingChange::Delete,
    }
}

/// What `zipmount language <code>` asks for.
#[derive(Debug, Clone, Copy)]
pub enum LanguageChoice {
    /// `auto`, in any case: follow the system.
    Auto,
    /// A language the program speaks.
    Chosen(Language),
    /// A code that matches none.
    Unknown,
}

/// Reads the argument of `zipmount language`: `auto` (ASCII case ignored),
/// else a tag matched as `match_tag` matches it.
pub fn choice_of(code: &str) -> (res: LanguageChoice)
    ensures
        same_letter(code@, "auto"@) ==> res is Auto,
        !same_letter(code@, "auto"@) ==> match spec_match_tag(code@) {
            Some(i) => res matches LanguageChoice::Chosen(l) && l.code@ == language_codes()[i],
            None => res is Unknown,
        },
{
    if eq_ignore_ascii_case(code, "auto") {
        return LanguageChoice::Auto;
    }
    match match_tag(code) {
        Some(l) => LanguageChoice::Chosen(l),
        None => LanguageChoice::Unknown,
    }
}

/// What follows the last backslash of a settings key (all of it where there
/// is none).
pub open spec fn last_segment(s: Seq<char>) -> Seq<char>
    decreases s.len(),
{
    if s.len() == 0 {
        s
    } else if s.last() == '\\' {
        Seq::empty()
    } else {
        last_segment(s.drop_last()).push(s.last())
    }
}

/// The folder that holds a settings key's values where there is no
/// registry: the key's last segment, lower-cased where the platform's
/// convention asks for it (`~/.config/zipmount`), as is otherwise
/// (`~/Library/Application Support/ZipMount`).
pub fn setting_folder(key: &str, lowercase: bool) -> (res: String)
    ensures
        res@ == (if lowercase {
            lower_key(last_segment(key@))
        } else {
            last_segment(key@)
        }),
{
    let chars = chars_of(key);
    let mut seg: Vec<char> = Vec::new();
    for k in 0..chars.len()
        invariant
            chars@ == key@,
            seg@ == last_segment(key@.take(k as int)),
    {
        proof {
            assert(key@.take(k + 1).drop_last() =~= key@.take(k as int));
            assert(key@.take(k + 1).last() == key@[k as int]);
        }
        if chars[k] == '\\' {
            seg = Vec::new();
        } else {
            seg.push(chars[k]);
        }
    }
    assert(key@.take(chars.len() as int) =~= key@);
    let plain = string_from_chars(seg.as_slice());
    if lowercase {
        let lowered = lower_key_of(plain.as_str());
        string_from_chars(lowered.as_slice())
    } else {
        plain
    }
}

} // verus!
