//! Turning names from an archive into something Windows can digest.
//!
//! Zip allows names Win32 simply cannot open: with `*?<>|:"` in them, with a
//! trailing dot or space, or matching device names (`CON`, `COM1`). Our
//! filesystem itself would serve them, but File Explorer and every other
//! program trip over parsing the path before they even reach us — so they
//! are fixed here.

use vstd::prelude::*;

use crate::text::{chars_of, string_from_chars};

verus! {

pub const REPLACEMENT: char = '_';

/// A character as it may stand in a Windows name.
pub open spec fn safe_char(c: char) -> char {
    if c == '<' || c == '>' || c == ':' || c == '"' || c == '/' || c == '\\' || c == '|' || c
        == '?' || c == '*' || (c as u32) < 0x20 {
        REPLACEMENT
    } else {
        c
    }
}

pub open spec fn map_safe(s: Seq<char>) -> Seq<char> {
    s.map_values(|c: char| safe_char(c))
}

/// Trailing dots and spaces removed.
pub open spec fn trim_dots_spaces(s: Seq<char>) -> Seq<char>
    decreases s.len(),
{
    if s.len() > 0 && (s.last() == ' ' || s.last() == '.') {
        trim_dots_spaces(s.drop_last())
    } else {
        s
    }
}

pub open spec fn ascii_lower(c: char) -> char {
    if 'A' <= c <= 'Z' {
        ((c as u32) + 32) as char
    } else {
        c
    }
}

/// The part of a name before its first dot.
pub open spec fn stem(s: Seq<char>) -> Seq<char>
    decreases s.len(),
{
    if s.len() == 0 {
        s
    } else if s.last() == '.' && !s.drop_last().contains('.') {
        s.drop_last()
    } else if s.drop_last().contains('.') {
        stem(s.drop_last())
    } else {
        s
    }
}

/// DOS device names, ignoring ASCII case: CON, PRN, AUX, NUL, COM1–COM9 and
/// LPT1–LPT9.
pub open spec fn is_device_name(s: Seq<char>) -> bool {
    let l = s.map_values(|c: char| ascii_lower(c));
    ||| l == seq!['c', 'o', 'n']
    ||| l == seq!['p', 'r', 'n']
    ||| l == seq!['a', 'u', 'x']
    ||| l == seq!['n', 'u', 'l']
    ||| (l.len() == 4 && (l.take(3) == seq!['c', 'o', 'm'] || l.take(3) == seq!['l', 'p', 't'])
        && '1' <= l[3] <= '9')
}

/// Reserved with any extension too: to Win32, `CON.txt` is still the CON
/// device.
pub open spec fn spec_is_reserved(name: Seq<char>) -> bool {
    is_device_name(stem(name))
}

/// One path component made safe for Windows: forbidden characters replaced,
/// trailing dots and spaces dropped, an empty result replaced by `_`, and a
/// device name prefixed with `_`.
pub open spec fn spec_sanitize(name: Seq<char>) -> Seq<char> {
    let trimmed = trim_dots_spaces(map_safe(name));
    let result = if trimmed.len() == 0 {
        seq![REPLACEMENT]
    } else {
        trimmed
    };
    if spec_is_reserved(result) {
        seq![REPLACEMENT] + result
    } else {
        result
    }
}

/// The index of the first dot, or the length.
fn first_dot(s: &Vec<char>) -> (res: usize)
    ensures
        res <= s.len(),
        s@.take(res as int) == stem(s@),
{
    let mut i: usize = 0;
    while i < s.len() && s[i] != '.'
        invariant
            i <= s.len(),
            forall|j: int| 0 <= j < i ==> s@[j] != '.',
        decreases s.len() - i,
    {
        i = i + 1;
    }
    proof {
        lemma_stem(s@, i as int);
    }
    i
}

proof fn lemma_stem(s: Seq<char>, i: int)
    requires
        0 <= i <= s.len(),
        forall|j: int| 0 <= j < i ==> s[j] != '.',
        i == s.len() || s[i] == '.',
    ensures
        s.take(i) == stem(s),
    decreases s.len(),
{
    if s.len() == 0 {
        assert(s.take(i) =~= s);
    } else if i == s.len() {
        assert(!s.drop_last().contains('.'));
        assert(s.take(i) =~= s);
    } else {
        // The first dot lies inside the prefix without the last character, or is it.
        if i == s.len() - 1 {
            assert(!s.drop_last().contains('.'));
            assert(s.take(i) =~= s.drop_last());
        } else {
            assert(s.drop_last()[i] == '.');
            assert(s.drop_last().contains('.'));
            lemma_stem(s.drop_last(), i);
            assert(s.drop_last().take(i) =~= s.take(i));
        }
    }
}

fn lower(c: char) -> (res: char)
    ensures
        res == ascii_lower(c),
{
    if 'A' <= c && c <= 'Z' {
        ((c as u8) + 32) as char
    } else {
        c
    }
}

fn is_reserved(name: &Vec<char>) -> (res: bool)
    ensures
        res == spec_is_reserved(name@),
{
    let n = first_dot(name);
    let ghost st = stem(name@);
    let ghost l = st.map_values(|c: char| ascii_lower(c));
    assert(st.len() == n);
    assert(l.len() == n);
    if n == 3 {
        let a = lower(name[0]);
        let b = lower(name[1]);
        let c = lower(name[2]);
        assert(l[0] == a && l[1] == b && l[2] == c);
        let res = (a == 'c' && b == 'o' && c == 'n') || (a == 'p' && b == 'r' && c == 'n') || (a
            == 'a' && b == 'u' && c == 'x') || (a == 'n' && b == 'u' && c == 'l');
        assert(res ==> (l =~= seq!['c', 'o', 'n'] || l =~= seq!['p', 'r', 'n'] || l =~= seq![
            'a',
            'u',
            'x',
        ] || l =~= seq!['n', 'u', 'l']));
        assert(l == seq!['c', 'o', 'n'] ==> res);
        assert(l == seq!['p', 'r', 'n'] ==> res);
        assert(l == seq!['a', 'u', 'x'] ==> res);
        assert(l == seq!['n', 'u', 'l'] ==> res);
        res
    } else if n == 4 {
        let a = lower(name[0]);
        let b = lower(name[1]);
        let c = lower(name[2]);
        let d = lower(name[3]);
        assert(l[0] == a && l[1] == b && l[2] == c && l[3] == d);
        let res = ((a == 'c' && b == 'o' && c == 'm') || (a == 'l' && b == 'p' && c == 't')) && '1'
            <= d && d <= '9';
        assert(res ==> (l.take(3) =~= seq!['c', 'o', 'm'] || l.take(3) =~= seq!['l', 'p', 't']));
        assert(l.take(3) =~= seq!['c', 'o', 'm'] ==> a == 'c' && b == 'o' && c == 'm');
        assert(l.take(3) =~= seq!['l', 'p', 't'] ==> a == 'l' && b == 'p' && c == 't');
        assert(l.take(3) == seq!['c', 'o', 'm'] ==> l.take(3)[0] == 'c' && l.take(3)[1] == 'o' && l.take(3)[2] == 'm');
        assert(l.take(3) == seq!['l', 'p', 't'] ==> l.take(3)[0] == 'l' && l.take(3)[1] == 'p' && l.take(3)[2] == 't');
        assert(l != seq!['c', 'o', 'n'] && l != seq!['p', 'r', 'n'] && l != seq!['a', 'u', 'x'] && l != seq!['n', 'u', 'l']);
        res
    } else {
        assert(l != seq!['c', 'o', 'n'] && l != seq!['p', 'r', 'n'] && l != seq!['a', 'u', 'x'] && l != seq!['n', 'u', 'l']);
        false
    }
}

/// Makes one path component safe for Windows.
pub fn sanitize_component(name: &str) -> (res: String)
    ensures
        res@ == spec_sanitize(name@),
{
    let chars = chars_of(name);
    let mut out: Vec<char> = Vec::new();
    let mut i: usize = 0;
    while i < chars.len()
        invariant
            i <= chars.len(),
            chars@ == name@,
            out@ == map_safe(chars@.take(i as int)),
        decreases chars.len() - i,
    {
        let c = chars[i];
        let safe = if c == '<' || c == '>' || c == ':' || c == '"' || c == '/' || c == '\\' || c
            == '|' || c == '?' || c == '*' || (c as u32) < 0x20 {
            REPLACEMENT
        } else {
            c
        };
        out.push(safe);
        i = i + 1;
        assert(out@ =~= map_safe(chars@.take(i as int)));
    }
    assert(chars@.take(i as int) =~= chars@);

    // Win32 silently strips trailing dots and spaces, leaving the file
    // unreachable by its own name. Strip them ourselves so the name stays
    // honest.
    let ghost mapped = out@;
    while out.len() > 0 && (out[out.len() - 1] == ' ' || out[out.len() - 1] == '.')
        invariant
            trim_dots_spaces(mapped) == trim_dots_spaces(out@),
        decreases out.len(),
    {
        let ghost before = out@;
        out.pop();
        assert(out@ =~= before.drop_last());
    }
    if out.len() == 0 {
        out.push(REPLACEMENT);
        assert(out@ =~= seq![REPLACEMENT]);
    }
    if is_reserved(&out) {
        let mut prefixed: Vec<char> = Vec::new();
        prefixed.push(REPLACEMENT);
        let mut k: usize = 0;
        while k < out.len()
            invariant
                k <= out.len(),
                prefixed@ == seq![REPLACEMENT] + out@.take(k as int),
            decreases out.len() - k,
        {
            prefixed.push(out[k]);
            k = k + 1;
            assert(prefixed@ =~= seq![REPLACEMENT] + out@.take(k as int));
        }
        assert(out@.take(k as int) =~= out@);
        return string_from_chars(prefixed.as_slice());
    }
    string_from_chars(out.as_slice())
}


/// The decimal digit `d` as a character.
pub open spec fn digit_char(d: int) -> char {
    ((d + 48) as u32) as char
}

/// The decimal representation of `n`, without leading zeros.
pub open spec fn decimal_chars(n: nat) -> Seq<char>
    decreases n,
{
    if n < 10 {
        seq![digit_char(n as int)]
    } else {
        decimal_chars(n / 10).push(digit_char((n % 10) as int))
    }
}

/// The decimal representation of `n`.
pub fn decimal_digits(n: u64) -> (res: Vec<char>)
    ensures
        res@ == decimal_chars(n as nat),
    decreases n,
{
    let d = ((n % 10) as u8 + 48) as char;
    if n < 10 {
        let mut v: Vec<char> = Vec::new();
        v.push(d);
        assert(v@ =~= seq![digit_char(n as int)]);
        v
    } else {
        let mut v = decimal_digits(n / 10);
        v.push(d);
        v
    }
}

/// The index of the last dot, if any.
pub open spec fn last_dot(s: Seq<char>) -> Option<int>
    decreases s.len(),
{
    if s.len() == 0 {
        None
    } else if s.last() == '.' {
        Some(s.len() - 1)
    } else {
        last_dot(s.drop_last())
    }
}

/// A name with a counter before its extension: `log.txt` -> `log~1.txt`. A
/// leading dot is not an extension but a hidden file like `.gitignore`.
pub open spec fn spec_disambiguate(name: Seq<char>, n: nat) -> Seq<char> {
    match last_dot(name) {
        Some(pos) if pos > 0 => name.take(pos) + seq!['~'] + decimal_chars(n) + name.skip(pos),
        _ => name + seq!['~'] + decimal_chars(n),
    }
}

proof fn lemma_last_dot(s: Seq<char>, i: int)
    requires
        -1 <= i < s.len(),
        forall|j: int| i < j < s.len() ==> s[j] != '.',
        i >= 0 ==> s[i] == '.',
    ensures
        last_dot(s) == (if i >= 0 {
            Some(i)
        } else {
            None::<int>
        }),
    decreases s.len(),
{
    if s.len() > 0 && i < s.len() - 1 {
        lemma_last_dot(s.drop_last(), i);
    }
}

/// Appends `src` to `dst`.
fn extend_chars(dst: &mut Vec<char>, src: &[char])
    ensures
        final(dst)@ == old(dst)@ + src@,
{
    let mut k: usize = 0;
    let ghost start = dst@;
    while k < src.len()
        invariant
            k <= src.len(),
            dst@ == start + src@.take(k as int),
        decreases src.len() - k,
    {
        dst.push(src[k]);
        k = k + 1;
        assert(dst@ =~= start + src@.take(k as int));
    }
    assert(src@.take(k as int) =~= src@);
}

/// Separates colliding names with a suffix before the extension:
/// `log.txt` -> `log~1.txt`.
pub fn disambiguate(name: &str, n: usize) -> (res: String)
    ensures
        res@ == spec_disambiguate(name@, n as nat),
{
    let chars = chars_of(name);
    let mut i: usize = chars.len();
    while i > 0 && chars[i - 1] != '.'
        invariant
            i <= chars.len(),
            forall|j: int| i <= j < chars.len() ==> chars@[j] != '.',
        decreases i,
    {
        i = i - 1;
    }
    proof {
        lemma_last_dot(chars@, i - 1);
    }
    let digits = decimal_digits(n as u64);
    let mut out: Vec<char> = Vec::new();
    if i > 1 {
        let pos = i - 1;
        extend_chars(&mut out, &chars.as_slice()[0..pos]);
        out.push('~');
        extend_chars(&mut out, digits.as_slice());
        extend_chars(&mut out, &chars.as_slice()[pos..chars.len()]);
        assert(out@ =~= name@.take(pos as int) + seq!['~'] + decimal_chars(n as nat) + name@.skip(
            pos as int,
        ));
    } else {
        extend_chars(&mut out, chars.as_slice());
        out.push('~');
        extend_chars(&mut out, digits.as_slice());
        assert(out@ =~= name@ + seq!['~'] + decimal_chars(n as nat));
    }
    string_from_chars(out.as_slice())
}

pub open spec fn is_sep(c: char) -> bool {
    c == '/' || c == '\\'
}

/// The pieces between separators, as `str::split` yields them: there is
/// always at least one, possibly empty.
pub open spec fn segments(s: Seq<char>) -> Seq<Seq<char>>
    decreases s.len(),
{
    if s.len() == 0 {
        seq![Seq::empty()]
    } else if is_sep(s.last()) {
        segments(s.drop_last()).push(Seq::empty())
    } else {
        let segs = segments(s.drop_last());
        segs.update(segs.len() - 1, segs.last().push(s.last()))
    }
}

/// Empty pieces, `.` and `..` are dropped: an entry like
/// `../../windows/system32/evil.dll` stays inside the root.
pub open spec fn keeps(seg: Seq<char>) -> bool {
    seg.len() > 0 && seg != seq!['.'] && seg != seq!['.', '.']
}

/// The kept pieces, each sanitized.
pub open spec fn kept_components(segs: Seq<Seq<char>>) -> Seq<Seq<char>>
    decreases segs.len(),
{
    if segs.len() == 0 {
        Seq::empty()
    } else if keeps(segs.last()) {
        kept_components(segs.drop_last()).push(spec_sanitize(segs.last()))
    } else {
        kept_components(segs.drop_last())
    }
}

pub open spec fn spec_split_path(path: Seq<char>) -> Seq<Seq<char>> {
    kept_components(segments(path))
}

pub open spec fn string_views(v: Seq<String>) -> Seq<Seq<char>> {
    v.map_values(|s: String| s@)
}

proof fn lemma_segments_len(s: Seq<char>)
    ensures
        segments(s).len() >= 1,
    decreases s.len(),
{
    if s.len() > 0 {
        lemma_segments_len(s.drop_last());
    }
}

/// Flushes the current piece into the list of components.
fn flush(out: &mut Vec<String>, cur: &Vec<char>)
    ensures
        string_views(final(out)@) == (if keeps(cur@) {
            string_views(old(out)@).push(spec_sanitize(cur@))
        } else {
            string_views(old(out)@)
        }),
{
    let n = cur.len();
    let keep = if n == 0 {
        false
    } else if n == 1 && cur[0] == '.' {
        false
    } else if n == 2 && cur[0] == '.' && cur[1] == '.' {
        false
    } else {
        true
    };
    assert(n == 1 && cur@[0] == '.' ==> cur@ =~= seq!['.']);
    assert(n == 2 && cur@[0] == '.' && cur@[1] == '.' ==> cur@ =~= seq!['.', '.']);
    assert(cur@ == seq!['.'] ==> n == 1 && cur@[0] == '.');
    assert(cur@ == seq!['.', '.'] ==> n == 2 && cur@[0] == '.' && cur@[1] == '.');
    if keep {
        let piece = string_from_chars(cur.as_slice());
        let clean = sanitize_component(piece.as_str());
        let ghost before = old(out)@;
        out.push(clean);
        assert(string_views(out@) =~= string_views(before).push(spec_sanitize(cur@)));
    }
}

/// Splits a path from the archive into components, defusing `..` on the way.
///
/// An entry like `../../windows/system32/evil.dll` is the classic zip-slip.
/// It cannot make us write to disk (the volume is read-only), but it could
/// lead a node outside the volume root, so such components are just dropped.
pub fn split_path(path: &str) -> (res: Vec<String>)
    ensures
        string_views(res@) == spec_split_path(path@),
{
    let chars = chars_of(path);
    let mut out: Vec<String> = Vec::new();
    let mut cur: Vec<char> = Vec::new();
    let mut i: usize = 0;
    while i < chars.len()
        invariant
            i <= chars.len(),
            chars@ == path@,
            segments(chars@.take(i as int)).last() == cur@,
            string_views(out@) == kept_components(segments(chars@.take(i as int)).drop_last()),
        decreases chars.len() - i,
    {
        let c = chars[i];
        let ghost prev = chars@.take(i as int);
        proof {
            lemma_segments_len(prev);
            assert(chars@.take(i + 1).drop_last() =~= prev);
        }
        if c == '/' || c == '\\' {
            flush(&mut out, &cur);
            cur = Vec::new();
            proof {
                let segs = segments(prev);
                assert(segments(chars@.take(i + 1)) == segs.push(Seq::<char>::empty()));
                assert(segs.push(Seq::<char>::empty()).drop_last() =~= segs);
                assert(segs =~= segs.drop_last().push(segs.last()));
            }
        } else {
            cur.push(c);
            proof {
                let segs = segments(prev);
                let segs2 = segs.update(segs.len() - 1, segs.last().push(c));
                assert(segments(chars@.take(i + 1)) == segs2);
                assert(segs2.drop_last() =~= segs.drop_last());
            }
        }
        i = i + 1;
    }
    assert(chars@.take(i as int) =~= chars@);
    proof {
        lemma_segments_len(chars@);
        let segs = segments(chars@);
        assert(segs =~= segs.drop_last().push(segs.last()));
    }
    flush(&mut out, &cur);
    out
}

/// A name fit to stand as a path component: not empty, not `.`, and free of
/// separators.
pub open spec fn is_component(s: Seq<char>) -> bool {
    &&& s.len() > 0
    &&& s != seq!['.']
    &&& forall|i: int| 0 <= i < s.len() ==> !is_sep(#[trigger] s[i])
}

/// A decimal representation is one or more digits.
pub proof fn lemma_decimal_chars_digits(n: nat)
    ensures
        decimal_chars(n).len() >= 1,
        forall|i: int|
            0 <= i < decimal_chars(n).len() ==> '0' <= #[trigger] decimal_chars(n)[i] <= '9',
    decreases n,
{
    if n >= 10 {
        lemma_decimal_chars_digits(n / 10);
    }
}

/// Different numbers have different decimal representations.
pub proof fn lemma_decimal_chars_injective(a: nat, b: nat)
    requires
        decimal_chars(a) == decimal_chars(b),
    ensures
        a == b,
    decreases a,
{
    lemma_decimal_chars_digits(a);
    lemma_decimal_chars_digits(b);
    if a < 10 && b < 10 {
        assert(decimal_chars(a)[0] == digit_char(a as int));
        assert(decimal_chars(b)[0] == digit_char(b as int));
    } else if a < 10 {
        lemma_decimal_chars_digits(b / 10);
    } else if b < 10 {
        lemma_decimal_chars_digits(a / 10);
    } else {
        let da = decimal_chars(a);
        let db = decimal_chars(b);
        assert(da.drop_last() =~= decimal_chars(a / 10));
        assert(db.drop_last() =~= decimal_chars(b / 10));
        assert(da.last() == digit_char((a % 10) as int));
        assert(db.last() == digit_char((b % 10) as int));
        lemma_decimal_chars_injective(a / 10, b / 10);
        assert(a == (a / 10) * 10 + a % 10);
        assert(b == (b / 10) * 10 + b % 10);
    }
}

/// The last dot, if found, is a dot within the name.
pub proof fn lemma_last_dot_valid(s: Seq<char>)
    ensures
        match last_dot(s) {
            Some(p) => 0 <= p < s.len() && s[p] == '.',
            None => true,
        },
    decreases s.len(),
{
    if s.len() > 0 && s.last() != '.' {
        lemma_last_dot_valid(s.drop_last());
    }
}

/// A disambiguated component is still a component.
pub proof fn lemma_disambiguate_component(name: Seq<char>, n: nat)
    requires
        is_component(name),
    ensures
        is_component(spec_disambiguate(name, n)),
{
    lemma_decimal_chars_digits(n);
    lemma_last_dot_valid(name);
    let d = decimal_chars(n);
    let r = spec_disambiguate(name, n);
    match last_dot(name) {
        Some(pos) if pos > 0 => {
            let a = name.take(pos);
            let b = name.skip(pos);
            assert(r == a + seq!['~'] + d + b);
            assert forall|i: int| 0 <= i < r.len() implies !is_sep(#[trigger] r[i]) by {
                if i < a.len() {
                    assert(r[i] == name[i]);
                } else if i == a.len() {
                    assert(r[i] == '~');
                } else if i < a.len() + 1 + d.len() {
                    assert(r[i] == d[i - a.len() - 1]);
                } else {
                    assert(r[i] == name[i - 1 - d.len()]);
                }
            }
            assert(r.len() >= 2);
            assert(r != seq!['.']);
        },
        _ => {
            assert(r == name + seq!['~'] + d);
            assert forall|i: int| 0 <= i < r.len() implies !is_sep(#[trigger] r[i]) by {
                if i < name.len() {
                    assert(r[i] == name[i]);
                } else if i == name.len() {
                    assert(r[i] == '~');
                } else {
                    assert(r[i] == d[i - name.len() - 1]);
                }
            }
            assert(r.len() >= 2);
            assert(r != seq!['.']);
        },
    }
}

/// Trimming keeps a prefix that does not end in a dot or a space.
pub proof fn lemma_trim_prefix(s: Seq<char>)
    ensures
        trim_dots_spaces(s).len() <= s.len(),
        trim_dots_spaces(s) == s.take(trim_dots_spaces(s).len() as int),
        trim_dots_spaces(s).len() > 0 ==> trim_dots_spaces(s).last() != '.',
        trim_dots_spaces(s).len() > 0 ==> trim_dots_spaces(s).last() != ' ',
    decreases s.len(),
{
    if s.len() > 0 && (s.last() == ' ' || s.last() == '.') {
        lemma_trim_prefix(s.drop_last());
        let t = trim_dots_spaces(s.drop_last());
        assert(s.drop_last().take(t.len() as int) =~= s.take(t.len() as int));
    } else {
        assert(s.take(s.len() as int) =~= s);
    }
}

/// A sanitized name is a component.
pub proof fn lemma_sanitize_component(name: Seq<char>)
    ensures
        is_component(spec_sanitize(name)),
{
    let m = map_safe(name);
    let t = trim_dots_spaces(m);
    lemma_trim_prefix(m);
    assert forall|i: int| 0 <= i < t.len() implies !is_sep(#[trigger] t[i]) by {
        assert(t[i] == m[i]);
        assert(m[i] == safe_char(name[i]));
    }
    let result = if t.len() == 0 {
        seq![REPLACEMENT]
    } else {
        t
    };
    assert(result.len() > 0 && result.last() != '.');
    assert forall|i: int| 0 <= i < result.len() implies !is_sep(#[trigger] result[i]) by {}
    let r = spec_sanitize(name);
    if spec_is_reserved(result) {
        assert(r == seq![REPLACEMENT] + result);
        assert forall|i: int| 0 <= i < r.len() implies !is_sep(#[trigger] r[i]) by {
            if i > 0 {
                assert(r[i] == result[i - 1]);
            }
        }
        assert(r.last() == result.last());
    } else {
        assert(r == result);
    }
    assert(r.len() > 0 && r.last() != '.');
    if r == seq!['.'] {
        assert(r.last() == '.');
    }
}

/// The index of the first dot at or after `k`, or the length.
pub open spec fn dot_from(s: Seq<char>, k: int) -> int
    decreases s.len() - k,
{
    if k >= s.len() {
        s.len() as int
    } else if s[k] == '.' {
        k
    } else {
        dot_from(s, k + 1)
    }
}

proof fn lemma_dot_from(s: Seq<char>, k: int)
    requires
        0 <= k <= s.len(),
        forall|j: int| 0 <= j < k ==> s[j] != '.',
    ensures
        k <= dot_from(s, k) <= s.len(),
        forall|j: int| 0 <= j < dot_from(s, k) ==> s[j] != '.',
        dot_from(s, k) == s.len() || s[dot_from(s, k)] == '.',
    decreases s.len() - k,
{
    if k < s.len() && s[k] != '.' {
        lemma_dot_from(s, k + 1);
    }
}

/// A name after an underscore has the underscore before its stem.
proof fn lemma_stem_after_underscore(s: Seq<char>)
    ensures
        stem(seq![REPLACEMENT] + s) == seq![REPLACEMENT] + stem(s),
{
    let r = seq![REPLACEMENT] + s;
    lemma_dot_from(s, 0);
    let i = dot_from(s, 0);
    lemma_stem(s, i);
    assert forall|j: int| 0 <= j < i + 1 implies r[j] != '.' by {
        if j > 0 {
            assert(r[j] == s[j - 1]);
        }
    }
    if i < s.len() {
        assert(r[i + 1] == s[i]);
    }
    lemma_stem(r, i + 1);
    assert(r.take(i + 1) =~= seq![REPLACEMENT] + s.take(i));
}

/// A character as `safe_char` leaves it is left alone by it again.
proof fn lemma_safe_char_fixed(c: char)
    ensures
        safe_char(safe_char(c)) == safe_char(c),
{
}

/// What a sanitized name is: not empty; holding none of `<>:"/\|?*` nor a
/// control character; not ending in a dot or a space; with no device name
/// (CON, PRN, AUX, NUL, COM1–9, LPT1–9, in any case) before its first dot;
/// and sanitizing it again changes nothing.
pub proof fn sanitized_names_are_safe(name: Seq<char>)
    ensures
        spec_sanitize(name).len() > 0,
        forall|i: int| 0 <= i < spec_sanitize(name).len() ==> safe_char(#[trigger] spec_sanitize(name)[i]) == spec_sanitize(name)[i],
        spec_sanitize(name).last() != '.' && spec_sanitize(name).last() != ' ',
        !spec_is_reserved(spec_sanitize(name)),
        spec_sanitize(spec_sanitize(name)) == spec_sanitize(name),
{
    let m = map_safe(name);
    let t = trim_dots_spaces(m);
    lemma_trim_prefix(m);
    let result = if t.len() == 0 {
        seq![REPLACEMENT]
    } else {
        t
    };
    assert forall|i: int| 0 <= i < result.len() implies safe_char(#[trigger] result[i]) == result[i] by {
        if t.len() > 0 {
            assert(t[i] == m[i]);
            lemma_safe_char_fixed(name[i]);
        }
    }
    let r = spec_sanitize(name);
    if spec_is_reserved(result) {
        assert(r == seq![REPLACEMENT] + result);
        lemma_stem_after_underscore(result);
        let l = stem(r).map_values(|c: char| ascii_lower(c));
        assert(stem(r)[0] == REPLACEMENT);
        assert(l[0] == '_');
        assert(!is_device_name(stem(r))) by {
            assert(l != seq!['c', 'o', 'n']) by { assert(seq!['c', 'o', 'n'][0] == 'c'); }
            assert(l != seq!['p', 'r', 'n']) by { assert(seq!['p', 'r', 'n'][0] == 'p'); }
            assert(l != seq!['a', 'u', 'x']) by { assert(seq!['a', 'u', 'x'][0] == 'a'); }
            assert(l != seq!['n', 'u', 'l']) by { assert(seq!['n', 'u', 'l'][0] == 'n'); }
            if l.len() == 4 {
                assert(l.take(3)[0] == '_');
                assert(seq!['c', 'o', 'm'][0] == 'c');
                assert(seq!['l', 'p', 't'][0] == 'l');
            }
        }
        assert forall|i: int| 0 <= i < r.len() implies safe_char(#[trigger] r[i]) == r[i] by {
            if i > 0 {
                assert(r[i] == result[i - 1]);
            }
        }
        assert(r.last() == result.last());
    } else {
        assert(r == result);
    }
    // Sanitizing `r` again.
    assert(map_safe(r) =~= r);
    assert(trim_dots_spaces(r) == r);
}

/// Every component `split_path` yields is a component.
pub proof fn lemma_split_path_components(path: Seq<char>)
    ensures
        forall|i: int|
            0 <= i < spec_split_path(path).len() ==> is_component(#[trigger] spec_split_path(path)[i]),
{
    lemma_kept_components(segments(path));
}

proof fn lemma_kept_components(segs: Seq<Seq<char>>)
    ensures
        forall|i: int|
            0 <= i < kept_components(segs).len() ==> is_component(#[trigger] kept_components(segs)[i]),
    decreases segs.len(),
{
    if segs.len() > 0 {
        lemma_kept_components(segs.drop_last());
        let prev = kept_components(segs.drop_last());
        if keeps(segs.last()) {
            lemma_sanitize_component(segs.last());
            let k = prev.push(spec_sanitize(segs.last()));
            assert(kept_components(segs) == k);
            assert forall|i: int| 0 <= i < k.len() implies is_component(#[trigger] k[i]) by {
                if i < prev.len() {
                    assert(k[i] == prev[i]);
                }
            }
        }
    }
}

} // verus!
