//! Decoding entry names.
//!
//! By the specification a name is either UTF-8 (bit 11 of the general
//! purpose flag) or CP437. In practice Russian archivers write CP866 or
//! CP1251 with no flag at all, so a naive "decode as UTF-8" turns the tree
//! into mojibake. Order of trust: the Unicode Path extra field, then the
//! UTF-8 flag, then a heuristic.

use vstd::prelude::*;

use vstd::utf8::{decode_utf8, valid_utf8};

use crate::text::{chars_of, lossy_text, utf8_lossy, utf8_to_string};

verus! {

/// How entry names are decoded.
#[derive(Debug, Clone, Copy, PartialEq, Eq, Structural)]
pub enum NameEncoding {
    /// Decided per name: UTF-8 where the flag says so and it holds, otherwise
    /// whichever decoding looks most like real names.
    Auto,
    Utf8,
    Cp866,
    Cp1251,
}

impl Default for NameEncoding {
    fn default() -> (res: Self)
        ensures
            res == NameEncoding::Auto,
    {
        NameEncoding::Auto
    }
}

/// The spelling with ASCII letters lowered and `-` and `_` removed.
pub open spec fn normalized_spelling(s: Seq<char>) -> Seq<char>
    decreases s.len(),
{
    if s.len() == 0 {
        Seq::empty()
    } else if s.last() == '-' || s.last() == '_' {
        normalized_spelling(s.drop_last())
    } else {
        normalized_spelling(s.drop_last()).push(crate::sanitize::ascii_lower(s.last()))
    }
}

/// The encoding a normalized spelling names.
pub open spec fn encoding_named(n: Seq<char>) -> Option<NameEncoding> {
    if n == "auto"@ {
        Some(NameEncoding::Auto)
    } else if n == "utf8"@ || n == "utf 8"@ {
        Some(NameEncoding::Utf8)
    } else if n == "cp866"@ || n == "ibm866"@ || n == "866"@ || n == "oem"@ {
        Some(NameEncoding::Cp866)
    } else if n == "cp1251"@ || n == "windows1251"@ || n == "win1251"@ || n == "1251"@ || n
        == "ansi"@ {
        Some(NameEncoding::Cp1251)
    } else {
        None
    }
}

/// Whether two character sequences are equal.
pub fn chars_eq(a: &Vec<char>, b: &Vec<char>) -> (res: bool)
    ensures
        res == (a@ == b@),
{
    if a.len() != b.len() {
        return false;
    }
    let mut i: usize = 0;
    while i < a.len()
        invariant
            a.len() == b.len(),
            i <= a.len(),
            forall|j: int| 0 <= j < i ==> a@[j] == b@[j],
        decreases a.len() - i,
    {
        if a[i] != b[i] {
            return false;
        }
        i = i + 1;
    }
    assert(a@ =~= b@);
    true
}

fn str_eq(a: &Vec<char>, b: &str) -> (res: bool)
    ensures
        res == (a@ == b@),
{
    let bc = chars_of(b);
    if a.len() != bc.len() {
        return false;
    }
    let mut i: usize = 0;
    while i < a.len()
        invariant
            a.len() == bc.len(),
            bc@ == b@,
            i <= a.len(),
            forall|j: int| 0 <= j < i ==> a@[j] == bc@[j],
        decreases a.len() - i,
    {
        if a[i] != bc[i] {
            return false;
        }
        i = i + 1;
    }
    assert(a@ =~= b@);
    true
}

/// Parses an encoding from its common spellings, ignoring ASCII case, `-`
/// and `_`: `auto`, `utf8`, `cp866` (`ibm866`, `866`, `oem`) and `cp1251`
/// (`windows1251`, `win1251`, `1251`, `ansi`). An unknown spelling is
/// returned, normalized, as the error.
pub fn parse_encoding(s: &str) -> (res: Result<NameEncoding, String>)
    ensures
        match encoding_named(normalized_spelling(s@)) {
            Some(e) => res == Ok::<NameEncoding, String>(e),
            None => res matches Err(other) && other@ == normalized_spelling(s@),
        },
{
    let chars = chars_of(s);
    let mut n: Vec<char> = Vec::new();
    for i in 0..chars.len()
        invariant
            chars@ == s@,
            n@ == normalized_spelling(s@.take(i as int)),
    {
        let c = chars[i];
        proof {
            assert(s@.take(i + 1).drop_last() =~= s@.take(i as int));
        }
        if c != '-' && c != '_' {
            let low = if 'A' <= c && c <= 'Z' {
                ((c as u32) + 32) as u8 as char
            } else {
                c
            };
            assert(low == crate::sanitize::ascii_lower(c)) by {
                if 'A' <= c && c <= 'Z' {
                    assert(((c as u32) + 32) as u8 as char == ((c as u32) + 32) as char);
                }
            }
            n.push(low);
        }
    }
    proof {
        assert(s@.take(s@.len() as int) =~= s@);
    }
    if str_eq(&n, "auto") {
        Ok(NameEncoding::Auto)
    } else if str_eq(&n, "utf8") || str_eq(&n, "utf 8") {
        Ok(NameEncoding::Utf8)
    } else if str_eq(&n, "cp866") || str_eq(&n, "ibm866") || str_eq(&n, "866") || str_eq(&n, "oem") {
        Ok(NameEncoding::Cp866)
    } else if str_eq(&n, "cp1251") || str_eq(&n, "windows1251") || str_eq(&n, "win1251") || str_eq(
        &n,
        "1251",
    ) || str_eq(&n, "ansi") {
        Ok(NameEncoding::Cp1251)
    } else {
        Err(crate::text::string_from_chars(n.as_slice()))
    }
}

impl std::str::FromStr for NameEncoding {
    type Err = String;

    fn from_str(s: &str) -> Result<Self, Self::Err> {
        parse_encoding(s)
    }
}

/// What `encoding_rs::IBM866.decode` makes of the bytes.
pub uninterp spec fn ibm866_decode(raw: Seq<u8>) -> Seq<char>;

/// What `encoding_rs::WINDOWS_1251.decode` makes of the bytes.
pub uninterp spec fn windows1251_decode(raw: Seq<u8>) -> Seq<char>;

/// `encoding_rs::IBM866.decode`: the whole input decoded (a byte order mark,
/// if any, is honoured), malformed sequences replaced with U+FFFD. It panics
/// only where the output buffer's size overflows `usize`, far above the
/// bound here.
#[verifier::external_body]
fn decode_ibm866(raw: &[u8]) -> (res: String)
    requires
        raw@.len() <= 0x4000_0000,
    ensures
        res@ == ibm866_decode(raw@),
{
    let (cow, _, _) = encoding_rs::IBM866.decode(raw);
    cow.into_owned()
}

/// `encoding_rs::WINDOWS_1251.decode`, as for IBM866.
#[verifier::external_body]
fn decode_windows1251(raw: &[u8]) -> (res: String)
    requires
        raw@.len() <= 0x4000_0000,
    ensures
        res@ == windows1251_decode(raw@),
{
    let (cow, _, _) = encoding_rs::WINDOWS_1251.decode(raw);
    cow.into_owned()
}

/// What `char::is_alphanumeric` says of a character.
pub uninterp spec fn char_is_alphanumeric(c: char) -> bool;

/// `char::is_alphanumeric`: whether the character is alphabetic or numeric
/// in Unicode's sense.
#[verifier::external_body]
fn is_alphanumeric(c: char) -> (res: bool)
    ensures
        res == char_is_alphanumeric(c),
{
    c.is_alphanumeric()
}

/// Unicode's control characters (general category Cc).
pub open spec fn is_control_char(c: char) -> bool {
    c <= '\u{1F}' || ('\u{7F}' <= c && c <= '\u{9F}')
}

/// Characters usual in file names besides letters and digits.
pub open spec fn is_name_punctuation(c: char) -> bool {
    c == '.' || c == '_' || c == '-' || c == '/' || c == ' ' || c == '(' || c == ')' || c == '['
        || c == ']' || c == '+' || c == ',' || c == '&' || c == '\''
}

/// How much one character speaks for the decoding that produced it.
///
/// With the wrong encoding, Cyrillic turns into box drawing and rare
/// symbols; with the right one it stays letters.
pub open spec fn char_weight(c: char) -> i32 {
    if ('\u{0410}' <= c && c <= '\u{044F}') || c == '\u{0401}' || c == '\u{0451}' {
        3i32
    } else if ('a' <= c && c <= 'z') || ('A' <= c && c <= 'Z') || ('0' <= c && c <= '9') {
        1
    } else if is_name_punctuation(c) {
        1
    } else if ('\u{2500}' <= c && c <= '\u{257F}') || ('\u{2580}' <= c && c <= '\u{259F}') {
        -5i32
    } else if c == '\u{FFFD}' {
        -10i32
    } else if is_control_char(c) {
        -10i32
    } else if !char_is_alphanumeric(c) {
        -2i32
    } else {
        0
    }
}

/// The score of a decoded name: the weights of its characters added up in
/// 32-bit two's complement.
pub open spec fn spec_score(s: Seq<char>) -> i32
    decreases s.len(),
{
    if s.len() == 0 {
        0
    } else {
        spec_score(s.drop_last()).wrapping_add(char_weight(s.last()))
    }
}

fn weight(c: char) -> (res: i32)
    ensures
        res == char_weight(c),
{
    if ('\u{0410}' <= c && c <= '\u{044F}') || c == '\u{0401}' || c == '\u{0451}' {
        3
    } else if ('a' <= c && c <= 'z') || ('A' <= c && c <= 'Z') || ('0' <= c && c <= '9') {
        1
    } else if c == '.' || c == '_' || c == '-' || c == '/' || c == ' ' || c == '(' || c == ')' || c
        == '[' || c == ']' || c == '+' || c == ',' || c == '&' || c == '\'' {
        1
    } else if ('\u{2500}' <= c && c <= '\u{257F}') || ('\u{2580}' <= c && c <= '\u{259F}') {
        -5
    } else if c == '\u{FFFD}' {
        -10
    } else if c <= '\u{1F}' || ('\u{7F}' <= c && c <= '\u{9F}') {
        -10
    } else if !is_alphanumeric(c) {
        -2
    } else {
        0
    }
}

/// How plausible a decoded name looks, in points.
pub fn score(s: &str) -> (res: i32)
    ensures
        res == spec_score(s@),
{
    let chars = chars_of(s);
    let mut total: i32 = 0;
    for i in 0..chars.len()
        invariant
            chars@ == s@,
            total == spec_score(s@.take(i as int)),
    {
        proof {
            assert(s@.take(i + 1).drop_last() =~= s@.take(i as int));
        }
        total = total.wrapping_add(weight(chars[i]));
    }
    proof {
        assert(s@.take(s@.len() as int) =~= s@);
    }
    total
}

/// The head start valid UTF-8 gets simply for being valid.
pub const UTF8_VALIDITY_BONUS: i32 = 40;

/// Whether every byte is ASCII.
pub open spec fn all_ascii(raw: Seq<u8>) -> bool {
    forall|i: int| 0 <= i < raw.len() ==> raw[i] < 128
}

fn is_ascii(raw: &[u8]) -> (res: bool)
    ensures
        res == all_ascii(raw@),
{
    for i in 0..raw.len()
        invariant
            forall|j: int| 0 <= j < i ==> raw@[j] < 128,
    {
        if raw[i] >= 128 {
            return false;
        }
    }
    true
}

/// The winner among the heuristic's candidates: valid UTF-8 with its bonus
/// if the bytes are valid UTF-8, then CP866, then CP1251, each replacing the
/// best so far only when it scores strictly higher.
pub open spec fn spec_heuristic(raw: Seq<u8>) -> Seq<char> {
    let cp866 = ibm866_decode(raw);
    let cp1251 = windows1251_decode(raw);
    let first = if valid_utf8(raw) {
        let u = decode_utf8(raw);
        let su = spec_score(u).wrapping_add(UTF8_VALIDITY_BONUS);
        if spec_score(cp866) > su {
            (spec_score(cp866), cp866)
        } else {
            (su, u)
        }
    } else {
        (spec_score(cp866), cp866)
    };
    if spec_score(cp1251) > first.0 {
        cp1251
    } else {
        first.1
    }
}

/// How a name is decoded when the encoding is left to the heuristic.
pub open spec fn spec_decode_auto(raw: Seq<u8>, utf8_flag: bool) -> Seq<char> {
    if all_ascii(raw) {
        lossy_text(raw)
    } else if utf8_flag && valid_utf8(raw) {
        decode_utf8(raw)
    } else {
        spec_heuristic(raw)
    }
}

/// The decoded name: the Unicode Path extra field's if there is one,
/// otherwise the bytes decoded as the encoding says.
pub open spec fn spec_decode_name(
    raw: Seq<u8>,
    unicode_path: Option<Seq<char>>,
    utf8_flag: bool,
    encoding: NameEncoding,
) -> Seq<char> {
    match unicode_path {
        Some(name) => name,
        None => match encoding {
            NameEncoding::Utf8 => lossy_text(raw),
            NameEncoding::Cp866 => ibm866_decode(raw),
            NameEncoding::Cp1251 => windows1251_decode(raw),
            NameEncoding::Auto => spec_decode_auto(raw, utf8_flag),
        },
    }
}

/// A forced encoding alone decides how a name without a Unicode Path field
/// is read, whatever the UTF-8 flag says: CP866 is decoded by the IBM866
/// table, CP1251 by the Windows-1251 one, UTF-8 as UTF-8; and a Unicode Path
/// field is the name under every encoding.
pub proof fn forced_encodings_decode_by_their_tables(raw: Seq<u8>, utf8_flag: bool, path: Seq<char>)
    ensures
        spec_decode_name(raw, None, utf8_flag, NameEncoding::Cp866) == ibm866_decode(raw),
        spec_decode_name(raw, None, utf8_flag, NameEncoding::Cp1251) == windows1251_decode(raw),
        spec_decode_name(raw, None, utf8_flag, NameEncoding::Utf8) == lossy_text(raw),
        spec_decode_name(raw, None, true, NameEncoding::Cp866) == spec_decode_name(
            raw,
            None,
            false,
            NameEncoding::Cp866,
        ),
        forall|enc: NameEncoding| #[trigger] spec_decode_name(raw, Some(path), utf8_flag, enc) == path,
{
}

/// Decodes a name when the encoding is left to the heuristic.
pub fn decode_auto(raw: &[u8], utf8_flag: bool) -> (res: String)
    requires
        raw@.len() <= 0x4000_0000,
    ensures
        res@ == spec_decode_auto(raw@, utf8_flag),
{
    // Pure ASCII decodes the same in every variant — nothing to guess.
    if is_ascii(raw) {
        return utf8_lossy(raw);
    }
    let utf8 = utf8_to_string(raw);
    if utf8_flag {
        if let Some(s) = utf8 {
            return s;
        }
        // The flag lied: carry on with the heuristic rather than hand out
        // garbage full of U+FFFD.
    }
    // Non-ASCII bytes that happen to form valid UTF-8 are almost certainly
    // UTF-8: random CP866 text passes UTF-8 validation with vanishingly
    // small probability.
    let cp866 = decode_ibm866(raw);
    let cp1251 = decode_windows1251(raw);
    let s866 = score(cp866.as_str());
    let (best_score, best) = match utf8 {
        Some(u) => {
            let su = score(u.as_str()).wrapping_add(UTF8_VALIDITY_BONUS);
            if s866 > su {
                (s866, cp866)
            } else {
                (su, u)
            }
        },
        None => (s866, cp866),
    };
    let s1251 = score(cp1251.as_str());
    if s1251 > best_score {
        cp1251
    } else {
        best
    }
}

/// Decodes a raw entry name into a string.
///
/// `unicode_path` is the name from extra field 0x7075, already checked
/// against its CRC: if there is one, there is nothing to argue about — the
/// archiver has stated the right answer itself.
pub fn decode_name(
    raw: &[u8],
    unicode_path: Option<&str>,
    utf8_flag: bool,
    encoding: NameEncoding,
) -> (res: String)
    requires
        raw@.len() <= 0x4000_0000,
    ensures
        res@ == spec_decode_name(
            raw@,
            match unicode_path {
                Some(p) => Some(p@),
                None => None,
            },
            utf8_flag,
            encoding,
        ),
{
    if let Some(name) = unicode_path {
        return name.to_string();
    }
    match encoding {
        NameEncoding::Utf8 => utf8_lossy(raw),
        NameEncoding::Cp866 => decode_ibm866(raw),
        NameEncoding::Cp1251 => decode_windows1251(raw),
        NameEncoding::Auto => decode_auto(raw, utf8_flag),
    }
}

} // verus!
