//! Parsing the tar format.
//!
//! The format is as simple as it gets: a 512-byte header, then the data padded
//! to a 512-byte boundary, and so on. There is no table of contents at all —
//! learning what is inside means walking the whole chain of headers. On the
//! other hand each file's data is one contiguous piece, so random access comes
//! for free: it is just a slice.
//!
//! There are three historical extensions, and without them half of real-world
//! archives read wrong:
//!
//! * **ustar** — the `prefix` field, which allows long paths;
//! * **GNU longname** (type `L`) — the full name lies in a data block before
//!   the actual header;
//! * **PAX** (type `x`) — `key=value` records, of which `path` (the name in
//!   UTF-8) and `size` (for files over 8 GB) matter to us.

use vstd::prelude::*;

use crate::text::{lossy_text, utf8_lossy};
use crate::zipfmt::{spec_unix_to_filetime, unix_to_filetime};

verus! {

pub const BLOCK: usize = 512;

/// Field offsets inside a header.
pub const OFF_NAME: usize = 0;
pub const OFF_SIZE: usize = 124;
pub const OFF_MTIME: usize = 136;
pub const OFF_CHKSUM: usize = 148;
pub const OFF_TYPEFLAG: usize = 156;
pub const OFF_MAGIC: usize = 257;
pub const OFF_PREFIX: usize = 345;

pub const LEN_NAME: usize = 100;
pub const LEN_SIZE: usize = 12;
pub const LEN_MTIME: usize = 12;
pub const LEN_CHKSUM: usize = 8;
pub const LEN_PREFIX: usize = 155;

/// Whether a byte is ASCII whitespace in the sense of `u8::is_ascii_whitespace`.
pub open spec fn is_ws(b: u8) -> bool {
    b == 0x20 || b == 0x09 || b == 0x0A || b == 0x0C || b == 0x0D
}

/// The index of the first NUL at or after `i`, or the length.
pub open spec fn first_nul(s: Seq<u8>, i: int) -> int
    decreases s.len() - i,
{
    if i < 0 || i >= s.len() {
        s.len() as int
    } else if s[i] == 0 {
        i
    } else {
        first_nul(s, i + 1)
    }
}

/// The bytes before the first NUL.
pub open spec fn before_nul(s: Seq<u8>) -> Seq<u8> {
    s.take(first_nul(s, 0))
}

/// The bytes of `s` that are not whitespace.
pub open spec fn without_ws(s: Seq<u8>) -> Seq<u8>
    decreases s.len(),
{
    if s.len() == 0 {
        s
    } else if is_ws(s.last()) {
        without_ws(s.drop_last())
    } else {
        without_ws(s.drop_last()).push(s.last())
    }
}

pub open spec fn is_octal_digit(b: u8) -> bool {
    0x30 <= b <= 0x37
}

pub open spec fn is_decimal_digit(b: u8) -> bool {
    0x30 <= b <= 0x39
}

/// The value of a string of digits in a radix.
pub open spec fn digits_value(d: Seq<u8>, radix: int) -> int
    decreases d.len(),
{
    if d.len() == 0 {
        0
    } else {
        digits_value(d.drop_last(), radix) * radix + (d.last() - 0x30)
    }
}

pub open spec fn is_digit_of(b: u8, radix: int) -> bool {
    if radix == 8 {
        is_octal_digit(b)
    } else {
        is_decimal_digit(b)
    }
}

/// The digits after an optional leading `+`.
pub open spec fn unsigned_digits(t: Seq<u8>) -> Seq<u8> {
    if t.len() > 0 && t[0] == 0x2B {
        t.drop_first()
    } else {
        t
    }
}

pub open spec fn all_digits_of(d: Seq<u8>, radix: int) -> bool {
    forall|i: int| 0 <= i < d.len() ==> is_digit_of(#[trigger] d[i], radix)
}

/// `from_str_radix` for an unsigned type whose maximum is `max`: an optional
/// `+`, then at least one digit, all of the radix, and no overflow.
pub open spec fn spec_parse_unsigned(t: Seq<u8>, radix: int, max: int) -> Option<int> {
    let d = unsigned_digits(t);
    if d.len() == 0 {
        None
    } else if !all_digits_of(d, radix) {
        None
    } else if digits_value(d, radix) > max {
        None
    } else {
        Some(digits_value(d, radix))
    }
}

/// The GNU base-256 form: the high bit of the first byte flags it, the rest
/// is a big-endian number.
pub open spec fn base256_value(f: Seq<u8>) -> int
    decreases f.len(),
{
    if f.len() == 0 {
        0
    } else if f.len() == 1 {
        (f[0] & 0x7f) as int
    } else {
        base256_value(f.drop_last()) * 256 + f.last()
    }
}

/// A tar numeric field: usually octal ASCII (up to the first NUL, whitespace
/// ignored, empty meaning zero), but for large values GNU uses a binary form
/// flagged by the high bit of the first byte.
pub open spec fn spec_numeric_field(f: Seq<u8>) -> Option<u64> {
    if f.len() == 0 {
        None
    } else if f[0] & 0x80 != 0 {
        if base256_value(f) > u64::MAX {
            None
        } else {
            Some(base256_value(f) as u64)
        }
    } else {
        let text = without_ws(before_nul(f));
        if text.len() == 0 {
            Some(0)
        } else {
            match spec_parse_unsigned(text, 8, u64::MAX as int) {
                Some(v) => Some(v as u64),
                None => None,
            }
        }
    }
}

proof fn lemma_digits_value_nonneg(d: Seq<u8>, radix: int)
    requires
        radix >= 2,
        forall|i: int| 0 <= i < d.len() ==> d[i] >= 0x30,
    ensures
        digits_value(d, radix) >= 0,
    decreases d.len(),
{
    if d.len() > 0 {
        lemma_digits_value_nonneg(d.drop_last(), radix);
        assert(d.last() >= 0x30);
        assert(digits_value(d.drop_last(), radix) * radix >= 0) by (nonlinear_arith)
            requires
                digits_value(d.drop_last(), radix) >= 0,
                radix >= 2,
        ;
    }
}

/// A longer string of digits is worth at least as much as its prefix.
proof fn lemma_digits_value_grows(d: Seq<u8>, i: int, radix: int)
    requires
        0 <= i <= d.len(),
        radix >= 2,
        forall|k: int| 0 <= k < d.len() ==> d[k] >= 0x30,
    ensures
        digits_value(d.take(i), radix) <= digits_value(d, radix),
    decreases d.len() - i,
{
    if i < d.len() {
        lemma_digits_value_grows(d, i + 1, radix);
        let t = d.take(i + 1);
        assert(t.drop_last() =~= d.take(i));
        lemma_digits_value_nonneg(d.take(i), radix);
        let v = digits_value(d.take(i), radix);
        assert(v * radix >= v) by (nonlinear_arith)
            requires
                v >= 0,
                radix >= 2,
        ;
    } else {
        assert(d.take(i) =~= d);
    }
}

/// When every digit is valid, the value of a prefix bounds the whole from below.
proof fn lemma_prefix_bounds_value(d: Seq<u8>, i: int, radix: int)
    requires
        0 <= i <= d.len(),
        radix == 8 || radix == 10,
        forall|k: int| 0 <= k < d.len() ==> is_digit_of(#[trigger] d[k], radix),
    ensures
        digits_value(d.take(i), radix) <= digits_value(d, radix),
{
    assert forall|k: int| 0 <= k < d.len() implies d[k] >= 0x30 by {
        assert(is_digit_of(d[k], radix));
    }
    lemma_digits_value_grows(d, i, radix);
}

/// Parses digits of a radix (8 or 10) with an optional leading `+`, as
/// `from_str_radix` does, up to `max`.
pub fn parse_unsigned(t: &[u8], radix: u64, max: u64) -> (res: Option<u64>)
    requires
        radix == 8 || radix == 10,
    ensures
        res == match spec_parse_unsigned(t@, radix as int, max as int) {
            Some(v) => Some(v as u64),
            None => None::<u64>,
        },
        spec_parse_unsigned(t@, radix as int, max as int) matches Some(v) ==> 0 <= v <= max,
{
    let start: usize = if t.len() > 0 && t[0] == 0x2B {
        1
    } else {
        0
    };
    let ghost d = unsigned_digits(t@);
    assert(d =~= t@.skip(start as int));
    assert(forall|k: int| 0 <= k < d.len() ==> (is_digit_of(d[k], radix as int) <==> (if radix
        == 8 {
        is_octal_digit(d[k])
    } else {
        is_decimal_digit(d[k])
    })));
    if start == t.len() {
        return None;
    }
    let mut value: u64 = 0;
    let mut i: usize = start;
    while i < t.len()
        invariant
            start <= i <= t.len(),
            d == t@.skip(start as int),
            d == unsigned_digits(t@),
            d.len() > 0,
            radix == 8 || radix == 10,
            forall|k: int| 0 <= k < i - start ==> is_digit_of(#[trigger] d[k], radix as int),
            value == digits_value(d.take(i - start), radix as int),
            value <= max,
        decreases t.len() - i,
    {
        let b = t[i];
        assert(d[i - start] == b);
        let ok = if radix == 8 {
            0x30 <= b && b <= 0x37
        } else {
            0x30 <= b && b <= 0x39
        };
        if !ok {
            assert(!is_digit_of(d[i - start], radix as int));
            assert(!all_digits_of(d, radix as int));
            assert(spec_parse_unsigned(t@, radix as int, max as int).is_none());
            return None;
        }
        let digit = (b - 0x30) as u64;
        proof {
            assert(d.take(i - start + 1).drop_last() =~= d.take(i - start));
            assert(d.take(i - start + 1).last() == b);
            assert(digits_value(d.take(i - start + 1), radix as int) == value * radix + digit);
        }
        if digit > max {
            proof {
                lemma_digits_value_nonneg(d.take(i - start), radix as int);
                assert(value * radix >= 0) by (nonlinear_arith)
                    requires
                        value >= 0,
                        radix > 0,
                ;
                if all_digits_of(d, radix as int) {
                    lemma_prefix_bounds_value(d, i - start + 1, radix as int);
                    assert(digits_value(d, radix as int) > max);
                }
                assert(spec_parse_unsigned(t@, radix as int, max as int).is_none());
            }
            return None;
        }
        let limit = (max - digit) / radix;
        if value > limit {
            proof {
                assert(value * radix + digit > max) by (nonlinear_arith)
                    requires
                        value > limit,
                        limit as int == (max as int - digit as int) / (radix as int),
                        radix > 0,
                        digit <= max,
                ;
                if all_digits_of(d, radix as int) {
                    lemma_prefix_bounds_value(d, i - start + 1, radix as int);
                }
            }
            return None;
        }
        assert(value * radix + digit <= max) by (nonlinear_arith)
            requires
                value <= limit,
                limit as int == (max as int - digit as int) / (radix as int),
                radix > 0,
                digit <= max,
        ;
        value = value * radix + digit;
        i = i + 1;
    }
    assert(d.take(i - start) =~= d);
    Some(value)
}


/// A longer base-256 field is worth at least as much as its prefix.
proof fn lemma_base256_grows(f: Seq<u8>, i: int)
    requires
        1 <= i <= f.len(),
    ensures
        base256_value(f.take(i)) <= base256_value(f),
        base256_value(f.take(i)) >= 0,
    decreases f.len() - i,
{
    if i < f.len() {
        lemma_base256_grows(f, i + 1);
        assert(f.take(i + 1).drop_last() =~= f.take(i));
        if i + 1 > 1 {
        }
        let v = base256_value(f.take(i));
        assert(v * 256 >= v) by (nonlinear_arith)
            requires
                v >= 0,
        ;
    } else {
        assert(f.take(i) =~= f);
    }
    lemma_base256_nonneg(f.take(i));
}

proof fn lemma_base256_nonneg(f: Seq<u8>)
    ensures
        base256_value(f) >= 0,
    decreases f.len(),
{
    if f.len() > 1 {
        lemma_base256_nonneg(f.drop_last());
        let v = base256_value(f.drop_last());
        assert(v * 256 >= 0) by (nonlinear_arith)
            requires
                v >= 0,
        ;
    }
}

/// `first_nul` from any index before the first NUL is the same.
proof fn lemma_first_nul(s: Seq<u8>, k: int, i: int)
    requires
        0 <= k <= i <= s.len(),
        forall|j: int| k <= j < i ==> s[j] != 0,
        i == s.len() || s[i] == 0,
    ensures
        first_nul(s, k) == i,
    decreases i - k,
{
    if k < i {
        lemma_first_nul(s, k + 1, i);
    }
}

/// The index of the first NUL in `s`, or its length.
pub fn find_nul(s: &[u8]) -> (res: usize)
    ensures
        res == first_nul(s@, 0),
        res <= s@.len(),
{
    let mut i: usize = 0;
    while i < s.len() && s[i] != 0
        invariant
            i <= s.len(),
            forall|j: int| 0 <= j < i ==> s@[j] != 0,
        decreases s.len() - i,
    {
        i = i + 1;
    }
    proof {
        lemma_first_nul(s@, 0, i as int);
    }
    i
}

/// A tar numeric field: usually octal ASCII, but for large values GNU uses a
/// binary form flagged by the high bit of the first byte.
pub fn numeric_field(field: &[u8]) -> (res: Option<u64>)
    ensures
        res == spec_numeric_field(field@),
{
    if field.len() == 0 {
        return None;
    }
    if field[0] & 0x80 != 0 {
        // base-256: the remaining bytes are a big-endian number.
        let mut value: u64 = (field[0] & 0x7f) as u64;
        let mut i: usize = 1;
        assert(field@.take(1).len() == 1);
        while i < field.len()
            invariant
                1 <= i <= field.len(),
                field@[0] & 0x80 != 0,
                value == base256_value(field@.take(i as int)),
            decreases field.len() - i,
        {
            let b = field[i] as u64;
            proof {
                assert(field@.take(i + 1).drop_last() =~= field@.take(i as int));
            }
            if value > (u64::MAX - b) / 256 {
                proof {
                    lemma_base256_grows(field@, i + 1);
                    assert(field@.take(i + 1).last() == b);
                    assert(base256_value(field@.take(i + 1)) == value * 256 + b);
                    assert(value * 256 + b > u64::MAX) by (nonlinear_arith)
                        requires
                            value > (u64::MAX - b) / 256,
                            b <= 255,
                    ;
                    assert(base256_value(field@) > u64::MAX);
                    assert(field@[0] & 0x80 != 0);
                }
                return None;
            }
            value = value * 256 + b;
            i = i + 1;
        }
        assert(field@.take(i as int) =~= field@);
        return Some(value);
    }
    let nul = find_nul(field);
    let mut text: Vec<u8> = Vec::new();
    let mut i: usize = 0;
    while i < nul
        invariant
            i <= nul <= field.len(),
            text@ == without_ws(field@.take(i as int)),
        decreases nul - i,
    {
        let b = field[i];
        proof {
            assert(field@.take(i + 1).drop_last() =~= field@.take(i as int));
        }
        if !(b == 0x20 || b == 0x09 || b == 0x0A || b == 0x0C || b == 0x0D) {
            text.push(b);
        }
        i = i + 1;
    }
    assert(field@.take(nul as int) == before_nul(field@));
    if text.len() == 0 {
        return Some(0);
    }
    parse_unsigned(text.as_slice(), 8, u64::MAX)
}

/// One byte of the header as the checksum counts it: the checksum field
/// itself as if filled with spaces.
pub open spec fn chk_byte(h: Seq<u8>, i: int) -> int {
    if OFF_CHKSUM <= i < OFF_CHKSUM + LEN_CHKSUM {
        0x20
    } else {
        h[i] as int
    }
}

pub open spec fn signed_byte(b: int) -> int {
    if b >= 128 {
        b - 256
    } else {
        b
    }
}

pub open spec fn chk_sum_unsigned(h: Seq<u8>, n: int) -> int
    decreases n,
{
    if n <= 0 {
        0
    } else {
        chk_sum_unsigned(h, n - 1) + chk_byte(h, n - 1)
    }
}

pub open spec fn chk_sum_signed(h: Seq<u8>, n: int) -> int
    decreases n,
{
    if n <= 0 {
        0
    } else {
        chk_sum_signed(h, n - 1) + signed_byte(chk_byte(h, n - 1))
    }
}

/// The header checksum: the sum of all its bytes, with the checksum field
/// itself counted as filled with spaces; some ancient archivers summed signed
/// bytes, so that sum is accepted too.
pub open spec fn spec_checksum_matches(h: Seq<u8>) -> bool {
    match spec_numeric_field(h.subrange(OFF_CHKSUM as int, (OFF_CHKSUM + LEN_CHKSUM) as int)) {
        None => false,
        Some(expected) => chk_sum_unsigned(h, h.len() as int) == expected || chk_sum_signed(
            h,
            h.len() as int,
        ) == expected as i64,
    }
}

pub fn checksum_matches(header: &[u8]) -> (res: bool)
    requires
        header@.len() == BLOCK,
    ensures
        res == spec_checksum_matches(header@),
{
    let expected = match numeric_field(&header[OFF_CHKSUM..OFF_CHKSUM + LEN_CHKSUM]) {
        Some(v) => v,
        None => return false,
    };
    let mut unsigned: u64 = 0;
    let mut signed: i64 = 0;
    let mut i: usize = 0;
    while i < header.len()
        invariant
            i <= header.len() == BLOCK,
            unsigned == chk_sum_unsigned(header@, i as int),
            signed == chk_sum_signed(header@, i as int),
            0 <= unsigned <= 255 * i,
            -128 * i <= signed <= 127 * i,
        decreases header.len() - i,
    {
        let value: u8 = if OFF_CHKSUM <= i && i < OFF_CHKSUM + LEN_CHKSUM {
            0x20
        } else {
            header[i]
        };
        unsigned = unsigned + value as u64;
        signed = signed + if value >= 128 {
            value as i64 - 256
        } else {
            value as i64
        };
        i = i + 1;
    }
    unsigned == expected || signed == expected as i64
}

pub open spec fn spec_looks_like_tar(data: Seq<u8>) -> bool {
    if data.len() < BLOCK {
        false
    } else if data.subrange(OFF_MAGIC as int, OFF_MAGIC + 5) == seq![0x75u8, 0x73, 0x74, 0x61, 0x72] {
        true
    } else {
        spec_checksum_matches(data.take(BLOCK as int))
    }
}

/// Whether a buffer looks like the start of a tar archive.
///
/// The `ustar` magic first, then the header checksum: old v7 archives have no
/// magic at all, and the checksum is the only reliable sign left.
pub fn looks_like_tar(data: &[u8]) -> (res: bool)
    ensures
        res == spec_looks_like_tar(data@),
{
    if data.len() < BLOCK {
        return false;
    }
    let ustar: [u8; 5] = [0x75, 0x73, 0x74, 0x61, 0x72];
    let magic = &data[OFF_MAGIC..OFF_MAGIC + 5];
    if crate::bytes::starts_with(magic, &ustar) {
        assert(magic@.subrange(0, 5) =~= magic@);
        assert(ustar@ =~= seq![0x75u8, 0x73, 0x74, 0x61, 0x72]);
        return true;
    }
    assert(ustar@ =~= seq![0x75u8, 0x73, 0x74, 0x61, 0x72]);
    assert(magic@.subrange(0, 5) =~= magic@);
    checksum_matches(&data[0..BLOCK])
}

/// A NUL-terminated string field, decoded as UTF-8 with replacement.
pub open spec fn spec_cstr(data: Seq<u8>) -> Seq<char> {
    lossy_text(before_nul(data))
}

pub fn cstr(data: &[u8]) -> (res: String)
    ensures
        res@ == spec_cstr(data@),
{
    let end = find_nul(data);
    utf8_lossy(&data[0..end])
}

/// The name from a header, with the ustar `prefix` field taken into account.
pub open spec fn spec_header_name(h: Seq<u8>) -> Seq<char> {
    let name = spec_cstr(h.subrange(OFF_NAME as int, (OFF_NAME + LEN_NAME) as int));
    let prefix = spec_cstr(h.subrange(OFF_PREFIX as int, (OFF_PREFIX + LEN_PREFIX) as int));
    if prefix.len() == 0 {
        name
    } else {
        prefix + seq!['/'] + name
    }
}

pub fn header_name(header: &[u8]) -> (res: String)
    requires
        header@.len() == BLOCK,
    ensures
        res@ == spec_header_name(header@),
{
    let name = cstr(&header[OFF_NAME..OFF_NAME + LEN_NAME]);
    let prefix = cstr(&header[OFF_PREFIX..OFF_PREFIX + LEN_PREFIX]);
    if prefix.as_str().is_empty() {
        name
    } else {
        let mut out = prefix;
        proof {
            reveal_strlit("/");
        }
        out.append("/");
        out.append(name.as_str());
        out
    }
}


/// The largest Unix time whose FILETIME fits in 64 signed bits.
pub const MAX_FILETIME_UNIX_SECS: i64 = 910_692_730_085;
/// The smallest such Unix time.
pub const MIN_FILETIME_UNIX_SECS: i64 = -933_981_677_285;

/// A header's modification time as a FILETIME. A time past the FILETIME range
/// saturates at its ends; an unreadable field is 0.
pub open spec fn spec_header_mtime(h: Seq<u8>) -> u64 {
    match spec_numeric_field(h.subrange(OFF_MTIME as int, (OFF_MTIME + LEN_MTIME) as int)) {
        None => 0,
        Some(secs) => {
            let u = secs as i64;
            if u > MAX_FILETIME_UNIX_SECS {
                u64::MAX
            } else if u < MIN_FILETIME_UNIX_SECS {
                0
            } else {
                spec_unix_to_filetime(u as int)
            }
        },
    }
}

pub fn header_mtime(header: &[u8]) -> (res: u64)
    requires
        header@.len() == BLOCK,
    ensures
        res == spec_header_mtime(header@),
{
    match numeric_field(&header[OFF_MTIME..OFF_MTIME + LEN_MTIME]) {
        Some(secs) => {
            let u = secs as i64;
            if u > MAX_FILETIME_UNIX_SECS {
                u64::MAX
            } else if u < MIN_FILETIME_UNIX_SECS {
                0
            } else {
                unix_to_filetime(u)
            }
        },
        None => 0,
    }
}

/// The first index at or after `i` holding `b`.
pub open spec fn find_byte(s: Seq<u8>, b: u8, i: int) -> Option<int>
    decreases s.len() - i,
{
    if i < 0 || i >= s.len() {
        None
    } else if s[i] == b {
        Some(i)
    } else {
        find_byte(s, b, i + 1)
    }
}

proof fn lemma_find_byte(s: Seq<u8>, b: u8, k: int, i: int)
    requires
        0 <= k <= i <= s.len(),
        forall|j: int| k <= j < i ==> s[j] != b,
    ensures
        i < s.len() && s[i] == b ==> find_byte(s, b, k) == Some(i),
        i == s.len() ==> find_byte(s, b, k) == None::<int>,
    decreases i - k,
{
    if k < i {
        lemma_find_byte(s, b, k + 1, i);
    }
}

pub fn position(s: &[u8], b: u8) -> (res: Option<usize>)
    ensures
        match res {
            Some(i) => find_byte(s@, b, 0) == Some(i as int) && i < s@.len(),
            None => find_byte(s@, b, 0) == None::<int>,
        },
{
    let mut i: usize = 0;
    while i < s.len()
        invariant
            i <= s.len(),
            forall|j: int| 0 <= j < i ==> s@[j] != b,
        decreases s.len() - i,
    {
        if s[i] == b {
            proof {
                lemma_find_byte(s@, b, 0, i as int);
            }
            return Some(i);
        }
        i = i + 1;
    }
    proof {
        lemma_find_byte(s@, b, 0, i as int);
    }
    None
}

pub open spec fn key_path() -> Seq<u8> {
    seq![0x70u8, 0x61, 0x74, 0x68]
}

pub open spec fn key_size() -> Seq<u8> {
    seq![0x73u8, 0x69, 0x7a, 0x65]
}

/// One `key=value` record (its trailing newline, if any, dropped): `path`
/// and `size` are taken, anything else is ignored. A `size` that does not
/// parse clears the one seen before.
pub open spec fn spec_pax_record(record: Seq<u8>, path: Option<Seq<char>>, size: Option<u64>) -> (Option<Seq<char>>, Option<u64>) {
    let record = if record.len() > 0 && record.last() == 0x0A {
        record.drop_last()
    } else {
        record
    };
    match find_byte(record, 0x3D, 0) {
        None => (path, size),
        Some(eq) => {
            let key = record.take(eq);
            let value = record.skip(eq + 1);
            if key == key_path() {
                (Some(lossy_text(value)), size)
            } else if key == key_size() {
                (
                    path,
                    match spec_parse_unsigned(value, 10, u64::MAX as int) {
                        Some(v) => Some(v as u64),
                        None => None,
                    },
                )
            } else {
                (path, size)
            }
        },
    }
}

/// PAX records of the form `<length> <key>=<value>\n` from offset `p` on; the
/// length is decimal and includes itself. A record that does not parse ends
/// the walk.
pub open spec fn spec_pax(body: Seq<u8>, p: int, path: Option<Seq<char>>, size: Option<u64>) -> (Option<Seq<char>>, Option<u64>)
    decreases body.len() - p,
{
    if p < 0 || p >= body.len() {
        (path, size)
    } else {
        let rest = body.skip(p);
        match find_byte(rest, 0x20, 0) {
            None => (path, size),
            Some(space) => match spec_parse_unsigned(rest.take(space), 10, usize::MAX as int) {
                None => (path, size),
                Some(len) => if len <= 0 || len > rest.len() || space + 1 > len {
                    (path, size)
                } else {
                    let (path2, size2) = spec_pax_record(rest.subrange(space + 1, len), path, size);
                    spec_pax(body, p + len, path2, size2)
                },
            },
        }
    }
}

pub open spec fn opt_view(s: Option<String>) -> Option<Seq<char>> {
    match s {
        Some(s) => Some(s@),
        None => None,
    }
}

fn pax_record(record: &[u8], path: Option<String>, size: Option<u64>) -> (res: (Option<String>, Option<u64>))
    ensures
        (opt_view(res.0), res.1) == spec_pax_record(record@, opt_view(path), size),
{
    let n = record.len();
    let ghost orig = record@;
    let record = if n > 0 && record[n - 1] == 0x0A {
        &record[0..n - 1]
    } else {
        record
    };
    assert(n > 0 && orig[n - 1] == 0x0A ==> record@ =~= orig.drop_last());
    match position(record, 0x3D) {
        None => (path, size),
        Some(eq) => {
            let key = &record[0..eq];
            let value = &record[eq + 1..record.len()];
            assert(key@ == record@.take(eq as int));
            assert(value@ == record@.skip(eq + 1));
            let path_key: [u8; 4] = [0x70, 0x61, 0x74, 0x68];
            let size_key: [u8; 4] = [0x73, 0x69, 0x7a, 0x65];
            assert(path_key@ =~= key_path());
            assert(size_key@ =~= key_size());
            if key.len() == 4 && crate::bytes::starts_with(key, &path_key) {
                assert(key@ =~= key@.subrange(0, 4));
                (Some(utf8_lossy(value)), size)
            } else if key.len() == 4 && crate::bytes::starts_with(key, &size_key) {
                assert(key@ =~= key@.subrange(0, 4));
                (path, parse_unsigned(value, 10, u64::MAX))
            } else {
                assert(key@.len() == 4 ==> key@ =~= key@.subrange(0, 4));
                (path, size)
            }
        },
    }
}


/// Parses PAX records of the form `<length> <key>=<value>\n`.
pub fn parse_pax(body: &[u8]) -> (res: (Option<String>, Option<u64>))
    ensures
        (opt_view(res.0), res.1) == spec_pax(body@, 0, None, None),
{
    let mut path: Option<String> = None;
    let mut size: Option<u64> = None;
    let mut p: usize = 0;
    while p < body.len()
        invariant
            p <= body.len(),
            spec_pax(body@, 0, None, None) == spec_pax(body@, p as int, opt_view(path), size),
        ensures
            spec_pax(body@, 0, None, None) == (opt_view(path), size),
        decreases body.len() - p,
    {
        let rest = &body[p..body.len()];
        assert(rest@ =~= body@.skip(p as int));
        let space = match position(rest, 0x20) {
            Some(i) => i,
            None => break,
        };
        let len = match parse_unsigned(&rest[0..space], 10, usize::MAX as u64) {
            Some(v) => v,
            None => break,
        };
        assert(rest@.take(space as int) =~= rest@.subrange(0, space as int));
        if len == 0 || len > rest.len() as u64 || (space as u64) + 1 > len {
            break;
        }
        let len = len as usize;
        let record = &rest[space + 1..len];
        let (path2, size2) = pax_record(record, path, size);
        path = path2;
        size = size2;
        p = p + len;
    }
    (path, size)
}

/// Why a tar stream could not be read.
#[derive(Debug, Clone, Copy, PartialEq, Eq, Structural)]
pub enum TarError {
    /// The very first header does not add up: this is not a tar.
    BadHeader,
}

#[derive(Debug)]
pub struct TarEntry {
    pub path: String,
    pub size: u64,
    /// Modification time as a Windows FILETIME.
    pub mtime: u64,
    /// Offset of the data in the stream (the decompressed one, if the archive
    /// was compressed).
    pub data_offset: u64,
    pub is_dir: bool,
}

pub ghost struct TarEntryView {
    pub path: Seq<char>,
    pub size: u64,
    pub mtime: u64,
    pub data_offset: u64,
    pub is_dir: bool,
}

impl View for TarEntry {
    type V = TarEntryView;

    open spec fn view(&self) -> TarEntryView {
        TarEntryView {
            path: self.path@,
            size: self.size,
            mtime: self.mtime,
            data_offset: self.data_offset,
            is_dir: self.is_dir,
        }
    }
}

pub open spec fn tar_views(v: Seq<TarEntry>) -> Seq<TarEntryView> {
    v.map_values(|e: TarEntry| e@)
}

pub open spec fn is_zero_block(h: Seq<u8>) -> bool {
    forall|i: int| 0 <= i < h.len() ==> h[i] == 0
}

/// The entry size: from a preceding PAX record, else from the header.
pub open spec fn tar_size(h: Seq<u8>, psize: Option<u64>) -> u64 {
    match psize {
        Some(s) => s,
        None => match spec_numeric_field(h.subrange(OFF_SIZE as int, (OFF_SIZE + LEN_SIZE) as int)) {
            Some(v) => v,
            None => 0,
        },
    }
}

/// The size rounded up to whole blocks.
pub open spec fn padded_len(size: int) -> int {
    size + (512 - size % 512) % 512
}

/// The data that follows a header, cut at 4 GiB; empty when it runs past the
/// end of the stream.
pub open spec fn body_of(data: Seq<u8>, data_pos: int, size: u64) -> Seq<u8> {
    let n = if size > u32::MAX { u32::MAX as int } else { size as int };
    if data_pos + n <= data.len() {
        data.subrange(data_pos, data_pos + n)
    } else {
        Seq::empty()
    }
}

/// What one header does: the pending name and size it leaves for the next
/// one, and the entry it yields, if any. Links, devices and FIFOs are
/// skipped, and forget a pending name.
pub open spec fn tar_step(h: Seq<u8>, body: Seq<u8>, pname: Option<Seq<char>>, size: u64, data_pos: int) -> (Option<Seq<char>>, Option<u64>, Option<TarEntryView>) {
    let t = h[OFF_TYPEFLAG as int];
    if t == 0x4C {
        // GNU longname: the data holds the full name of the next entry.
        (Some(spec_cstr(body)), None, None)
    } else if t == 0x78 || t == 0x58 {
        // PAX: "key=value" records for the next entry.
        let (pp, ps) = spec_pax(body, 0, None, None);
        (if pp is Some { pp } else { pname }, ps, None)
    } else if t == 0x67 {
        // Global PAX records are of no interest.
        (pname, None, None)
    } else if t == 0x30 || t == 0 || t == 0x37 || t == 0x35 {
        let path = match pname {
            Some(n) => n,
            None => spec_header_name(h),
        };
        let is_dir = t == 0x35;
        (
            None,
            None,
            if path.len() > 0 {
                Some(
                    TarEntryView {
                        path,
                        size: if is_dir { 0 } else { size },
                        mtime: spec_header_mtime(h),
                        data_offset: data_pos as u64,
                        is_dir,
                    },
                )
            } else {
                None
            },
        )
    } else {
        (None, None, None)
    }
}

/// The entries of the chain of headers from `pos` on. The chain ends at a
/// zero block, at the end of the stream, or at a header that does not add up
/// after valid ones; a first header that does not add up is an error.
pub open spec fn spec_tar_walk(data: Seq<u8>, pos: int, pname: Option<Seq<char>>, psize: Option<u64>, saw: bool) -> Result<Seq<TarEntryView>, TarError>
    decreases data.len() - pos,
{
    if pos < 0 || pos + BLOCK > data.len() {
        Ok(Seq::empty())
    } else {
        let h = data.subrange(pos, pos + BLOCK);
        if is_zero_block(h) {
            Ok(Seq::empty())
        } else if !spec_checksum_matches(h) {
            if saw {
                Ok(Seq::empty())
            } else {
                Err(TarError::BadHeader)
            }
        } else {
            let size = tar_size(h, psize);
            let data_pos = pos + BLOCK;
            let (pn2, ps2, emitted) = tar_step(h, body_of(data, data_pos, size), pname, size, data_pos);
            let next = data_pos + padded_len(size as int);
            let rest = if next + BLOCK > data.len() {
                Ok(Seq::empty())
            } else {
                spec_tar_walk(data, next, pn2, ps2, true)
            };
            match rest {
                Err(e) => Err(e),
                Ok(r) => Ok(
                    match emitted {
                        Some(e) => seq![e] + r,
                        None => r,
                    },
                ),
            }
        }
    }
}

pub open spec fn spec_parse_tar(data: Seq<u8>) -> Result<Seq<TarEntryView>, TarError> {
    spec_tar_walk(data, 0, None, None, false)
}

fn is_zero(h: &[u8]) -> (res: bool)
    ensures
        res == is_zero_block(h@),
{
    let mut i: usize = 0;
    while i < h.len()
        invariant
            i <= h.len(),
            forall|j: int| 0 <= j < i ==> h@[j] == 0,
        decreases h.len() - i,
    {
        if h[i] != 0 {
            return false;
        }
        i = i + 1;
    }
    true
}

/// What one header yields, and the pending name and size it leaves.
fn step(header: &[u8], body: &[u8], pending_name: Option<String>, size: u64, data_pos: usize) -> (res: (Option<String>, Option<u64>, Option<TarEntry>))
    requires
        header@.len() == BLOCK,
    ensures
        ({
            let (pn, ps, em) = tar_step(header@, body@, opt_view(pending_name), size, data_pos as int);
            &&& opt_view(res.0) == pn
            &&& res.1 == ps
            &&& match res.2 {
                Some(e) => em == Some(e@),
                None => em is None,
            }
        }),
{
    let typeflag = header[OFF_TYPEFLAG];
    if typeflag == 0x4C {
        (Some(cstr(body)), None, None)
    } else if typeflag == 0x78 || typeflag == 0x58 {
        let (path, sz) = parse_pax(body);
        let name = if path.is_some() {
            path
        } else {
            pending_name
        };
        (name, sz, None)
    } else if typeflag == 0x67 {
        (pending_name, None, None)
    } else if typeflag == 0x30 || typeflag == 0 || typeflag == 0x37 || typeflag == 0x35 {
        let path = match pending_name {
            Some(n) => n,
            None => header_name(header),
        };
        let is_dir = typeflag == 0x35;
        if path.as_str().is_empty() {
            (None, None, None)
        } else {
            let entry = TarEntry {
                path,
                size: if is_dir {
                    0
                } else {
                    size
                },
                mtime: header_mtime(header),
                data_offset: data_pos as u64,
                is_dir,
            };
            (None, None, Some(entry))
        }
    } else {
        (None, None, None)
    }
}

/// Where the header after one whose data of `size` bytes starts at
/// `data_pos` lies, if a whole header still fits there.
fn next_header(len: usize, data_pos: usize, size: u64) -> (res: Option<usize>)
    requires
        data_pos <= len,
    ensures
        match res {
            Some(n) => n == data_pos + padded_len(size as int) && n + BLOCK <= len,
            None => data_pos + padded_len(size as int) + BLOCK > len,
        },
{
    let remaining = len - data_pos;
    if size > remaining as u64 {
        return None;
    }
    let sz = size as usize;
    let pad = (512 - sz % 512) % 512;
    if pad > remaining - sz || remaining - sz - pad < BLOCK {
        return None;
    }
    Some(data_pos + sz + pad)
}

pub open spec fn walk_rest(data: Seq<u8>, next: int, pn: Option<Seq<char>>, ps: Option<u64>) -> Result<Seq<TarEntryView>, TarError> {
    if next + BLOCK > data.len() {
        Ok(Seq::empty())
    } else {
        spec_tar_walk(data, next, pn, ps, true)
    }
}

pub open spec fn prepend(em: Option<TarEntryView>, rest: Result<Seq<TarEntryView>, TarError>) -> Result<Seq<TarEntryView>, TarError> {
    match rest {
        Err(e) => Err(e),
        Ok(r) => Ok(
            match em {
                Some(e) => seq![e] + r,
                None => r,
            },
        ),
    }
}

pub open spec fn walk_from(done: Seq<TarEntryView>, rest: Result<Seq<TarEntryView>, TarError>) -> Result<Seq<TarEntryView>, TarError> {
    match rest {
        Ok(r) => Ok(done + r),
        Err(e) => Err(e),
    }
}

proof fn lemma_walk_step(data: Seq<u8>, pos: int, pname: Option<Seq<char>>, psize: Option<u64>, saw: bool)
    requires
        0 <= pos,
        pos + BLOCK <= data.len(),
        !is_zero_block(data.subrange(pos, pos + BLOCK)),
        spec_checksum_matches(data.subrange(pos, pos + BLOCK)),
    ensures
        ({
            let h = data.subrange(pos, pos + BLOCK);
            let size = tar_size(h, psize);
            let data_pos = pos + BLOCK;
            let (pn2, ps2, em) = tar_step(h, body_of(data, data_pos, size), pname, size, data_pos);
            spec_tar_walk(data, pos, pname, psize, saw) == prepend(
                em,
                walk_rest(data, data_pos + padded_len(size as int), pn2, ps2),
            )
        }),
{
}

proof fn lemma_walk_from_prepend(done: Seq<TarEntryView>, em: Option<TarEntryView>, rest: Result<Seq<TarEntryView>, TarError>)
    ensures
        walk_from(done, prepend(em, rest)) == walk_from(
            match em {
                Some(e) => done.push(e),
                None => done,
            },
            rest,
        ),
{
    if let Ok(r) = rest {
        if let Some(e) = em {
            assert(done + (seq![e] + r) =~= done.push(e) + r);
        }
    }
}

/// Walks the whole stream and collects the list of entries.
#[verifier::rlimit(40)]
pub fn parse_tar(data: &[u8]) -> (res: Result<Vec<TarEntry>, TarError>)
    ensures
        match res {
            Ok(v) => spec_parse_tar(data@) == Ok::<Seq<TarEntryView>, TarError>(tar_views(v@)),
            Err(e) => spec_parse_tar(data@) == Err::<Seq<TarEntryView>, TarError>(e),
        },
{
    let mut entries: Vec<TarEntry> = Vec::new();
    let mut pos: usize = 0;
    let mut pending_name: Option<String> = None;
    let mut pending_size: Option<u64> = None;
    let mut saw_any_header = false;
    let len = data.len();

    while len >= BLOCK && pos <= len - BLOCK
        invariant_except_break
            len == data@.len(),
            spec_parse_tar(data@) == walk_from(
                tar_views(entries@),
                spec_tar_walk(data@, pos as int, opt_view(pending_name), pending_size, saw_any_header),
            ),
        ensures
            spec_parse_tar(data@) == Ok::<Seq<TarEntryView>, TarError>(tar_views(entries@)),
        decreases len - pos,
    {
        let header = &data[pos..pos + BLOCK];
        // The end of the archive is two zero blocks. One is enough to stop:
        // by the specification only padding follows.
        if is_zero(header) {
            assert(tar_views(entries@) + Seq::<TarEntryView>::empty() =~= tar_views(entries@));
            break;
        }
        if !checksum_matches(header) {
            if saw_any_header {
                // Garbage after valid entries — stop quietly: that happens
                // with archives that had something foreign appended.
                assert(tar_views(entries@) + Seq::<TarEntryView>::empty() =~= tar_views(entries@));
                break;
            }
            return Err(TarError::BadHeader);
        }
        proof {
            lemma_walk_step(data@, pos as int, opt_view(pending_name), pending_size, saw_any_header);
        }
        saw_any_header = true;

        let size = match pending_size {
            Some(s) => s,
            None => match numeric_field(&header[OFF_SIZE..OFF_SIZE + LEN_SIZE]) {
                Some(v) => v,
                None => 0,
            },
        };
        let data_pos = pos + BLOCK;
        let remaining = len - data_pos;
        let capped: u64 = if size > 0xFFFF_FFFF {
            0xFFFF_FFFF
        } else {
            size
        };
        let body: &[u8] = if capped <= remaining as u64 {
            &data[data_pos..data_pos + capped as usize]
        } else {
            &[]
        };
        assert(body@ == body_of(data@, data_pos as int, size));
        let (name2, size2, emitted) = step(header, body, pending_name, size, data_pos);
        let ghost before = tar_views(entries@);
        let ghost em = if emitted is Some {
            Some(emitted->0@)
        } else {
            None::<TarEntryView>
        };
        let ghost rest = walk_rest(data@, data_pos + padded_len(size as int), opt_view(name2), size2);
        proof {
            lemma_walk_from_prepend(before, em, rest);
        }
        match emitted {
            Some(e) => {
                entries.push(e);
                assert(tar_views(entries@) =~= before.push(em->0));
            },
            None => {},
        }
        pending_name = name2;
        pending_size = size2;
        // Where the next header starts: after the data, padded to a block.
        match next_header(len, data_pos, size) {
            Some(n) => {
                pos = n;
            },
            None => {
                assert(tar_views(entries@) + Seq::<TarEntryView>::empty() =~= tar_views(entries@));
                break;
            },
        }
    }
    Ok(entries)
}

} // verus!
