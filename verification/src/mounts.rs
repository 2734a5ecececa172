//! Bookkeeping of mounted archives.
//!
//! From the context menu a drive is mounted in the background, and unmounting
//! it later takes another command — so something has to remember which letter
//! belongs to which archive and which process holds it.
//!
//! The state is a text file, a line per mount, fields separated by tabs:
//! people read it, and so do we when debugging. This module holds what is
//! decided about it: the file's format, which records stay, and the names
//! derived from a drive letter. Reading and writing the file, and asking the
//! system which processes and drives exist, happen around it.

use vstd::prelude::*;

use crate::sanitize::{decimal_chars, decimal_digits, digit_char, lemma_decimal_chars_digits};
use crate::text::{chars_of, string_from_chars};

verus! {

/// One mounted archive: its drive letter (as `D:`), the archive's path and
/// the process that holds the mount.
#[derive(Debug)]
pub struct MountRecord {
    pub letter: String,
    pub archive: String,
    pub pid: u32,
}

/// A `MountRecord` as a value.
pub struct MountRecordView {
    pub letter: Seq<char>,
    pub archive: Seq<char>,
    pub pid: u32,
}

impl View for MountRecord {
    type V = MountRecordView;

    open spec fn view(&self) -> MountRecordView {
        MountRecordView { letter: self.letter@, archive: self.archive@, pid: self.pid }
    }
}

/// The records taken by their views.
pub open spec fn record_views(rs: Seq<MountRecord>) -> Seq<MountRecordView> {
    rs.map_values(|r: MountRecord| r@)
}

impl MountRecord {
    /// A copy of the record.
    pub fn copy(&self) -> (res: MountRecord)
        ensures
            res@ == self@,
    {
        MountRecord { letter: self.letter.clone(), archive: self.archive.clone(), pid: self.pid }
    }
}

pub open spec fn is_ascii_alpha(c: char) -> bool {
    ('a' <= c && c <= 'z') || ('A' <= c && c <= 'Z')
}

pub open spec fn is_ascii_alnum(c: char) -> bool {
    is_ascii_alpha(c) || ('0' <= c && c <= '9')
}

pub open spec fn ascii_upper(c: char) -> char {
    if 'a' <= c && c <= 'z' {
        ((c as u32) - 32) as char
    } else {
        c
    }
}

/// Whether this looks like a drive letter such as `D:`.
pub fn is_drive_letter(target: &str) -> (res: bool)
    ensures
        res == (target@.len() == 2 && is_ascii_alpha(target@[0]) && target@[1] == ':'),
{
    let chars = chars_of(target);
    chars.len() == 2 && (('a' <= chars[0] && chars[0] <= 'z') || ('A' <= chars[0] && chars[0] <= 'Z'))
        && chars[1] == ':'
}

/// The letter's ASCII letters and digits, upper-cased.
pub open spec fn event_suffix(s: Seq<char>) -> Seq<char>
    decreases s.len(),
{
    if s.len() == 0 {
        Seq::empty()
    } else if is_ascii_alnum(s.last()) {
        event_suffix(s.drop_last()).push(ascii_upper(s.last()))
    } else {
        event_suffix(s.drop_last())
    }
}

/// Name of the event that tells a mounting process to finish.
///
/// The event lives in the session namespace (`Local\`), not the global one:
/// a mount is visible to its own session only anyway, and a global name would
/// need extra rights. Stray characters are left out: only ASCII letters and
/// digits of the letter get into a kernel object name.
pub fn stop_event_name(letter: &str) -> (res: String)
    ensures
        res@ == "Local\\ZipMount-Stop-"@ + event_suffix(letter@),
{
    let mut out = chars_of("Local\\ZipMount-Stop-");
    let ghost prefix = out@;
    let chars = chars_of(letter);
    for i in 0..chars.len()
        invariant
            chars@ == letter@,
            out@ == prefix + event_suffix(letter@.take(i as int)),
    {
        let c = chars[i];
        proof {
            assert(letter@.take(i + 1).drop_last() =~= letter@.take(i as int));
        }
        if ('a' <= c && c <= 'z') || ('A' <= c && c <= 'Z') || ('0' <= c && c <= '9') {
            let up = if 'a' <= c && c <= 'z' {
                ((c as u32) - 32) as u8 as char
            } else {
                c
            };
            assert(up == ascii_upper(c)) by {
                if 'a' <= c && c <= 'z' {
                    assert(((c as u32) - 32) as u8 as char == ((c as u32) - 32) as char);
                }
            }
            out.push(up);
        }
    }
    proof {
        assert(letter@.take(letter@.len() as int) =~= letter@);
    }
    string_from_chars(out.as_slice())
}

/// Whether two letters are the same, ignoring ASCII case.
pub open spec fn same_letter(a: Seq<char>, b: Seq<char>) -> bool {
    a.len() == b.len() && forall|i: int| 0 <= i < a.len() ==> ascii_upper(#[trigger] a[i]) == ascii_upper(b[i])
}

/// `str::eq_ignore_ascii_case`.
pub fn eq_ignore_ascii_case(a: &str, b: &str) -> (res: bool)
    ensures
        res == same_letter(a@, b@),
{
    let ac = chars_of(a);
    let bc = chars_of(b);
    if ac.len() != bc.len() {
        return false;
    }
    for i in 0..ac.len()
        invariant
            ac@ == a@,
            bc@ == b@,
            ac.len() == bc.len(),
            forall|j: int| 0 <= j < i ==> ascii_upper(#[trigger] a@[j]) == ascii_upper(b@[j]),
    {
        let x = ac[i];
        let y = bc[i];
        let ux = if 'a' <= x && x <= 'z' {
            ((x as u32) - 32) as u8 as char
        } else {
            x
        };
        let uy = if 'a' <= y && y <= 'z' {
            ((y as u32) - 32) as u8 as char
        } else {
            y
        };
        assert(ux == ascii_upper(x)) by {
            if 'a' <= x && x <= 'z' {
                assert(((x as u32) - 32) as u8 as char == ((x as u32) - 32) as char);
            }
        }
        assert(uy == ascii_upper(y)) by {
            if 'a' <= y && y <= 'z' {
                assert(((y as u32) - 32) as u8 as char == ((y as u32) - 32) as char);
            }
        }
        if ux != uy {
            return false;
        }
    }
    true
}

/// The records without the one for `letter`, ignoring ASCII case.
pub open spec fn without_letter(rs: Seq<MountRecordView>, letter: Seq<char>) -> Seq<MountRecordView>
    decreases rs.len(),
{
    if rs.len() == 0 {
        Seq::empty()
    } else if same_letter(rs.last().letter, letter) {
        without_letter(rs.drop_last(), letter)
    } else {
        without_letter(rs.drop_last(), letter).push(rs.last())
    }
}

fn retain_other_letters(records: &Vec<MountRecord>, letter: &str) -> (res: Vec<MountRecord>)
    ensures
        record_views(res@) == without_letter(record_views(records@), letter@),
{
    let ghost all = record_views(records@);
    let mut out: Vec<MountRecord> = Vec::new();
    for i in 0..records.len()
        invariant
            all == record_views(records@),
            record_views(out@) == without_letter(all.take(i as int), letter@),
    {
        let ghost before = out@;
        proof {
            assert(all.take(i + 1).drop_last() =~= all.take(i as int));
            assert(all.take(i + 1).last() == records@[i as int]@);
        }
        if !eq_ignore_ascii_case(records[i].letter.as_str(), letter) {
            let r = records[i].copy();
            out.push(r);
            proof {
                assert(record_views(out@) =~= record_views(before).push(r@));
            }
        }
    }
    proof {
        assert(all.take(all.len() as int) =~= all);
    }
    out
}

/// The records after registering a mount: any record for the same letter
/// replaced by the new one, which goes last.
pub open spec fn spec_register(
    rs: Seq<MountRecordView>,
    letter: Seq<char>,
    archive: Seq<char>,
    pid: u32,
) -> Seq<MountRecordView> {
    without_letter(rs, letter).push(MountRecordView { letter, archive, pid })
}

/// Registers a mount among the live records.
pub fn register(records: Vec<MountRecord>, letter: &str, archive: &str, pid: u32) -> (res: Vec<
    MountRecord,
>)
    ensures
        record_views(res@) == spec_register(record_views(records@), letter@, archive@, pid),
{
    let mut out = retain_other_letters(&records, letter);
    let ghost before = out@;
    out.push(MountRecord { letter: letter.to_string(), archive: archive.to_string(), pid });
    proof {
        assert(record_views(out@) =~= record_views(before).push(
            MountRecordView { letter: letter@, archive: archive@, pid },
        ));
    }
    out
}

/// Forgets the mount on a letter.
pub fn unregister(records: Vec<MountRecord>, letter: &str) -> (res: Vec<MountRecord>)
    ensures
        record_views(res@) == without_letter(record_views(records@), letter@),
{
    retain_other_letters(&records, letter)
}

/// Live mounts: the records whose process is alive and whose drive exists,
/// as `alive` says of each record in turn. A process id alone is not enough:
/// the system reuses them, and the record of a killed mount can "come back
/// to life" on an unrelated process — so the drive has to be there too.
pub fn list(records: Vec<MountRecord>, alive: &[bool]) -> (res: Vec<MountRecord>)
    requires
        alive@.len() == records@.len(),
    ensures
        record_views(res@) == kept_alive(record_views(records@), alive@),
{
    let ghost all = record_views(records@);
    let mut out: Vec<MountRecord> = Vec::new();
    for i in 0..records.len()
        invariant
            all == record_views(records@),
            alive@.len() == all.len(),
            record_views(out@) == kept_alive(all.take(i as int), alive@),
    {
        let ghost before = out@;
        proof {
            assert(all.take(i + 1).drop_last() =~= all.take(i as int));
            assert(all.take(i + 1).last() == records@[i as int]@);
        }
        if alive[i] {
            let r = records[i].copy();
            out.push(r);
            proof {
                assert(record_views(out@) =~= record_views(before).push(r@));
            }
        }
    }
    proof {
        assert(all.take(all.len() as int) =~= all);
    }
    out
}

/// The records whose flag is set, in order.
pub open spec fn kept_alive(rs: Seq<MountRecordView>, alive: Seq<bool>) -> Seq<MountRecordView>
    decreases rs.len(),
{
    if rs.len() == 0 {
        Seq::empty()
    } else if alive[rs.len() - 1] {
        kept_alive(rs.drop_last(), alive).push(rs.last())
    } else {
        kept_alive(rs.drop_last(), alive)
    }
}

/// The index of the first record for `letter`, ignoring ASCII case.
pub open spec fn first_for_letter(rs: Seq<MountRecordView>, letter: Seq<char>, i: int) -> bool {
    &&& 0 <= i < rs.len()
    &&& same_letter(rs[i].letter, letter)
    &&& forall|j: int| 0 <= j < i ==> !same_letter(#[trigger] rs[j].letter, letter)
}

/// The record of the mount on a letter, if there is one.
pub fn find(records: &[MountRecord], letter: &str) -> (res: Option<MountRecord>)
    ensures
        match res {
            Some(r) => exists|i: int| first_for_letter(record_views(records@), letter@, i) && r@ == records@[i]@,
            None => forall|i: int| 0 <= i < records@.len() ==> !same_letter(#[trigger] records@[i]@.letter, letter@),
        },
{
    for i in 0..records.len()
        invariant
            forall|j: int| 0 <= j < i ==> !same_letter(#[trigger] records@[j]@.letter, letter@),
    {
        if eq_ignore_ascii_case(records[i].letter.as_str(), letter) {
            let r = records[i].copy();
            proof {
                let rs = record_views(records@);
                assert forall|j: int| 0 <= j < i implies !same_letter(#[trigger] rs[j].letter, letter@) by {
                    assert(rs[j] == records@[j]@);
                }
                assert(first_for_letter(rs, letter@, i as int));
            }
            return Some(r);
        }
    }
    None
}

/// The mount of an archive, if there already is one: the first record whose
/// archive, normalized as `normalized` gives it for each record in turn, is
/// the target.
pub fn find_by_archive(records: &[MountRecord], normalized: &[String], target: &str) -> (res: Option<
    MountRecord,
>)
    requires
        normalized@.len() == records@.len(),
    ensures
        match res {
            Some(r) => exists|i: int|
                0 <= i < records@.len() && normalized@[i]@ == target@ && r@ == records@[i]@ && forall|j: int|
                    0 <= j < i ==> (#[trigger] normalized@[j])@ != target@,
            None => forall|i: int| 0 <= i < records@.len() ==> (#[trigger] normalized@[i])@ != target@,
        },
{
    let t = chars_of(target);
    for i in 0..records.len()
        invariant
            normalized@.len() == records@.len(),
            t@ == target@,
            forall|j: int| 0 <= j < i ==> (#[trigger] normalized@[j])@ != target@,
    {
        let n = chars_of(normalized[i].as_str());
        if crate::names::chars_eq(&n, &t) {
            return Some(records[i].copy());
        }
    }
    None
}

/// The text of a path with the extended `\\?\` prefix taken off:
/// `canonicalize` returns such paths on Windows, and they look like garbage
/// in a listing. Comparing does not need it, as long as both sides are
/// normalized alike.
pub open spec fn spec_normalize(text: Seq<char>) -> Seq<char> {
    if text.len() >= 4 && text.take(4) == "\\\\?\\"@ {
        text.skip(4)
    } else {
        text
    }
}

/// Brings a canonical path to a form fit both for comparing and for showing.
pub fn normalize(canonical: &str) -> (res: String)
    ensures
        res@ == spec_normalize(canonical@),
{
    let chars = chars_of(canonical);
    let prefix = chars_of("\\\\?\\");
    proof {
        reveal_strlit("\\\\?\\");
    }
    if chars.len() >= 4 && chars[0] == '\\' && chars[1] == '\\' && chars[2] == '?' && chars[3] == '\\' {
        assert(canonical@.take(4) =~= "\\\\?\\"@);
        let mut out: Vec<char> = Vec::new();
        for i in 4..chars.len()
            invariant
                chars@ == canonical@,
                4 <= chars@.len(),
                out@ == canonical@.subrange(4, i as int),
        {
            out.push(chars[i]);
            proof {
                assert(canonical@.subrange(4, i + 1) =~= canonical@.subrange(4, i as int).push(chars@[i as int]));
            }
        }
        assert(canonical@.subrange(4, chars@.len() as int) =~= canonical@.skip(4));
        string_from_chars(out.as_slice())
    } else {
        proof {
            if canonical@.len() >= 4 && canonical@.take(4) == "\\\\?\\"@ {
                assert(canonical@.take(4)[0] == '\\');
                assert(canonical@.take(4)[1] == '\\');
                assert(canonical@.take(4)[2] == '?');
                assert(canonical@.take(4)[3] == '\\');
            }
        }
        string_from_chars(chars.as_slice())
    }
}

/// The drive letters offered, from D to Z: A and B historically belong to
/// floppies and some programs still treat them specially, and C is almost
/// always the system drive.
pub const FIRST_LETTER: char = 'D';

/// How many letters are offered, D to Z.
pub const LETTER_COUNT: usize = 23;

/// The drive name of the `i`-th letter offered, like `D:`.
pub open spec fn drive_name(i: int) -> Seq<char> {
    seq![((68 + i) as u32) as char, ':']
}

fn drive_name_of(i: usize) -> (res: String)
    requires
        i < LETTER_COUNT,
    ensures
        res@ == drive_name(i as int),
{
    let c = ((68 + i) as u8) as char;
    assert(c == ((68 + i) as u32) as char);
    let mut v: Vec<char> = Vec::new();
    v.push(c);
    v.push(':');
    assert(v@ =~= drive_name(i as int));
    string_from_chars(v.as_slice())
}

/// The first free drive letter, given which of D to Z are taken.
pub fn first_free_letter(taken: &[bool]) -> (res: Option<String>)
    requires
        taken@.len() == LETTER_COUNT,
    ensures
        match res {
            Some(name) => exists|i: int|
                0 <= i < LETTER_COUNT && !taken@[i] && name@ == drive_name(i) && forall|j: int|
                    0 <= j < i ==> #[trigger] taken@[j],
            None => forall|i: int| 0 <= i < LETTER_COUNT ==> #[trigger] taken@[i],
        },
{
    for i in 0..LETTER_COUNT
        invariant
            taken@.len() == LETTER_COUNT,
            forall|j: int| 0 <= j < i ==> #[trigger] taken@[j],
    {
        if !taken[i] {
            return Some(drive_name_of(i));
        }
    }
    None
}

/// The free drive letters, given which of D to Z are taken, in order.
pub fn free_letters(taken: &[bool]) -> (res: Vec<String>)
    requires
        taken@.len() == LETTER_COUNT,
    ensures
        res@.map_values(|s: String| s@) == Seq::new(LETTER_COUNT as nat, |i: int| i).filter(
            |i: int| !taken@[i],
        ).map_values(|i: int| drive_name(i)),
{
    let ghost idx = Seq::new(LETTER_COUNT as nat, |i: int| i);
    let mut out: Vec<String> = Vec::new();
    for i in 0..LETTER_COUNT
        invariant
            taken@.len() == LETTER_COUNT,
            idx == Seq::new(LETTER_COUNT as nat, |i: int| i),
            out@.map_values(|s: String| s@) == idx.take(i as int).filter(|i: int| !taken@[i]).map_values(
                |i: int| drive_name(i),
            ),
    {
        let ghost before = out@;
        proof {
            assert(idx.take(i + 1) =~= idx.take(i as int).push(i as int));
            idx.take(i as int).lemma_filter_push(i as int, |i: int| !taken@[i]);
        }
        if !taken[i] {
            let name = drive_name_of(i);
            out.push(name);
            proof {
                let f = idx.take(i as int).filter(|i: int| !taken@[i]);
                assert(out@.map_values(|s: String| s@) =~= before.map_values(|s: String| s@).push(drive_name(i as int)));
                assert(f.push(i as int).map_values(|i: int| drive_name(i)) =~= f.map_values(|i: int| drive_name(i)).push(drive_name(i as int)));
            }
        } else {
            proof {
                assert(out@ == before);
            }
        }
    }
    proof {
        assert(idx.take(LETTER_COUNT as int) =~= idx);
    }
    out
}

// ---------------------------------------------------------------------------
// The state file
// ---------------------------------------------------------------------------

/// A record's line in the state file: letter, process id and archive,
/// separated by tabs.
pub open spec fn record_line(r: MountRecordView) -> Seq<char> {
    r.letter + seq!['\t'] + decimal_chars(r.pid as nat) + seq!['\t'] + r.archive + seq!['\n']
}

/// The state file's text for the records.
pub open spec fn spec_format_records(rs: Seq<MountRecordView>) -> Seq<char>
    decreases rs.len(),
{
    if rs.len() == 0 {
        Seq::empty()
    } else {
        spec_format_records(rs.drop_last()) + record_line(rs.last())
    }
}

fn push_chars(out: &mut Vec<char>, s: &str)
    ensures
        final(out)@ == old(out)@ + s@,
{
    let chars = chars_of(s);
    let ghost before = out@;
    for i in 0..chars.len()
        invariant
            chars@ == s@,
            out@ == before + s@.take(i as int),
    {
        out.push(chars[i]);
        proof {
            assert(before + s@.take(i + 1) =~= (before + s@.take(i as int)).push(chars@[i as int]));
        }
    }
    proof {
        assert(s@.take(s@.len() as int) =~= s@);
    }
}

/// The state file's text for the records.
pub fn format_records(records: &[MountRecord]) -> (res: String)
    ensures
        res@ == spec_format_records(record_views(records@)),
{
    let ghost rs = record_views(records@);
    let mut out: Vec<char> = Vec::new();
    for i in 0..records.len()
        invariant
            rs == record_views(records@),
            out@ == spec_format_records(rs.take(i as int)),
    {
        let r = &records[i];
        let ghost before = out@;
        push_chars(&mut out, r.letter.as_str());
        out.push('\t');
        let digits = decimal_digits(r.pid as u64);
        for j in 0..digits.len()
            invariant
                out@ == before + r.letter@ + seq!['\t'] + digits@.take(j as int),
        {
            out.push(digits[j]);
            proof {
                assert(before + r.letter@ + seq!['\t'] + digits@.take(j + 1) =~= (before + r.letter@
                    + seq!['\t'] + digits@.take(j as int)).push(digits@[j as int]));
            }
        }
        out.push('\t');
        push_chars(&mut out, r.archive.as_str());
        out.push('\n');
        proof {
            assert(digits@.take(digits@.len() as int) =~= digits@);
            assert(rs.take(i + 1).drop_last() =~= rs.take(i as int));
            assert(rs.take(i + 1).last() == r@);
            assert(out@ =~= before + record_line(r@));
        }
    }
    proof {
        assert(rs.take(rs.len() as int) =~= rs);
    }
    string_from_chars(out.as_slice())
}

/// The pieces of `s` between the `sep` characters, as `str::split` yields
/// them: always at least one, possibly empty.
pub open spec fn split_at_char(s: Seq<char>, sep: char) -> Seq<Seq<char>>
    decreases s.len(),
{
    if s.len() == 0 {
        seq![Seq::empty()]
    } else if s.last() == sep {
        split_at_char(s.drop_last(), sep).push(Seq::empty())
    } else {
        let p = split_at_char(s.drop_last(), sep);
        p.update(p.len() - 1, p.last().push(s.last()))
    }
}

/// A line without the carriage return of a `\r\n` line ending.
pub open spec fn strip_cr(l: Seq<char>) -> Seq<char> {
    if l.len() > 0 && l.last() == '\r' {
        l.drop_last()
    } else {
        l
    }
}

/// The lines of a text as `str::lines` yields them: split at `\n`, a `\r`
/// before the `\n` dropped, and no empty last line after a final line
/// ending.
pub open spec fn text_lines(text: Seq<char>) -> Seq<Seq<char>> {
    let segs = split_at_char(text, '\n');
    let full = segs.drop_last().map_values(|l: Seq<char>| strip_cr(l));
    if segs.last().len() == 0 {
        full
    } else {
        full.push(segs.last())
    }
}

/// The value of a string of decimal digits.
pub open spec fn digits_value(s: Seq<char>) -> nat
    decreases s.len(),
{
    if s.len() == 0 {
        0
    } else {
        digits_value(s.drop_last()) * 10 + ((s.last() as u32) - 48) as nat
    }
}

pub open spec fn all_decimal(s: Seq<char>) -> bool {
    forall|i: int| 0 <= i < s.len() ==> '0' <= #[trigger] s[i] <= '9'
}

/// What `str::parse::<u32>` makes of a string: an optional `+`, then one or
/// more decimal digits whose value fits.
pub open spec fn spec_parse_u32(s: Seq<char>) -> Option<u32> {
    let d = if s.len() > 0 && s[0] == '+' {
        s.skip(1)
    } else {
        s
    };
    if d.len() > 0 && all_decimal(d) && digits_value(d) <= u32::MAX {
        Some(digits_value(d) as u32)
    } else {
        None
    }
}

proof fn lemma_digits_value_mono(s: Seq<char>, i: int)
    requires
        0 <= i <= s.len(),
        all_decimal(s),
    ensures
        digits_value(s.take(i)) <= digits_value(s),
    decreases s.len() - i,
{
    if i < s.len() {
        lemma_digits_value_mono(s, i + 1);
        assert(s.take(i + 1).drop_last() =~= s.take(i));
        assert('0' <= s[i] <= '9');
    } else {
        assert(s.take(i) =~= s);
    }
}

/// Parses a `u32` the way `str::parse` does.
pub fn parse_u32(s: &[char]) -> (res: Option<u32>)
    ensures
        res == spec_parse_u32(s@),
{
    let start: usize = if s.len() > 0 && s[0] == '+' {
        1
    } else {
        0
    };
    let ghost d = if s@.len() > 0 && s@[0] == '+' {
        s@.skip(1)
    } else {
        s@
    };
    assert(d =~= s@.skip(start as int));
    if start >= s.len() {
        return None;
    }
    let mut value: u64 = 0;
    let mut i: usize = start;
    while i < s.len()
        invariant
            start <= i <= s.len(),
            start < s.len(),
            d == s@.skip(start as int),
            d == (if s@.len() > 0 && s@[0] == '+' {
                s@.skip(1)
            } else {
                s@
            }),
            forall|j: int| start <= j < i ==> '0' <= #[trigger] s@[j] <= '9',
            value == digits_value(s@.subrange(start as int, i as int)),
            value <= u32::MAX,
        decreases s.len() - i,
    {
        let c = s[i];
        if c < '0' || c > '9' {
            proof {
                assert(d[i - start] == c);
            }
            return None;
        }
        proof {
            assert(s@.subrange(start as int, i + 1).drop_last() =~= s@.subrange(start as int, i as int));
        }
        value = value * 10 + ((c as u32) - 48) as u64;
        if value > 0xFFFF_FFFF {
            proof {
                if all_decimal(d) {
                    assert(s@.subrange(start as int, i + 1) =~= d.take(i + 1 - start));
                    lemma_digits_value_mono(d, i + 1 - start);
                }
            }
            return None;
        }
        i = i + 1;
    }
    proof {
        assert(s@.subrange(start as int, s@.len() as int) =~= d);
        assert forall|k: int| 0 <= k < d.len() implies '0' <= #[trigger] d[k] <= '9' by {
            assert(d[k] == s@[start + k]);
        }
    }
    Some(value as u32)
}

/// A state file line made a record: letter, process id and archive are the
/// first three tab-separated pieces; a line with fewer, or with a process id
/// that does not parse, is skipped.
pub open spec fn parse_line(line: Seq<char>) -> Option<MountRecordView> {
    let parts = split_at_char(line, '\t');
    if parts.len() < 3 {
        None
    } else {
        match spec_parse_u32(parts[1]) {
            Some(pid) => Some(MountRecordView { letter: parts[0], archive: parts[2], pid }),
            None => None,
        }
    }
}

/// The records of the lines that parse, in order.
pub open spec fn parse_lines(lines: Seq<Seq<char>>) -> Seq<MountRecordView>
    decreases lines.len(),
{
    if lines.len() == 0 {
        Seq::empty()
    } else {
        match parse_line(lines.last()) {
            Some(r) => parse_lines(lines.drop_last()).push(r),
            None => parse_lines(lines.drop_last()),
        }
    }
}

/// The records a state file holds.
pub open spec fn spec_parse_records(text: Seq<char>) -> Seq<MountRecordView> {
    parse_lines(text_lines(text))
}

pub proof fn lemma_split_len(s: Seq<char>, sep: char)
    ensures
        split_at_char(s, sep).len() >= 1,
    decreases s.len(),
{
    if s.len() > 0 {
        lemma_split_len(s.drop_last(), sep);
    }
}

/// Splits a line at tabs.
fn split_tabs(line: &Vec<char>) -> (res: Vec<Vec<char>>)
    ensures
        res@.map_values(|v: Vec<char>| v@) == split_at_char(line@, '\t'),
{
    let mut parts: Vec<Vec<char>> = Vec::new();
    let mut cur: Vec<char> = Vec::new();
    for i in 0..line.len()
        invariant
            parts@.map_values(|v: Vec<char>| v@).push(cur@) == split_at_char(line@.take(i as int), '\t'),
    {
        let c = line[i];
        let ghost prev = line@.take(i as int);
        proof {
            lemma_split_len(prev, '\t');
            assert(line@.take(i + 1).drop_last() =~= prev);
            assert(line@.take(i + 1).last() == c);
        }
        let ghost before = parts@.map_values(|v: Vec<char>| v@);
        if c == '\t' {
            let done = cur;
            parts.push(done);
            cur = Vec::new();
            proof {
                assert(parts@.map_values(|v: Vec<char>| v@) =~= before.push(done@));
                assert(parts@.map_values(|v: Vec<char>| v@).push(cur@) =~= before.push(done@).push(Seq::empty()));
            }
        } else {
            let ghost old_cur = cur@;
            cur.push(c);
            proof {
                let p = split_at_char(prev, '\t');
                assert(before.push(cur@) =~= p.update(p.len() - 1, p.last().push(c)));
            }
        }
    }
    proof {
        assert(line@.take(line@.len() as int) =~= line@);
    }
    let ghost before = parts@.map_values(|v: Vec<char>| v@);
    parts.push(cur);
    proof {
        assert(parts@.map_values(|v: Vec<char>| v@) =~= before.push(parts@[parts@.len() - 1]@));
    }
    parts
}

/// The record of one line, if it parses.
fn parse_record_line(line: &Vec<char>) -> (res: Option<MountRecord>)
    ensures
        match parse_line(line@) {
            Some(r) => res matches Some(m) && m@ == r,
            None => res is None,
        },
{
    let parts = split_tabs(line);
    let ghost ps = parts@.map_values(|v: Vec<char>| v@);
    if parts.len() < 3 {
        return None;
    }
    assert(ps[1] == parts@[1]@);
    match parse_u32(parts[1].as_slice()) {
        Some(pid) => {
            let letter = string_from_chars(parts[0].as_slice());
            let archive = string_from_chars(parts[2].as_slice());
            assert(ps[0] == parts@[0]@);
            assert(ps[2] == parts@[2]@);
            Some(MountRecord { letter, archive, pid })
        },
        None => None,
    }
}

/// The records a state file holds: one per line, in order; lines that do not
/// parse are skipped.
pub fn parse_records(text: &str) -> (res: Vec<MountRecord>)
    ensures
        record_views(res@) == spec_parse_records(text@),
{
    let chars = chars_of(text);
    let mut out: Vec<MountRecord> = Vec::new();
    let mut cur: Vec<char> = Vec::new();
    for i in 0..chars.len()
        invariant
            chars@ == text@,
            split_at_char(text@.take(i as int), '\n').last() == cur@,
            record_views(out@) == parse_lines(
                split_at_char(text@.take(i as int), '\n').drop_last().map_values(|l: Seq<char>| strip_cr(l)),
            ),
    {
        let c = chars[i];
        let ghost prev = text@.take(i as int);
        proof {
            lemma_split_len(prev, '\n');
            assert(text@.take(i + 1).drop_last() =~= prev);
            assert(text@.take(i + 1).last() == c);
        }
        if c == '\n' {
            let ghost segs = split_at_char(prev, '\n');
            let ghost before = out@;
            if cur.len() > 0 && cur[cur.len() - 1] == '\r' {
                cur.pop();
            }
            proof {
                assert(cur@ == strip_cr(segs.last()));
            }
            let ghost line = cur@;
            if let Some(r) = parse_record_line(&cur) {
                out.push(r);
                proof {
                    assert(record_views(out@) =~= record_views(before).push(r@));
                }
            }
            cur = Vec::new();
            proof {
                let segs2 = split_at_char(text@.take(i + 1), '\n');
                assert(segs2 == segs.push(Seq::empty()));
                assert(segs2.drop_last() =~= segs);
                let old_lines = segs.drop_last().map_values(|l: Seq<char>| strip_cr(l));
                let new_lines = segs.map_values(|l: Seq<char>| strip_cr(l));
                assert(new_lines =~= old_lines.push(line));
                assert(new_lines.drop_last() =~= old_lines);
                assert(new_lines.last() == line);
            }
        } else {
            cur.push(c);
            proof {
                let segs = split_at_char(prev, '\n');
                let segs2 = segs.update(segs.len() - 1, segs.last().push(c));
                assert(split_at_char(text@.take(i + 1), '\n') == segs2);
                assert(segs2.drop_last() =~= segs.drop_last());
            }
        }
    }
    proof {
        assert(text@.take(text@.len() as int) =~= text@);
        lemma_split_len(text@, '\n');
    }
    if cur.len() > 0 {
        let ghost before = out@;
        if let Some(r) = parse_record_line(&cur) {
            out.push(r);
            proof {
                assert(record_views(out@) =~= record_views(before).push(r@));
            }
        }
        proof {
            let segs = split_at_char(text@, '\n');
            let full = segs.drop_last().map_values(|l: Seq<char>| strip_cr(l));
            assert(full.push(segs.last()).drop_last() =~= full);
            assert(full.push(segs.last()).last() == segs.last());
        }
    }
    out
}

/// A record the state file holds faithfully: no tab or line feed in its
/// letter or archive, and no carriage return ending its archive.
pub open spec fn storable(r: MountRecordView) -> bool {
    &&& forall|i: int| 0 <= i < r.letter.len() ==> #[trigger] r.letter[i] != '\t' && r.letter[i] != '\n'
    &&& forall|i: int| 0 <= i < r.archive.len() ==> #[trigger] r.archive[i] != '\t' && r.archive[i] != '\n'
    &&& (r.archive.len() > 0 ==> r.archive.last() != '\r')
}

proof fn lemma_split_plain(y: Seq<char>, sep: char)
    requires
        forall|i: int| 0 <= i < y.len() ==> #[trigger] y[i] != sep,
    ensures
        split_at_char(y, sep) == seq![y],
    decreases y.len(),
{
    if y.len() > 0 {
        lemma_split_plain(y.drop_last(), sep);
        assert(y.drop_last().push(y.last()) =~= y);
        assert(y[y.len() - 1] != sep);
        assert(seq![y.drop_last()].update(0, y.drop_last().push(y.last())) =~= seq![y]);
    } else {
        assert(y =~= Seq::<char>::empty());
    }
}

proof fn lemma_split_append(x: Seq<char>, y: Seq<char>, sep: char)
    requires
        forall|i: int| 0 <= i < y.len() ==> #[trigger] y[i] != sep,
    ensures
        split_at_char(x, sep).len() >= 1,
        split_at_char(x + y, sep) == split_at_char(x, sep).update(
            split_at_char(x, sep).len() - 1,
            split_at_char(x, sep).last() + y,
        ),
    decreases y.len(),
{
    lemma_split_len(x, sep);
    let sx = split_at_char(x, sep);
    if y.len() == 0 {
        assert(x + y =~= x);
        assert(sx.last() + y =~= sx.last());
        assert(sx.update(sx.len() - 1, sx.last()) =~= sx);
    } else {
        lemma_split_append(x, y.drop_last(), sep);
        assert((x + y).drop_last() =~= x + y.drop_last());
        assert((x + y).last() == y.last());
        assert(y[y.len() - 1] != sep);
        assert((sx.last() + y.drop_last()).push(y.last()) =~= sx.last() + y);
        assert(sx.update(sx.len() - 1, sx.last() + y.drop_last()).update(sx.len() - 1, sx.last() + y)
            =~= sx.update(sx.len() - 1, sx.last() + y));
    }
}

proof fn lemma_split_sep(x: Seq<char>, sep: char)
    ensures
        split_at_char(x.push(sep), sep) == split_at_char(x, sep).push(Seq::empty()),
{
    assert(x.push(sep).drop_last() =~= x);
}

/// The line of a record without its line feed.
pub open spec fn line_body(r: MountRecordView) -> Seq<char> {
    r.letter + seq!['\t'] + decimal_chars(r.pid as nat) + seq!['\t'] + r.archive
}

proof fn lemma_digit_char_value(x: int)
    requires
        0 <= x < 10,
    ensures
        (digit_char(x) as u32) == x + 48,
{
}

proof fn lemma_digits_value_decimal(n: nat)
    ensures
        digits_value(decimal_chars(n)) == n,
    decreases n,
{
    if n >= 10 {
        lemma_digits_value_decimal(n / 10);
        let d = decimal_chars(n);
        assert(d.drop_last() =~= decimal_chars(n / 10));
        assert(d.last() == digit_char((n % 10) as int));
        lemma_digit_char_value((n % 10) as int);
        assert(digits_value(d) == digits_value(decimal_chars(n / 10)) * 10 + ((d.last() as u32) - 48) as nat);
        assert(n == (n / 10) * 10 + n % 10);
    } else {
        let d = decimal_chars(n);
        assert(d.drop_last() =~= Seq::<char>::empty());
        assert(digits_value(Seq::<char>::empty()) == 0);
        lemma_digit_char_value(n as int);
        assert(d.last() == digit_char(n as int));
        assert(digits_value(d) == digits_value(d.drop_last()) * 10 + ((d.last() as u32) - 48) as nat);
    }
}

/// A storable record's line parses back into the record.
proof fn lemma_parse_line_body(r: MountRecordView)
    requires
        storable(r),
    ensures
        parse_line(line_body(r)) == Some(r),
{
    let d = decimal_chars(r.pid as nat);
    lemma_decimal_chars_digits(r.pid as nat);
    assert forall|i: int| 0 <= i < d.len() implies #[trigger] d[i] != '\t' by {
        assert('0' <= d[i] <= '9');
    }
    lemma_split_plain(r.letter, '\t');
    lemma_split_sep(r.letter, '\t');
    assert(r.letter.push('\t') =~= r.letter + seq!['\t']);
    lemma_split_append(r.letter + seq!['\t'], d, '\t');
    assert(seq![r.letter].push(Seq::<char>::empty()).update(1, Seq::<char>::empty() + d) =~= seq![r.letter, d]);
    lemma_split_sep(r.letter + seq!['\t'] + d, '\t');
    assert((r.letter + seq!['\t'] + d).push('\t') =~= r.letter + seq!['\t'] + d + seq!['\t']);
    lemma_split_append(r.letter + seq!['\t'] + d + seq!['\t'], r.archive, '\t');
    assert(seq![r.letter, d].push(Seq::<char>::empty()).update(2, Seq::<char>::empty() + r.archive) =~= seq![
        r.letter,
        d,
        r.archive,
    ]);
    assert(split_at_char(line_body(r), '\t') == seq![r.letter, d, r.archive]);
    lemma_digits_value_decimal(r.pid as nat);
    assert(d[0] != '+');
    assert(all_decimal(d));
}

proof fn lemma_body_one_line(r: MountRecordView)
    requires
        storable(r),
    ensures
        forall|i: int| 0 <= i < line_body(r).len() ==> #[trigger] line_body(r)[i] != '\n',
{
    let body = line_body(r);
    let d = decimal_chars(r.pid as nat);
    lemma_decimal_chars_digits(r.pid as nat);
    assert forall|i: int| 0 <= i < body.len() implies #[trigger] body[i] != '\n' by {
        if i < r.letter.len() {
            assert(body[i] == r.letter[i]);
        } else if i == r.letter.len() {
            assert(body[i] == '\t');
        } else if i < r.letter.len() + 1 + d.len() {
            assert(body[i] == d[i - r.letter.len() - 1]);
        } else if i == r.letter.len() + 1 + d.len() {
            assert(body[i] == '\t');
        } else {
            assert(body[i] == r.archive[i - r.letter.len() - 2 - d.len()]);
        }
    }
}

/// The lines of the state file for the records: each record's line, then an
/// empty piece after the final line feed.
proof fn lemma_split_formatted(rs: Seq<MountRecordView>)
    requires
        forall|i: int| 0 <= i < rs.len() ==> storable(#[trigger] rs[i]),
    ensures
        split_at_char(spec_format_records(rs), '\n') == rs.map_values(|r: MountRecordView| line_body(r)).push(
            Seq::empty(),
        ),
    decreases rs.len(),
{
    if rs.len() == 0 {
        assert(rs.map_values(|r: MountRecordView| line_body(r)) =~= Seq::<Seq<char>>::empty());
        assert(seq![Seq::<char>::empty()] =~= Seq::<Seq<char>>::empty().push(Seq::<char>::empty()));
    } else {
        let dl = rs.drop_last();
        let r = rs.last();
        assert forall|i: int| 0 <= i < dl.len() implies storable(#[trigger] dl[i]) by {
            assert(dl[i] == rs[i]);
        }
        lemma_split_formatted(dl);
        let body = line_body(r);
        assert(storable(rs[rs.len() - 1]));
        lemma_body_one_line(r);
        let prev = spec_format_records(dl);
        assert(spec_format_records(rs) =~= (prev + body).push('\n'));
        assert(record_line(r) =~= body + seq!['\n']);
        lemma_split_append(prev, body, '\n');
        lemma_split_sep(prev + body, '\n');
        let bodies = dl.map_values(|r: MountRecordView| line_body(r));
        assert(bodies.push(Seq::<char>::empty()).update(bodies.len() as int, Seq::<char>::empty() + body)
            =~= bodies.push(body));
        assert(rs.map_values(|r: MountRecordView| line_body(r)) =~= bodies.push(body));
    }
}

proof fn lemma_parse_bodies(rs: Seq<MountRecordView>)
    requires
        forall|i: int| 0 <= i < rs.len() ==> storable(#[trigger] rs[i]),
    ensures
        parse_lines(rs.map_values(|r: MountRecordView| strip_cr(line_body(r)))) == rs,
    decreases rs.len(),
{
    if rs.len() > 0 {
        let dl = rs.drop_last();
        assert forall|i: int| 0 <= i < dl.len() implies storable(#[trigger] dl[i]) by {
            assert(dl[i] == rs[i]);
        }
        lemma_parse_bodies(dl);
        let r = rs.last();
        assert(storable(rs[rs.len() - 1]));
        let body = line_body(r);
        assert(strip_cr(body) == body) by {
            if r.archive.len() > 0 {
                assert(body.last() == r.archive.last());
            } else {
                assert(body.last() == '\t');
            }
        }
        lemma_parse_line_body(r);
        let lines = rs.map_values(|r: MountRecordView| strip_cr(line_body(r)));
        assert(lines.drop_last() =~= dl.map_values(|r: MountRecordView| strip_cr(line_body(r))));
        assert(lines.last() == body);
        assert(dl.push(r) =~= rs);
    } else {
        assert(rs.map_values(|r: MountRecordView| strip_cr(line_body(r))) =~= Seq::<Seq<char>>::empty());
        assert(rs =~= Seq::<MountRecordView>::empty());
    }
}

/// Reading the state file gives back the records written to it, as long as
/// each is storable.
pub proof fn records_read_back(rs: Seq<MountRecordView>)
    requires
        forall|i: int| 0 <= i < rs.len() ==> storable(#[trigger] rs[i]),
    ensures
        spec_parse_records(spec_format_records(rs)) == rs,
{
    lemma_split_formatted(rs);
    let segs = split_at_char(spec_format_records(rs), '\n');
    let bodies = rs.map_values(|r: MountRecordView| line_body(r));
    assert(segs.drop_last() =~= bodies);
    assert(bodies.map_values(|l: Seq<char>| strip_cr(l)) =~= rs.map_values(
        |r: MountRecordView| strip_cr(line_body(r)),
    ));
    lemma_parse_bodies(rs);
}

} // verus!
