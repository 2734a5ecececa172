//! Text for Linux and macOS: the kernel's list of mounts, quoting for a
//! shell, a desktop entry and a property list, and the folder name an
//! archive gets.

use vstd::prelude::*;

use vstd::string::StringSliceAdditionalSpecFns;

use crate::mounts::{split_at_char, strip_cr, text_lines};
use crate::text::{chars_of, lossy_text, string_from_chars, utf8_lossy};

verus! {

// ---------------------------------------------------------------------------
// /proc/self/mountinfo
// ---------------------------------------------------------------------------

/// Whether a byte is an octal digit.
pub open spec fn is_octal(b: u8) -> bool {
    48 <= b <= 55
}

/// A field with the kernel's escapes undone: a backslash and three octal
/// digits stand for the byte they spell (the kernel writes a space as `\040`,
/// a tab as `\011`, a newline as `\012` and a backslash as `\134`); the value
/// is taken modulo 256, as 8-bit arithmetic gives it.
pub open spec fn unescape_bytes(b: Seq<u8>) -> Seq<u8>
    decreases b.len(),
{
    if b.len() == 0 {
        Seq::empty()
    } else if b[0] == 92 && b.len() >= 4 && is_octal(b[1]) && is_octal(b[2]) && is_octal(b[3]) {
        seq![(((b[1] - 48) * 64 + (b[2] - 48) * 8 + (b[3] - 48)) % 256) as u8] + unescape_bytes(
            b.skip(4),
        )
    } else {
        seq![b[0]] + unescape_bytes(b.skip(1))
    }
}

/// A field of /proc/self/mountinfo with the escapes undone.
pub open spec fn unescaped(field: Seq<char>) -> Seq<char> {
    lossy_text(unescape_bytes(vstd::utf8::encode_utf8(field)))
}

/// Undoes the kernel's escapes in a field of /proc/self/mountinfo; the bytes
/// are then read as UTF-8, invalid sequences replaced.
pub fn unescape(field: &str) -> (res: String)
    ensures
        res@ == unescaped(field@),
{
    let bytes = field.as_bytes();
    let mut out: Vec<u8> = Vec::new();
    let mut i: usize = 0;
    assert(bytes@.skip(0) =~= bytes@);
    assert(Seq::<u8>::empty() + unescape_bytes(bytes@) =~= unescape_bytes(bytes@));
    while i < bytes.len()
        invariant
            bytes@ == field.spec_bytes(),
            i <= bytes.len(),
            out@ + unescape_bytes(bytes@.skip(i as int)) == unescape_bytes(bytes@),
        decreases bytes.len() - i,
    {
        let ghost rest = bytes@.skip(i as int);
        if bytes[i] == 92 && bytes.len() - i >= 4 && bytes[i + 1] >= 48 && bytes[i + 1] <= 55
            && bytes[i + 2] >= 48 && bytes[i + 2] <= 55 && bytes[i + 3] >= 48 && bytes[i + 3] <= 55 {
            let v32: u32 = ((bytes[i + 1] - 48) as u32) * 64 + ((bytes[i + 2] - 48) as u32) * 8 + ((
            bytes[i + 3] - 48) as u32);
            let v = (v32 % 256) as u8;
            proof {
                assert(rest[0] == bytes[i as int]);
                assert(rest[1] == bytes[i + 1]);
                assert(rest[2] == bytes[i + 2]);
                assert(rest[3] == bytes[i + 3]);
                assert(rest.skip(4) =~= bytes@.skip(i + 4));
            }
            out.push(v);
            proof {
                assert(out@ + unescape_bytes(bytes@.skip(i + 4)) =~= (out@.drop_last() + seq![v])
                    + unescape_bytes(bytes@.skip(i + 4)));
            }
            i = i + 4;
        } else {
            let b = bytes[i];
            proof {
                assert(rest[0] == b);
                assert(rest.skip(1) =~= bytes@.skip(i + 1));
                if rest.len() >= 4 {
                    assert(rest[1] == bytes[i + 1]);
                    assert(rest[2] == bytes[i + 2]);
                    assert(rest[3] == bytes[i + 3]);
                }
            }
            out.push(b);
            proof {
                assert(out@ + unescape_bytes(bytes@.skip(i + 1)) =~= (out@.drop_last() + seq![b])
                    + unescape_bytes(bytes@.skip(i + 1)));
            }
            i = i + 1;
        }
    }
    proof {
        assert(bytes@.skip(i as int) =~= Seq::<u8>::empty());
        assert(out@ + Seq::<u8>::empty() =~= out@);
    }
    utf8_lossy(out.as_slice())
}

/// The filesystem type our mounts show in /proc/self/mountinfo: "fuse." and
/// the subtype the FUSE mount sets.
pub open spec fn our_fstype() -> Seq<char> {
    "fuse.zipmount"@
}

/// A mount of ours: the directory, and the archive mounted there.
#[derive(Debug)]
pub struct MountedArchive {
    pub mountpoint: String,
    pub archive: String,
}

/// Whether ` - ` stands at index `i` of a line.
pub open spec fn dash_sep_at(line: Seq<char>, i: int) -> bool {
    0 <= i && i + 3 <= line.len() && line.subrange(i, i + 3) == " - "@
}

/// Where the first ` - ` of a line starts.
pub open spec fn first_dash_sep(line: Seq<char>) -> Option<int> {
    if exists|i: int| #[trigger] dash_sep_at(line, i) {
        Some(
            choose|i: int|
                #[trigger] dash_sep_at(line, i) && forall|j: int| 0 <= j < i ==> !#[trigger] dash_sep_at(line, j),
        )
    } else {
        None
    }
}

/// The mount point and source of a line of ours, still escaped: the mount
/// point is the fifth field; after the ` - ` separator come the filesystem
/// type and the source.
#[verifier::opaque]
pub open spec fn mount_fields(line: Seq<char>) -> Option<(Seq<char>, Seq<char>)> {
    match first_dash_sep(line) {
        None => None,
        Some(i) => {
            let left = split_at_char(line.take(i), ' ');
            let right = split_at_char(line.skip(i + 3), ' ');
            if left.len() < 5 || right[0] != our_fstype() || right.len() < 2 {
                None
            } else {
                Some((left[4], right[1]))
            }
        },
    }
}

/// The mounts of ours the lines list, in order.
pub open spec fn mounts_of_lines(lines: Seq<Seq<char>>) -> Seq<(Seq<char>, Seq<char>)>
    decreases lines.len(),
{
    if lines.len() == 0 {
        Seq::empty()
    } else {
        match mount_fields(lines.last()) {
            Some((m, s)) => mounts_of_lines(lines.drop_last()).push((unescaped(m), unescaped(s))),
            None => mounts_of_lines(lines.drop_last()),
        }
    }
}

pub open spec fn mounted_views(v: Seq<MountedArchive>) -> Seq<(Seq<char>, Seq<char>)> {
    v.map_values(|m: MountedArchive| (m.mountpoint@, m.archive@))
}

/// Splits at spaces.
fn split_spaces(s: &[char]) -> (res: Vec<Vec<char>>)
    ensures
        res@.map_values(|v: Vec<char>| v@) == split_at_char(s@, ' '),
{
    let mut parts: Vec<Vec<char>> = Vec::new();
    let mut cur: Vec<char> = Vec::new();
    for i in 0..s.len()
        invariant
            parts@.map_values(|v: Vec<char>| v@).push(cur@) == split_at_char(s@.take(i as int), ' '),
    {
        let c = s[i];
        let ghost prev = s@.take(i as int);
        proof {
            crate::mounts::lemma_split_len(prev, ' ');
            assert(s@.take(i + 1).drop_last() =~= prev);
            assert(s@.take(i + 1).last() == c);
        }
        let ghost before = parts@.map_values(|v: Vec<char>| v@);
        if c == ' ' {
            let done = cur;
            parts.push(done);
            cur = Vec::new();
            proof {
                assert(parts@.map_values(|v: Vec<char>| v@) =~= before.push(done@));
                assert(parts@.map_values(|v: Vec<char>| v@).push(cur@) =~= before.push(done@).push(
                    Seq::empty(),
                ));
            }
        } else {
            cur.push(c);
            proof {
                let p = split_at_char(prev, ' ');
                assert(before.push(cur@) =~= p.update(p.len() - 1, p.last().push(c)));
            }
        }
    }
    proof {
        assert(s@.take(s@.len() as int) =~= s@);
    }
    let ghost before = parts@.map_values(|v: Vec<char>| v@);
    parts.push(cur);
    proof {
        assert(parts@.map_values(|v: Vec<char>| v@) =~= before.push(parts@[parts@.len() - 1]@));
    }
    parts
}

/// The mount of ours a line describes, if it does.
fn parse_mount_line(line: &Vec<char>) -> (res: Option<MountedArchive>)
    ensures
        match mount_fields(line@) {
            Some((m, s)) => res matches Some(r) && r.mountpoint@ == unescaped(m) && r.archive@
                == unescaped(s),
            None => res is None,
        },
{
    reveal(mount_fields);
    let n = line.len();
    let mut i: usize = 0;
    let mut found: Option<usize> = None;
    proof {
        reveal_strlit(" - ");
    }
    while found.is_none() && n >= 3 && i <= n - 3
        invariant
            n == line@.len(),
            found is None ==> forall|j: int| 0 <= j < i ==> !#[trigger] dash_sep_at(line@, j),
            found matches Some(k) ==> dash_sep_at(line@, k as int) && forall|j: int|
                0 <= j < k ==> !#[trigger] dash_sep_at(line@, j),
            " - "@ == seq![' ', '-', ' '],
        decreases n - i, (if found is None { 1int } else { 0int }),
    {
        if line[i] == ' ' && line[i + 1] == '-' && line[i + 2] == ' ' {
            assert(line@.subrange(i as int, i + 3) =~= " - "@);
            found = Some(i);
        } else {
            proof {
                if dash_sep_at(line@, i as int) {
                    assert(line@.subrange(i as int, i + 3)[0] == ' ');
                    assert(line@.subrange(i as int, i + 3)[1] == '-');
                    assert(line@.subrange(i as int, i + 3)[2] == ' ');
                }
            }
            i = i + 1;
        }
    }
    let k = match found {
        Some(k) => k,
        None => {
            proof {
                assert forall|j: int| !#[trigger] dash_sep_at(line@, j) by {
                    if dash_sep_at(line@, j) {
                        assert(j < i);
                    }
                }
            }
            return None;
        },
    };
    proof {
        assert(dash_sep_at(line@, k as int));
        let w = choose|j: int|
            #[trigger] dash_sep_at(line@, j) && forall|jj: int| 0 <= jj < j ==> !#[trigger] dash_sep_at(line@, jj);
        if w < k {
            assert(!dash_sep_at(line@, w));
        } else if w > k {
            assert(!dash_sep_at(line@, k as int));
        }
        assert(first_dash_sep(line@) == Some(k as int));
    }
    let left = split_spaces(&line.as_slice()[0..k]);
    let right = split_spaces(&line.as_slice()[k + 3..n]);
    proof {
        assert(line@.subrange(0, k as int) =~= line@.take(k as int));
        assert(line@.subrange(k + 3, n as int) =~= line@.skip(k + 3));
        crate::mounts::lemma_split_len(line@.skip(k + 3), ' ');
        crate::mounts::lemma_split_len(line@.take(k as int), ' ');
        assert(left@.map_values(|v: Vec<char>| v@).len() == left@.len());
    }
    if left.len() < 5 {
        return None;
    }
    let fstype = chars_of("fuse.zipmount");
    proof {
        assert(right@.map_values(|v: Vec<char>| v@)[0] == right@[0]@);
    }
    if !crate::names::chars_eq(&right[0], &fstype) || right.len() < 2 {
        return None;
    }
    proof {
        assert(right@.map_values(|v: Vec<char>| v@)[1] == right@[1]@);
        assert(left@.map_values(|v: Vec<char>| v@)[4] == left@[4]@);
    }
    let mountpoint = string_from_chars(left[4].as_slice());
    let source = string_from_chars(right[1].as_slice());
    Some(MountedArchive { mountpoint: unescape(mountpoint.as_str()), archive: unescape(source.as_str()) })
}

/// What is mounted, straight from the kernel's /proc/self/mountinfo: our
/// mounts only, with their paths unescaped.
pub fn parse_mountinfo(text: &str) -> (res: Vec<MountedArchive>)
    ensures
        mounted_views(res@) == mounts_of_lines(text_lines(text@)),
{
    let chars = chars_of(text);
    let mut out: Vec<MountedArchive> = Vec::new();
    let mut cur: Vec<char> = Vec::new();
    for i in 0..chars.len()
        invariant
            chars@ == text@,
            split_at_char(text@.take(i as int), '\n').last() == cur@,
            mounted_views(out@) == mounts_of_lines(
                split_at_char(text@.take(i as int), '\n').drop_last().map_values(|l: Seq<char>| strip_cr(l)),
            ),
    {
        let c = chars[i];
        let ghost prev = text@.take(i as int);
        proof {
            crate::mounts::lemma_split_len(prev, '\n');
            assert(text@.take(i + 1).drop_last() =~= prev);
            assert(text@.take(i + 1).last() == c);
        }
        if c == '\n' {
            let ghost segs = split_at_char(prev, '\n');
            let ghost before = out@;
            if cur.len() > 0 && cur[cur.len() - 1] == '\r' {
                cur.pop();
            }
            proof {
                assert(cur@ == strip_cr(segs.last()));
            }
            let ghost line = cur@;
            if let Some(r) = parse_mount_line(&cur) {
                out.push(r);
                proof {
                    assert(mounted_views(out@) =~= mounted_views(before).push((r.mountpoint@, r.archive@)));
                }
            }
            cur = Vec::new();
            proof {
                let segs2 = split_at_char(text@.take(i + 1), '\n');
                assert(segs2 == segs.push(Seq::empty()));
                assert(segs2.drop_last() =~= segs);
                let old_lines = segs.drop_last().map_values(|l: Seq<char>| strip_cr(l));
                let new_lines = segs.map_values(|l: Seq<char>| strip_cr(l));
                assert(new_lines =~= old_lines.push(line));
                assert(new_lines.drop_last() =~= old_lines);
                assert(new_lines.last() == line);
            }
        } else {
            cur.push(c);
            proof {
                let segs = split_at_char(prev, '\n');
                let segs2 = segs.update(segs.len() - 1, segs.last().push(c));
                assert(split_at_char(text@.take(i + 1), '\n') == segs2);
                assert(segs2.drop_last() =~= segs.drop_last());
            }
        }
    }
    proof {
        assert(text@.take(text@.len() as int) =~= text@);
        crate::mounts::lemma_split_len(text@, '\n');
    }
    if cur.len() > 0 {
        let ghost before = out@;
        if let Some(r) = parse_mount_line(&cur) {
            out.push(r);
            proof {
                assert(mounted_views(out@) =~= mounted_views(before).push((r.mountpoint@, r.archive@)));
            }
        }
        proof {
            let segs = split_at_char(text@, '\n');
            let full = segs.drop_last().map_values(|l: Seq<char>| strip_cr(l));
            assert(full.push(segs.last()).drop_last() =~= full);
            assert(full.push(segs.last()).last() == segs.last());
        }
    }
    out
}

// ---------------------------------------------------------------------------
// Quoting
// ---------------------------------------------------------------------------

/// What a character becomes inside single quotes: a single quote is closed,
/// escaped and reopened.
pub open spec fn sh_piece(c: char) -> Seq<char> {
    if c == '\'' {
        seq!['\'', '\\', '\'', '\'']
    } else {
        seq![c]
    }
}

/// The characters of a string, each mapped to its piece, concatenated.
pub open spec fn sh_body(s: Seq<char>) -> Seq<char>
    decreases s.len(),
{
    if s.len() == 0 {
        Seq::empty()
    } else {
        sh_body(s.drop_last()) + sh_piece(s.last())
    }
}

/// A path quoted for a POSIX shell: in single quotes, with any single quote
/// written as `'\''`.
pub open spec fn spec_shell_quote(path: Seq<char>) -> Seq<char> {
    seq!['\''] + sh_body(path) + seq!['\'']
}

fn push_all(out: &mut Vec<char>, piece: &[char])
    ensures
        final(out)@ == old(out)@ + piece@,
{
    let ghost before = out@;
    for i in 0..piece.len()
        invariant
            out@ == before + piece@.take(i as int),
    {
        out.push(piece[i]);
        proof {
            assert(before + piece@.take(i + 1) =~= (before + piece@.take(i as int)).push(piece@[i as int]));
        }
    }
    proof {
        assert(piece@.take(piece@.len() as int) =~= piece@);
    }
}

/// A path quoted for a POSIX shell.
pub fn shell_quote(path: &str) -> (res: String)
    ensures
        res@ == spec_shell_quote(path@),
{
    let chars = chars_of(path);
    let mut out: Vec<char> = Vec::new();
    out.push('\'');
    for i in 0..chars.len()
        invariant
            chars@ == path@,
            out@ == seq!['\''] + sh_body(path@.take(i as int)),
    {
        let c = chars[i];
        let ghost before = out@;
        proof {
            assert(path@.take(i + 1).drop_last() =~= path@.take(i as int));
            assert(path@.take(i + 1).last() == c);
        }
        if c == '\'' {
            out.push('\'');
            out.push('\\');
            out.push('\'');
            out.push('\'');
        } else {
            out.push(c);
        }
        assert(out@ =~= before + sh_piece(c));
    }
    proof {
        assert(path@.take(path@.len() as int) =~= path@);
    }
    out.push('\'');
    string_from_chars(out.as_slice())
}

/// Where a shell reading a word stands: the word so far, whether inside
/// single quotes, whether the next character is escaped by a backslash, and
/// whether the word has ended at an unquoted blank.
pub struct ShState {
    pub word: Seq<char>,
    pub quoted: bool,
    pub escaped: bool,
    pub done: bool,
}

/// One character read by the shell: inside single quotes everything is
/// literal up to the closing quote; outside them a backslash makes the next
/// character literal, a single quote opens quoting, and a blank ends the
/// word.
pub open spec fn sh_step(st: ShState, c: char) -> ShState {
    if st.done {
        st
    } else if st.quoted {
        if c == '\'' {
            ShState { quoted: false, ..st }
        } else {
            ShState { word: st.word.push(c), ..st }
        }
    } else if st.escaped {
        ShState { word: st.word.push(c), escaped: false, ..st }
    } else if c == '\\' {
        ShState { escaped: true, ..st }
    } else if c == '\'' {
        ShState { quoted: true, ..st }
    } else if c == ' ' || c == '\t' || c == '\n' {
        ShState { done: true, ..st }
    } else {
        ShState { word: st.word.push(c), ..st }
    }
}

/// The shell's state after `s`.
pub open spec fn sh_run(st: ShState, s: Seq<char>) -> ShState
    decreases s.len(),
{
    if s.len() == 0 {
        st
    } else {
        sh_step(sh_run(st, s.drop_last()), s.last())
    }
}

pub open spec fn sh_start() -> ShState {
    ShState { word: Seq::empty(), quoted: false, escaped: false, done: false }
}

proof fn lemma_sh_concat(st: ShState, x: Seq<char>, y: Seq<char>)
    ensures
        sh_run(st, x + y) == sh_run(sh_run(st, x), y),
    decreases y.len(),
{
    if y.len() == 0 {
        assert(x + y =~= x);
    } else {
        assert((x + y).drop_last() =~= x + y.drop_last());
        assert((x + y).last() == y.last());
        lemma_sh_concat(st, x, y.drop_last());
    }
}

proof fn lemma_sh_one(st: ShState, c: char)
    ensures
        sh_run(st, seq![c]) == sh_step(st, c),
{
    assert(seq![c].drop_last() =~= Seq::<char>::empty());
    assert(seq![c].last() == c);
    assert(sh_run(st, Seq::<char>::empty()) == st);
}

proof fn lemma_sh_body(path: Seq<char>)
    ensures
        sh_run(ShState { word: Seq::empty(), quoted: true, escaped: false, done: false }, sh_body(path))
            == (ShState { word: path, quoted: true, escaped: false, done: false }),
    decreases path.len(),
{
    let st0 = ShState { word: Seq::<char>::empty(), quoted: true, escaped: false, done: false };
    if path.len() == 0 {
        assert(path =~= Seq::<char>::empty());
    } else {
        let p = path.drop_last();
        let c = path.last();
        lemma_sh_body(p);
        lemma_sh_concat(st0, sh_body(p), sh_piece(c));
        let st = ShState { word: p, quoted: true, escaped: false, done: false };
        assert(path =~= p.push(c));
        if c == '\'' {
            let piece = seq!['\'', '\\', '\'', '\''];
            assert(piece =~= seq!['\''] + seq!['\\'] + seq!['\''] + seq!['\'']);
            lemma_sh_concat(st, seq!['\''] + seq!['\\'] + seq!['\''], seq!['\'']);
            lemma_sh_concat(st, seq!['\''] + seq!['\\'], seq!['\'']);
            lemma_sh_concat(st, seq!['\''], seq!['\\']);
            lemma_sh_one(st, '\'');
            let s1 = sh_step(st, '\'');
            lemma_sh_one(s1, '\\');
            let s2 = sh_step(s1, '\\');
            lemma_sh_one(s2, '\'');
            let s3 = sh_step(s2, '\'');
            lemma_sh_one(s3, '\'');
        } else {
            lemma_sh_one(st, c);
        }
    }
}

/// The shell reads the quoted path back as exactly the path, in one word
/// that uses up the whole quoted text.
pub proof fn shell_quote_reads_back(path: Seq<char>)
    ensures
        sh_run(sh_start(), spec_shell_quote(path)) == (ShState {
            word: path,
            quoted: false,
            escaped: false,
            done: false,
        }),
{
    let st0 = sh_start();
    lemma_sh_concat(st0, seq!['\''] + sh_body(path), seq!['\'']);
    lemma_sh_concat(st0, seq!['\''], sh_body(path));
    lemma_sh_one(st0, '\'');
    lemma_sh_body(path);
    lemma_sh_one(ShState { word: path, quoted: true, escaped: false, done: false }, '\'');
}

/// What a character becomes inside the double quotes of a desktop entry's
/// `Exec=`: `"`, `` ` ``, `$` and `\` are escaped with a backslash.
pub open spec fn desktop_piece(c: char) -> Seq<char> {
    if c == '"' || c == '`' || c == '$' || c == '\\' {
        seq!['\\', c]
    } else {
        seq![c]
    }
}

pub open spec fn desktop_body(s: Seq<char>) -> Seq<char>
    decreases s.len(),
{
    if s.len() == 0 {
        Seq::empty()
    } else {
        desktop_body(s.drop_last()) + desktop_piece(s.last())
    }
}

/// `Exec=` arguments are quoted by the desktop entry rules: double quotes,
/// with `"`, `` ` ``, `$` and `\` escaped.
pub fn desktop_quote(path: &str) -> (res: String)
    ensures
        res@ == seq!['"'] + desktop_body(path@) + seq!['"'],
{
    let chars = chars_of(path);
    let mut out: Vec<char> = Vec::new();
    out.push('"');
    for i in 0..chars.len()
        invariant
            chars@ == path@,
            out@ == seq!['"'] + desktop_body(path@.take(i as int)),
    {
        let c = chars[i];
        let ghost before = out@;
        proof {
            assert(path@.take(i + 1).drop_last() =~= path@.take(i as int));
            assert(path@.take(i + 1).last() == c);
        }
        if c == '"' || c == '`' || c == '$' || c == '\\' {
            out.push('\\');
        }
        out.push(c);
        assert(out@ =~= before + desktop_piece(c));
    }
    proof {
        assert(path@.take(path@.len() as int) =~= path@);
    }
    out.push('"');
    string_from_chars(out.as_slice())
}

/// What a character becomes in XML text: `&`, `<`, `>` and `"` as entities.
pub open spec fn xml_piece(c: char) -> Seq<char> {
    if c == '&' {
        "&amp;"@
    } else if c == '<' {
        "&lt;"@
    } else if c == '>' {
        "&gt;"@
    } else if c == '"' {
        "&quot;"@
    } else {
        seq![c]
    }
}

pub open spec fn xml_body(s: Seq<char>) -> Seq<char>
    decreases s.len(),
{
    if s.len() == 0 {
        Seq::empty()
    } else {
        xml_body(s.drop_last()) + xml_piece(s.last())
    }
}

/// Text escaped for a property list.
pub fn xml_escape(text: &str) -> (res: String)
    ensures
        res@ == xml_body(text@),
{
    let chars = chars_of(text);
    let amp = chars_of("&amp;");
    let lt = chars_of("&lt;");
    let gt = chars_of("&gt;");
    let quot = chars_of("&quot;");
    let mut out: Vec<char> = Vec::new();
    for i in 0..chars.len()
        invariant
            chars@ == text@,
            amp@ == "&amp;"@,
            lt@ == "&lt;"@,
            gt@ == "&gt;"@,
            quot@ == "&quot;"@,
            out@ == xml_body(text@.take(i as int)),
    {
        let c = chars[i];
        proof {
            assert(text@.take(i + 1).drop_last() =~= text@.take(i as int));
            assert(text@.take(i + 1).last() == c);
        }
        if c == '&' {
            push_all(&mut out, amp.as_slice());
        } else if c == '<' {
            push_all(&mut out, lt.as_slice());
        } else if c == '>' {
            push_all(&mut out, gt.as_slice());
        } else if c == '"' {
            push_all(&mut out, quot.as_slice());
        } else {
            let ghost before = out@;
            out.push(c);
            assert(out@ =~= before + xml_piece(c));
        }
    }
    proof {
        assert(text@.take(text@.len() as int) =~= text@);
    }
    string_from_chars(out.as_slice())
}

// ---------------------------------------------------------------------------
// Folder names
// ---------------------------------------------------------------------------

/// The extensions an archive's folder name loses, longest first where one
/// ends another.
pub open spec fn stem_extensions() -> Seq<Seq<char>> {
    seq![".tar.gz"@, ".tgz"@, ".zip"@, ".7z"@, ".tar"@, ".gz"@, ".rar"@]
}

/// Whether `name` ends with `ext`, ignoring ASCII case, and is longer.
pub open spec fn strips(name: Seq<char>, ext: Seq<char>) -> bool {
    name.len() > ext.len() && name.skip(name.len() - ext.len()).map_values(
        |c: char| crate::sanitize::ascii_lower(c),
    ) == ext
}

/// The name with the first of the extensions from the `k`-th on that it
/// ends with taken off; the name itself where none fits.
pub open spec fn stem_from(n: Seq<char>, k: nat) -> Seq<char>
    decreases 7 - k,
{
    if k >= 7 {
        n
    } else if strips(n, stem_extensions()[k as int]) {
        n.take(n.len() - stem_extensions()[k as int].len())
    } else {
        stem_from(n, k + 1)
    }
}

fn strips_exec(name: &Vec<char>, ext: &str) -> (res: bool)
    ensures
        res == strips(name@, ext@),
{
    let e = chars_of(ext);
    if name.len() <= e.len() {
        return false;
    }
    let off = name.len() - e.len();
    let ghost tail = name@.skip(off as int).map_values(|c: char| crate::sanitize::ascii_lower(c));
    for j in 0..e.len()
        invariant
            e@ == ext@,
            off + e@.len() == name@.len(),
            tail == name@.skip(off as int).map_values(|c: char| crate::sanitize::ascii_lower(c)),
            forall|k: int| 0 <= k < j ==> tail[k] == e@[k],
    {
        assert(j < e@.len());
        assert(off + j < name@.len());
        assert(name@.len() == name.len());
        let c = name[off + j];
        let low = if 'A' <= c && c <= 'Z' {
            ((c as u32) + 32) as u8 as char
        } else {
            c
        };
        assert(low == tail[j as int]) by {
            if 'A' <= c && c <= 'Z' {
                assert(((c as u32) + 32) as u8 as char == ((c as u32) + 32) as char);
            }
        }
        if low != e[j] {
            return false;
        }
    }
    assert(tail =~= e@);
    true
}

/// "logs.tar.gz" → "logs": the name a person would give the folder.
pub fn archive_stem(name: Option<&str>) -> (res: String)
    ensures
        match name {
            Some(n) => res@ == stem_from(n@, 0),
            None => res@ == "archive"@,
        },
{
    match name {
        Some(n) => stem_of(n),
        None => "archive".to_string(),
    }
}

fn stem_of(file: &str) -> (res: String)
    ensures
        res@ == stem_from(file@, 0),
{
    let chars = chars_of(file);
    let exts: [&str; 7] = [".tar.gz", ".tgz", ".zip", ".7z", ".tar", ".gz", ".rar"];
    let ghost n = file@;
    for k in 0..7
        invariant
            n == file@,
            chars@ == n,
            exts@ == seq![".tar.gz", ".tgz", ".zip", ".7z", ".tar", ".gz", ".rar"],
            stem_from(n, 0) == stem_from(n, k as nat),
    {
        let ext = exts[k];
        proof {
            reveal_strlit(".tar.gz");
            reveal_strlit(".tgz");
            reveal_strlit(".zip");
            reveal_strlit(".7z");
            reveal_strlit(".tar");
            reveal_strlit(".gz");
            reveal_strlit(".rar");
        }
        assert(ext@ == stem_extensions()[k as int]);
        if strips_exec(&chars, ext) {
            let e = chars_of(ext);
            let cut = chars.len() - e.len();
            let mut out: Vec<char> = Vec::new();
            for i in 0..cut
                invariant
                    chars@ == n,
                    cut <= chars@.len(),
                    out@ == n.take(i as int),
            {
                out.push(chars[i]);
                proof {
                    assert(n.take(i + 1) =~= n.take(i as int).push(n[i as int]));
                }
            }
            assert(stem_from(n, k as nat) == n.take(n.len() - stem_extensions()[k as int].len()));
            return string_from_chars(out.as_slice());
        }
    }
    string_from_chars(chars.as_slice())
}

} // verus!
