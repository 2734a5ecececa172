//! The File Explorer context menu: which items there are, which class id
//! stands for each, and what `zipmount.exe` is started with when one is
//! chosen.
//!
//! Every visible menu item is a class of its own: the shell creates an object
//! by the id from the package manifest and only then asks it for a title.
//! The manifest and the handler must agree on the ids: a mismatch breaks no
//! build and logs nothing — the item simply does not appear. So the table the
//! manifest is generated from lives next to the ids themselves.

use vstd::prelude::*;

use crate::text::{chars_of, string_from_chars};

verus! {

/// The item a command object stands for.
#[derive(Debug, Clone, Copy, PartialEq, Eq, Structural)]
pub enum Kind {
    /// Mount on the first free letter and open.
    Mount,
    /// Parent of the letter submenu.
    MountAs,
    /// Mount on a particular letter.
    Letter(char),
    /// Search the archive's contents.
    Search,
    /// Unmount the volume we are inside.
    Unmount,
}

/// One command object; it serves every item and tells them apart by its
/// kind — the items differ only in title and arguments.
#[derive(Debug, Clone, Copy, PartialEq, Eq, Structural)]
pub struct ZipCommand {
    pub kind: Kind,
}

/// An item's title: a message of the text catalogue, or, for a letter of the
/// submenu, the letter itself.
#[derive(Debug, PartialEq, Eq)]
pub enum Title {
    Message(&'static str),
    Text(String),
}

/// The drive letter a path lies on: an ASCII letter followed by a colon.
pub open spec fn spec_drive_letter(path: Seq<char>) -> Option<char> {
    if path.len() >= 2 && crate::mounts::is_ascii_alpha(path[0]) && path[1] == ':' {
        Some(path[0])
    } else {
        None
    }
}

/// The drive letter a path lies on.
pub fn drive_letter(path: &str) -> (res: Option<char>)
    ensures
        res == spec_drive_letter(path@),
{
    let chars = chars_of(path);
    if chars.len() >= 2 && (('a' <= chars[0] && chars[0] <= 'z') || ('A' <= chars[0] && chars[0]
        <= 'Z')) && chars[1] == ':' {
        Some(chars[0])
    } else {
        None
    }
}

/// A drive name like `M:`.
pub open spec fn drive_of(letter: char) -> Seq<char> {
    seq![letter, ':']
}

fn drive_string(letter: char) -> (res: String)
    ensures
        res@ == drive_of(letter),
{
    let mut v: Vec<char> = Vec::new();
    v.push(letter);
    v.push(':');
    assert(v@ =~= drive_of(letter));
    string_from_chars(v.as_slice())
}

/// The arguments `zipmount.exe` is started with for an item chosen on
/// `path`, and whether it needs a console. Search shows its results in a
/// console; mounting reports a failure in a message box. Unmounting takes
/// the whole volume the path lies on; the submenu parent has no action of
/// its own.
pub open spec fn spec_arguments(kind: Kind, path: Seq<char>) -> Option<(Seq<Seq<char>>, bool)> {
    match kind {
        Kind::Mount => Some((seq!["mount"@, path, "--detach"@, "--open"@], false)),
        Kind::Letter(letter) => Some(
            (seq!["mount"@, path, drive_of(letter), "--detach"@, "--open"@], false),
        ),
        Kind::Search => Some((seq!["search"@, path], true)),
        Kind::Unmount => match spec_drive_letter(path) {
            Some(letter) => Some((seq!["unmount"@, drive_of(letter)], false)),
            None => None,
        },
        Kind::MountAs => None,
    }
}

pub open spec fn strings_view(v: Seq<String>) -> Seq<Seq<char>> {
    v.map_values(|s: String| s@)
}

impl ZipCommand {
    pub fn new(kind: Kind) -> (res: Self)
        ensures
            res.kind == kind,
    {
        ZipCommand { kind }
    }

    /// The item's title.
    pub fn title(&self) -> (res: Title)
        ensures
            match self.kind {
                Kind::Mount => res == Title::Message("menu-mount"),
                Kind::MountAs => res == Title::Message("menu-mount-as"),
                Kind::Letter(letter) => res matches Title::Text(t) && t@ == drive_of(letter),
                Kind::Search => res == Title::Message("menu-search"),
                Kind::Unmount => res == Title::Message("menu-unmount"),
            },
    {
        match self.kind {
            Kind::Mount => Title::Message("menu-mount"),
            Kind::MountAs => Title::Message("menu-mount-as"),
            Kind::Letter(letter) => Title::Text(drive_string(letter)),
            Kind::Search => Title::Message("menu-search"),
            Kind::Unmount => Title::Message("menu-unmount"),
        }
    }

    /// Arguments for `zipmount.exe` for the selected object.
    pub fn arguments(&self, path: &str) -> (res: Option<(Vec<String>, bool)>)
        ensures
            match spec_arguments(self.kind, path@) {
                Some((args, console)) => res matches Some((v, c)) && strings_view(v@) == args && c
                    == console,
                None => res is None,
            },
    {
        let mut args: Vec<String> = Vec::new();
        match self.kind {
            Kind::Mount => {
                args.push("mount".to_string());
                args.push(path.to_string());
                args.push("--detach".to_string());
                args.push("--open".to_string());
                assert(strings_view(args@) =~= seq!["mount"@, path@, "--detach"@, "--open"@]);
                Some((args, false))
            },
            Kind::Letter(letter) => {
                args.push("mount".to_string());
                args.push(path.to_string());
                args.push(drive_string(letter));
                args.push("--detach".to_string());
                args.push("--open".to_string());
                assert(strings_view(args@) =~= seq![
                    "mount"@,
                    path@,
                    drive_of(letter),
                    "--detach"@,
                    "--open"@,
                ]);
                Some((args, false))
            },
            Kind::Search => {
                args.push("search".to_string());
                args.push(path.to_string());
                assert(strings_view(args@) =~= seq!["search"@, path@]);
                Some((args, true))
            },
            Kind::Unmount => {
                // The item lives on a folder's background, so the path can be
                // anywhere inside the volume — and the whole volume is what
                // gets unmounted.
                match drive_letter(path) {
                    Some(letter) => {
                        args.push("unmount".to_string());
                        args.push(drive_string(letter));
                        assert(strings_view(args@) =~= seq!["unmount"@, drive_of(letter)]);
                        Some((args, false))
                    },
                    None => None,
                }
            },
            Kind::MountAs => None,
        }
    }
}

/// Classes declared in the package manifest.
pub const CLSID_MOUNT: u128 = 0xf4dea0b3_b14e_4cbf_91f4_3fd0bb248c2c;

pub const CLSID_MOUNT_AS: u128 = 0x131a8c81_e972_4504_8b7b_60b629139398;

pub const CLSID_SEARCH: u128 = 0x657508c5_2bde_45b6_90e3_cac87d4465fa;

pub const CLSID_UNMOUNT: u128 = 0xb4eb55eb_2ef5_4bd4_9fd7_13fb7d12e51b;

/// The command object a class id stands for.
pub open spec fn spec_kind_for(clsid: u128) -> Option<Kind> {
    if clsid == CLSID_MOUNT {
        Some(Kind::Mount)
    } else if clsid == CLSID_MOUNT_AS {
        Some(Kind::MountAs)
    } else if clsid == CLSID_SEARCH {
        Some(Kind::Search)
    } else if clsid == CLSID_UNMOUNT {
        Some(Kind::Unmount)
    } else {
        None
    }
}

/// The command object a class id stands for; `None` for a class not served.
pub fn kind_for(clsid: u128) -> (res: Option<Kind>)
    ensures
        res == spec_kind_for(clsid),
{
    if clsid == CLSID_MOUNT {
        Some(Kind::Mount)
    } else if clsid == CLSID_MOUNT_AS {
        Some(Kind::MountAs)
    } else if clsid == CLSID_SEARCH {
        Some(Kind::Search)
    } else if clsid == CLSID_UNMOUNT {
        Some(Kind::Unmount)
    } else {
        None
    }
}

/// Where a menu item shows.
///
/// The package manifest allows only a few targets: a file extension, `*`,
/// `Directory` and `Directory\Background`. A drive is not among them, so
/// unmounting is declared on a folder — both a selected one and the
/// background of an open one.
#[derive(Debug, Clone, Copy, PartialEq, Eq, Structural)]
pub enum Target {
    /// On files with a supported extension.
    Archive,
    /// On a folder, and on empty space inside an open folder.
    Folder,
}

/// A menu item the way the package manifest expects it.
pub struct Verb {
    /// Verb id; unique within one file type.
    pub id: &'static str,
    /// The class the shell creates when it gets to this item.
    /// Without braces: that is the only form the manifest schema accepts.
    pub clsid: &'static str,
    pub target: Target,
}

/// A verb as the manifest sees it: id, class id, where it appears.
pub open spec fn verb_view(v: Verb) -> (Seq<char>, Seq<char>, Target) {
    (v.id@, v.clsid@, v.target)
}

/// The menu items: mount, mount as, search on archives; unmount on folders.
pub open spec fn verb_table() -> Seq<(Seq<char>, Seq<char>, Target)> {
    seq![
        ("Mount"@, "F4DEA0B3-B14E-4CBF-91F4-3FD0BB248C2C"@, Target::Archive),
        ("MountAs"@, "131A8C81-E972-4504-8B7B-60B629139398"@, Target::Archive),
        ("Search"@, "657508C5-2BDE-45B6-90E3-CAC87D4465FA"@, Target::Archive),
        ("Unmount"@, "B4EB55EB-2EF5-4BD4-9FD7-13FB7D12E51B"@, Target::Folder),
    ]
}

/// The table for the manifest generator.
pub fn verbs() -> (res: Vec<Verb>)
    ensures
        res@.map_values(|v: Verb| verb_view(v)) == verb_table(),
        res@.len() == 4,
        res@[0].id@ == "Mount"@ && res@[0].clsid@ == "F4DEA0B3-B14E-4CBF-91F4-3FD0BB248C2C"@
            && res@[0].target == Target::Archive,
        res@[1].id@ == "MountAs"@ && res@[1].clsid@ == "131A8C81-E972-4504-8B7B-60B629139398"@
            && res@[1].target == Target::Archive,
        res@[2].id@ == "Search"@ && res@[2].clsid@ == "657508C5-2BDE-45B6-90E3-CAC87D4465FA"@
            && res@[2].target == Target::Archive,
        res@[3].id@ == "Unmount"@ && res@[3].clsid@ == "B4EB55EB-2EF5-4BD4-9FD7-13FB7D12E51B"@
            && res@[3].target == Target::Folder,
{
    let mut v: Vec<Verb> = Vec::new();
    v.push(
        Verb { id: "Mount", clsid: "F4DEA0B3-B14E-4CBF-91F4-3FD0BB248C2C", target: Target::Archive },
    );
    v.push(
        Verb {
            id: "MountAs",
            clsid: "131A8C81-E972-4504-8B7B-60B629139398",
            target: Target::Archive,
        },
    );
    v.push(
        Verb { id: "Search", clsid: "657508C5-2BDE-45B6-90E3-CAC87D4465FA", target: Target::Archive },
    );
    v.push(
        Verb { id: "Unmount", clsid: "B4EB55EB-2EF5-4BD4-9FD7-13FB7D12E51B", target: Target::Folder },
    );
    assert(v@.map_values(|v: Verb| verb_view(v)) =~= verb_table());
    v
}

/// `s` without the leading `c`s.
pub open spec fn trim_start_char(s: Seq<char>, c: char) -> Seq<char>
    decreases s.len(),
{
    if s.len() > 0 && s[0] == c {
        trim_start_char(s.drop_first(), c)
    } else {
        s
    }
}

/// `s` without the trailing `c`s.
pub open spec fn trim_end_char(s: Seq<char>, c: char) -> Seq<char>
    decreases s.len(),
{
    if s.len() > 0 && s.last() == c {
        trim_end_char(s.drop_last(), c)
    } else {
        s
    }
}

/// `s` without any `c`.
pub open spec fn without_char(s: Seq<char>, c: char) -> Seq<char>
    decreases s.len(),
{
    if s.len() == 0 {
        s
    } else if s.last() == c {
        without_char(s.drop_last(), c)
    } else {
        without_char(s.drop_last(), c).push(s.last())
    }
}

/// The value of a hexadecimal digit, either case.
pub open spec fn hex_value(c: char) -> Option<nat> {
    if '0' <= c && c <= '9' {
        Some(((c as u32) - 48) as nat)
    } else if 'a' <= c && c <= 'f' {
        Some(((c as u32) - 87) as nat)
    } else if 'A' <= c && c <= 'F' {
        Some(((c as u32) - 55) as nat)
    } else {
        None
    }
}

pub open spec fn all_hex(s: Seq<char>) -> bool {
    forall|i: int| 0 <= i < s.len() ==> (#[trigger] hex_value(s[i])) is Some
}

/// The value of a string of hexadecimal digits.
pub open spec fn hex_number(s: Seq<char>) -> nat
    decreases s.len(),
{
    if s.len() == 0 {
        0
    } else {
        hex_number(s.drop_last()) * 16 + hex_value(s.last())->0
    }
}

/// What `u128::from_str_radix(s, 16)` gives for a string that fits: an
/// optional `+`, then one or more hexadecimal digits.
pub open spec fn spec_from_hex(s: Seq<char>) -> Option<nat> {
    let d = if s.len() > 0 && s[0] == '+' {
        s.skip(1)
    } else {
        s
    };
    if d.len() > 0 && all_hex(d) {
        Some(hex_number(d))
    } else {
        None
    }
}

/// The class id a manifest string stands for: braces around it and dashes
/// in it are ignored, and exactly 32 hexadecimal digits must remain.
pub open spec fn spec_guid(clsid: Seq<char>) -> Option<u128> {
    let digits = without_char(trim_end_char(trim_start_char(clsid, '{'), '}'), '-');
    if digits.len() == 32 {
        match spec_from_hex(digits) {
            Some(v) => Some(v as u128),
            None => None,
        }
    } else {
        None
    }
}

/// Sixteen to the power `n`.
pub open spec fn pow16(n: nat) -> nat
    decreases n,
{
    if n == 0 {
        1
    } else {
        16 * pow16((n - 1) as nat)
    }
}

proof fn lemma_pow16_mono(a: nat, b: nat)
    requires
        a <= b,
    ensures
        pow16(a) <= pow16(b),
    decreases b,
{
    if a < b {
        lemma_pow16_mono(a, (b - 1) as nat);
    }
}

proof fn lemma_pow16_32()
    ensures
        pow16(32) == 0x1_0000_0000_0000_0000_0000_0000_0000_0000,
{
    reveal_with_fuel(pow16, 33);
}

proof fn lemma_hex_number_bound(s: Seq<char>)
    requires
        all_hex(s),
    ensures
        hex_number(s) < pow16(s.len()),
    decreases s.len(),
{
    if s.len() > 0 {
        let p = s.drop_last();
        assert forall|i: int| 0 <= i < p.len() implies (#[trigger] hex_value(p[i])) is Some by {
            assert(p[i] == s[i]);
        }
        lemma_hex_number_bound(p);
        assert(hex_value(s[s.len() - 1]) is Some);
        let n = hex_number(p);
        let q = pow16(p.len());
        assert(n * 16 + 15 < q * 16) by (nonlinear_arith)
            requires
                n < q,
        ;
    }
}

fn hex_digit(c: char) -> (res: Option<u8>)
    ensures
        match hex_value(c) {
            Some(v) => res == Some(v as u8),
            None => res is None,
        },
{
    if '0' <= c && c <= '9' {
        Some(((c as u32) - 48) as u8)
    } else if 'a' <= c && c <= 'f' {
        Some(((c as u32) - 87) as u8)
    } else if 'A' <= c && c <= 'F' {
        Some(((c as u32) - 55) as u8)
    } else {
        None
    }
}

impl Verb {
    /// The same id in a form fit for COM; `None` only if the string is
    /// damaged.
    pub fn guid(&self) -> (res: Option<u128>)
        ensures
            res == spec_guid(self.clsid@),
    {
        let chars = chars_of(self.clsid);
        // Leading braces off.
        let mut lo: usize = 0;
        assert(chars@.skip(0) =~= chars@);
        while lo < chars.len() && chars[lo] == '{'
            invariant
                lo <= chars.len(),
                trim_start_char(chars@, '{') == trim_start_char(chars@.skip(lo as int), '{'),
            decreases chars.len() - lo,
        {
            proof {
                assert(chars@.skip(lo as int).drop_first() =~= chars@.skip(lo + 1));
            }
            lo = lo + 1;
        }
        let ghost s1 = chars@.skip(lo as int);
        assert(trim_start_char(chars@, '{') == s1) by {
            if lo < chars.len() {
                assert(s1[0] == chars@[lo as int]);
            } else {
                assert(s1.len() == 0);
            }
        }
        // Trailing braces off.
        let mut hi: usize = chars.len();
        while hi > lo && chars[hi - 1] == '}'
            invariant
                lo <= hi <= chars.len(),
                s1 == chars@.skip(lo as int),
                trim_end_char(s1, '}') == trim_end_char(chars@.subrange(lo as int, hi as int), '}'),
            decreases hi,
        {
            proof {
                assert(chars@.subrange(lo as int, hi as int).drop_last() =~= chars@.subrange(
                    lo as int,
                    hi - 1,
                ));
            }
            hi = hi - 1;
        }
        let ghost s2 = chars@.subrange(lo as int, hi as int);
        assert(trim_end_char(s1, '}') == s2) by {
            assert(chars@.skip(lo as int) =~= chars@.subrange(lo as int, chars@.len() as int));
        }
        // Dashes out.
        let mut digits: Vec<char> = Vec::new();
        let mut i: usize = lo;
        while i < hi
            invariant
                lo <= i <= hi <= chars.len(),
                s2 == chars@.subrange(lo as int, hi as int),
                digits@ == without_char(chars@.subrange(lo as int, i as int), '-'),
            decreases hi - i,
        {
            proof {
                assert(chars@.subrange(lo as int, i + 1).drop_last() =~= chars@.subrange(lo as int, i as int));
            }
            if chars[i] != '-' {
                digits.push(chars[i]);
            }
            i = i + 1;
        }
        let ghost d = digits@;
        assert(d == without_char(s2, '-'));
        assert(d == without_char(trim_end_char(trim_start_char(self.clsid@, '{'), '}'), '-'));
        if digits.len() != 32 {
            return None;
        }
        // `u128::from_str_radix(.., 16)`: an optional plus sign, then digits.
        let start: usize = if digits[0] == '+' {
            1
        } else {
            0
        };
        let ghost body = if d.len() > 0 && d[0] == '+' {
            d.skip(1)
        } else {
            d
        };
        assert(body =~= d.skip(start as int));
        if start >= digits.len() {
            return None;
        }
        let mut value: u128 = 0;
        let mut k: usize = start;
        while k < 32
            invariant
                digits@.len() == 32,
                d == digits@,
                d == without_char(trim_end_char(trim_start_char(self.clsid@, '{'), '}'), '-'),
                start <= k <= 32,
                start <= 1,
                body == d.skip(start as int),
                body == (if d.len() > 0 && d[0] == '+' {
                    d.skip(1)
                } else {
                    d
                }),
                forall|j: int| start <= j < k ==> (#[trigger] hex_value(d[j])) is Some,
                value == hex_number(d.subrange(start as int, k as int)),
            decreases 32 - k,
        {
            match hex_digit(digits[k]) {
                Some(v) => {
                    proof {
                        let pre = d.subrange(start as int, k as int);
                        assert(d.subrange(start as int, k + 1).drop_last() =~= pre);
                        assert forall|j: int| 0 <= j < pre.len() implies (#[trigger] hex_value(pre[j])) is Some by {
                            assert(pre[j] == d[start + j]);
                        }
                        lemma_hex_number_bound(pre);
                        lemma_pow16_mono(pre.len(), 31);
                        lemma_pow16_32();
                        assert(pow16(32) == 16 * pow16(31));
                        assert(value * 16 + v < 0x1_0000_0000_0000_0000_0000_0000_0000_0000) by (nonlinear_arith)
                            requires
                                value < pow16(31),
                                v < 16,
                                pow16(31) * 16 == 0x1_0000_0000_0000_0000_0000_0000_0000_0000,
                        ;
                    }
                    value = value * 16 + v as u128;
                },
                None => {
                    proof {
                        assert(body[k - start] == d[k as int]);
                    }
                    return None;
                },
            }
            k = k + 1;
        }
        proof {
            assert(d.subrange(start as int, 32) =~= body);
            assert forall|j: int| 0 <= j < body.len() implies (#[trigger] hex_value(body[j])) is Some by {
                assert(body[j] == d[start + j]);
            }
        }
        Some(value)
    }
}

} // verus!
