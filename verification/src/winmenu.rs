//! The Windows context menu, as data: the file types that get items, the
//! registry keys, and the manifest of the package that puts the items into
//! the main menu of Windows 11.

use vstd::prelude::*;

use crate::shell::{verb_table, verb_view, verbs, Target, Verb};
use crate::text::{chars_of, string_from_chars};

verus! {

/// Extensions that get menu items: every format the program reads (no rar in
/// this build).
pub open spec fn extension_table() -> Seq<Seq<char>> {
    seq![".zip"@, ".7z"@, ".tar"@, ".gz"@, ".tgz"@]
}

/// Extensions served by the menu items.
pub fn extensions() -> (res: Vec<&'static str>)
    ensures
        res@.map_values(|e: &str| e@) == extension_table(),
{
    let v: Vec<&'static str> = vec![".zip", ".7z", ".tar", ".gz", ".tgz"];
    assert(v@.map_values(|e: &str| e@) =~= extension_table());
    v
}

/// The key with the letter submenu. It sits next to the ProgIDs, as
/// `ExtendedSubCommandsKey` requires.
pub const LETTERS_KEY: &'static str = "Software\\Classes\\ZipMount.Letters";

/// The unmount item on a drive. The installer writes the same key to
/// `HKEY_LOCAL_MACHINE`.
pub const DRIVE_VERB_KEY: &'static str = "Software\\Classes\\Drive\\shell\\ZipMount.Unmount";

/// The package name and the certificate subject; they must match `Publisher`
/// in the manifest, or deployment rejects the signature.
pub const PACKAGE_NAME: &'static str = "ZipMount";

pub const PUBLISHER: &'static str = "CN=ZipMount";

// ---------------------------------------------------------------------------
// Fingerprints
// ---------------------------------------------------------------------------

/// The 64-bit FNV-1a hash of `bytes`.
pub open spec fn fnv1a(bytes: Seq<u8>) -> u64
    decreases bytes.len(),
{
    if bytes.len() == 0 {
        0xcbf2_9ce4_8422_2325
    } else {
        (fnv1a(bytes.drop_last()) ^ (bytes.last() as u64)).wrapping_mul(0x0000_0100_0000_01b3)
    }
}

/// A lower-case hexadecimal digit.
pub open spec fn hex_digit(d: u64) -> char {
    if d < 10 {
        ((d + 48) as u8) as char
    } else {
        ((d + 87) as u8) as char
    }
}

/// The `n` lowest hexadecimal digits of `v`, lowest first.
pub open spec fn hex_rev(v: u64, n: nat) -> Seq<char>
    decreases n,
{
    if n == 0 {
        Seq::empty()
    } else {
        seq![hex_digit(v % 16)] + hex_rev(v / 16, (n - 1) as nat)
    }
}

/// `v` as sixteen lower-case hexadecimal digits, highest first.
pub open spec fn hex16(v: u64) -> Seq<char> {
    hex_rev(v, 16).reverse()
}

fn hex_char(d: u64) -> (c: char)
    requires
        d < 16,
    ensures
        c == hex_digit(d),
{
    if d < 10 {
        ((d + 48) as u8) as char
    } else {
        ((d + 87) as u8) as char
    }
}

/// A short fingerprint of contents — only to tell library builds apart: the
/// FNV-1a hash, as sixteen hexadecimal digits.
pub fn fingerprint(bytes: &[u8]) -> (res: String)
    ensures
        res@ == hex16(fnv1a(bytes@)),
{
    let mut hash: u64 = 0xcbf2_9ce4_8422_2325;
    let mut i: usize = 0;
    while i < bytes.len()
        invariant
            i <= bytes@.len(),
            hash == fnv1a(bytes@.take(i as int)),
        decreases bytes.len() - i,
    {
        proof {
            assert(bytes@.take(i + 1).drop_last() =~= bytes@.take(i as int));
        }
        hash = (hash ^ (bytes[i] as u64)).wrapping_mul(0x0000_0100_0000_01b3);
        i = i + 1;
    }
    assert(bytes@.take(i as int) =~= bytes@);
    let ghost h = hash;
    let mut rev: Vec<char> = Vec::new();
    let mut v: u64 = hash;
    let mut k: usize = 0;
    while k < 16
        invariant
            k <= 16,
            rev@.len() == k,
            rev@ + hex_rev(v, (16 - k) as nat) == hex_rev(h, 16),
        decreases 16 - k,
    {
        let c = hex_char(v % 16);
        proof {
            assert(hex_rev(v, (16 - k) as nat) == seq![c] + hex_rev(v / 16, (16 - k - 1) as nat));
            assert(rev@.push(c) + hex_rev(v / 16, (16 - k - 1) as nat) =~= rev@ + hex_rev(
                v,
                (16 - k) as nat,
            ));
        }
        rev.push(c);
        v = v / 16;
        k = k + 1;
    }
    assert(rev@ =~= hex_rev(h, 16));
    let mut out: Vec<char> = Vec::new();
    let mut j: usize = 0;
    while j < 16
        invariant
            j <= 16,
            rev@ == hex_rev(h, 16),
            rev@.len() == 16,
            out@.len() == j,
            forall|t: int| 0 <= t < j ==> out@[t] == rev@[15 - t],
        decreases 16 - j,
    {
        out.push(rev[15 - j]);
        j = j + 1;
    }
    assert(out@ =~= hex16(h));
    string_from_chars(out.as_slice())
}

// ---------------------------------------------------------------------------
// The package manifest
// ---------------------------------------------------------------------------

/// The manifest up to the class list.
pub const HEAD: &'static str = "<?xml version=\"1.0\" encoding=\"utf-8\"?>\n<Package\n  xmlns=\"http://schemas.microsoft.com/appx/manifest/foundation/windows10\"\n  xmlns:uap=\"http://schemas.microsoft.com/appx/manifest/uap/windows10\"\n  xmlns:uap10=\"http://schemas.microsoft.com/appx/manifest/uap/windows10/10\"\n  xmlns:rescap=\"http://schemas.microsoft.com/appx/manifest/foundation/windows10/restrictedcapabilities\"\n  xmlns:com=\"http://schemas.microsoft.com/appx/manifest/com/windows10\"\n  xmlns:desktop4=\"http://schemas.microsoft.com/appx/manifest/desktop/windows10/4\"\n  xmlns:desktop5=\"http://schemas.microsoft.com/appx/manifest/desktop/windows10/5\"\n  xmlns:desktop6=\"http://schemas.microsoft.com/appx/manifest/desktop/windows10/6\"\n  IgnorableNamespaces=\"uap uap10 rescap com desktop4 desktop5 desktop6\">\n\n  <Identity Name=\"ZipMount\" Publisher=\"CN=ZipMount\" Version=\"1.0.0.0\" ProcessorArchitecture=\"x64\" />\n\n  <Properties>\n    <DisplayName>ZipMount</DisplayName>\n    <PublisherDisplayName>ZipMount</PublisherDisplayName>\n    <Logo>Assets\\StoreLogo.png</Logo>\n    <uap10:AllowExternalContent>true</uap10:AllowExternalContent>\n    <!-- The package is only a way to get identity for the menu. Everything\n         else must behave like an ordinary program, so write redirection to\n         the registry and files is off: otherwise the mount state written by a\n         process under the package would land in the package's private storage\n         and never be found from the command line. -->\n    <desktop6:RegistryWriteVirtualization>disabled</desktop6:RegistryWriteVirtualization>\n    <desktop6:FileSystemWriteVirtualization>disabled</desktop6:FileSystemWriteVirtualization>\n  </Properties>\n\n  <Dependencies>\n    <TargetDeviceFamily Name=\"Windows.Desktop\" MinVersion=\"10.0.19041.0\" MaxVersionTested=\"10.0.26100.0\" />\n  </Dependencies>\n\n  <!-- Menu texts are not package resources: the handler produces them at run\n       time, in the language chosen with `zipmount language`. -->\n  <Resources>\n    <Resource Language=\"en-US\" />\n  </Resources>\n\n  <Capabilities>\n    <rescap:Capability Name=\"runFullTrust\" />\n    <rescap:Capability Name=\"unvirtualizedResources\" />\n  </Capabilities>\n\n  <Applications>\n    <Application Id=\"ZipMount\" Executable=\"zipmount.exe\" EntryPoint=\"Windows.FullTrustApplication\" uap10:TrustLevel=\"mediumIL\">\n      <uap:VisualElements\n        DisplayName=\"ZipMount\"\n        Description=\"Mounts archives as Windows drives\"\n        BackgroundColor=\"transparent\"\n        Square150x150Logo=\"Assets\\Square150x150Logo.png\"\n        Square44x44Logo=\"Assets\\Square44x44Logo.png\"\n        AppListEntry=\"none\" />\n      <Extensions>\n        <com:Extension Category=\"windows.comServer\">\n          <com:ComServer>\n            <com:SurrogateServer DisplayName=\"ZipMount\">\n";

/// The manifest between the class list and the item types.
pub const MID: &'static str = "            </com:SurrogateServer>\n          </com:ComServer>\n        </com:Extension>\n        <desktop4:Extension Category=\"windows.fileExplorerContextMenus\">\n          <desktop4:FileExplorerContextMenus>\n";

/// The manifest after the item types.
pub const TAIL: &'static str = "          </desktop4:FileExplorerContextMenus>\n        </desktop4:Extension>\n      </Extensions>\n    </Application>\n  </Applications>\n</Package>\n";

/// A `com:Class` line: the class, served by the library `dll`.
pub open spec fn class_line(v: (Seq<char>, Seq<char>, Target), dll: Seq<char>) -> Seq<char> {
    "              <com:Class Id=\""@ + v.1 + "\" Path=\""@ + dll + "\" ThreadingModel=\"STA\" />\n"@
}

pub open spec fn class_lines(vs: Seq<(Seq<char>, Seq<char>, Target)>, dll: Seq<char>) -> Seq<char>
    decreases vs.len(),
{
    if vs.len() == 0 {
        Seq::empty()
    } else {
        class_lines(vs.drop_last(), dll) + class_line(vs.last(), dll)
    }
}

/// A `desktop5:Verb` line.
pub open spec fn verb_line(v: (Seq<char>, Seq<char>, Target)) -> Seq<char> {
    "              <desktop5:Verb Id=\""@ + v.0 + "\" Clsid=\""@ + v.1 + "\" />\n"@
}

/// The verb lines of the verbs that appear on `target`.
pub open spec fn verb_lines(vs: Seq<(Seq<char>, Seq<char>, Target)>, target: Target) -> Seq<char>
    decreases vs.len(),
{
    if vs.len() == 0 {
        Seq::empty()
    } else {
        verb_lines(vs.drop_last(), target) + if vs.last().2 == target {
            verb_line(vs.last())
        } else {
            Seq::empty()
        }
    }
}

/// An item type: the verbs offered on `ty`.
pub open spec fn item_type(ty: Seq<char>, lines: Seq<char>) -> Seq<char> {
    "            <desktop5:ItemType Type=\""@ + ty + "\">\n"@ + lines
        + "            </desktop5:ItemType>\n"@
}

pub open spec fn item_types(tys: Seq<Seq<char>>, lines: Seq<char>) -> Seq<char>
    decreases tys.len(),
{
    if tys.len() == 0 {
        Seq::empty()
    } else {
        item_types(tys.drop_last(), lines) + item_type(tys.last(), lines)
    }
}

/// The manifest for the handler library `dll` and the verbs `vs`: the
/// archive verbs on every extension, the folder verbs on a folder and on the
/// background of an open one.
pub open spec fn manifest_text(dll: Seq<char>, vs: Seq<(Seq<char>, Seq<char>, Target)>) -> Seq<
    char,
> {
    HEAD@ + class_lines(vs, dll) + MID@ + item_types(
        extension_table(),
        verb_lines(vs, Target::Archive),
    ) + item_types(seq!["Directory"@, "Directory\\Background"@], verb_lines(vs, Target::Folder))
        + TAIL@
}

fn push_str(out: &mut Vec<char>, s: &str)
    ensures
        final(out)@ == old(out)@ + s@,
{
    let chars = chars_of(s);
    let mut i: usize = 0;
    while i < chars.len()
        invariant
            i <= chars@.len(),
            chars@ == s@,
            out@ == old(out)@ + chars@.take(i as int),
        decreases chars.len() - i,
    {
        out.push(chars[i]);
        i = i + 1;
        assert(out@ =~= old(out)@ + chars@.take(i as int));
    }
    assert(chars@.take(i as int) =~= chars@);
}

fn verb_text(vs: &Vec<Verb>, target: Target) -> (res: Vec<char>)
    ensures
        res@ == verb_lines(vs@.map_values(|v: Verb| verb_view(v)), target),
{
    let ghost view = vs@.map_values(|v: Verb| verb_view(v));
    let mut out: Vec<char> = Vec::new();
    let mut k: usize = 0;
    while k < vs.len()
        invariant
            k <= vs@.len(),
            view == vs@.map_values(|v: Verb| verb_view(v)),
            out@ == verb_lines(view.take(k as int), target),
        decreases vs.len() - k,
    {
        proof {
            assert(view.take(k + 1).drop_last() =~= view.take(k as int));
            assert(view.take(k + 1).last() == verb_view(vs@[k as int]));
        }
        if vs[k].target == target {
            push_str(&mut out, "              <desktop5:Verb Id=\"");
            push_str(&mut out, vs[k].id);
            push_str(&mut out, "\" Clsid=\"");
            push_str(&mut out, vs[k].clsid);
            push_str(&mut out, "\" />\n");
            assert(out@ =~= verb_lines(view.take(k + 1), target));
        } else {
            assert(out@ =~= verb_lines(view.take(k + 1), target));
        }
        k = k + 1;
    }
    assert(view.take(k as int) =~= view);
    out
}

fn push_item_type(out: &mut Vec<char>, ty: &str, lines: &Vec<char>)
    ensures
        final(out)@ == old(out)@ + item_type(ty@, lines@),
{
    push_str(out, "            <desktop5:ItemType Type=\"");
    push_str(out, ty);
    push_str(out, "\">\n");
    let mut i: usize = 0;
    let ghost before = out@;
    while i < lines.len()
        invariant
            i <= lines@.len(),
            out@ == before + lines@.take(i as int),
        decreases lines.len() - i,
    {
        out.push(lines[i]);
        i = i + 1;
        assert(out@ =~= before + lines@.take(i as int));
    }
    assert(lines@.take(i as int) =~= lines@);
    push_str(out, "            </desktop5:ItemType>\n");
    assert(out@ =~= old(out)@ + item_type(ty@, lines@));
}

/// The package manifest for the handler library `dll`, built from the same
/// extension list as the registry items and from the verb table next to the
/// handler, so that the two cannot drift apart.
pub fn manifest(dll: &str) -> (res: String)
    ensures
        res@ == manifest_text(dll@, verb_table()),
{
    let vs = verbs();
    let ghost view = vs@.map_values(|v: Verb| verb_view(v));
    let mut out: Vec<char> = Vec::new();
    push_str(&mut out, HEAD);
    let mut k: usize = 0;
    while k < vs.len()
        invariant
            k <= vs@.len(),
            view == vs@.map_values(|v: Verb| verb_view(v)),
            out@ == HEAD@ + class_lines(view.take(k as int), dll@),
        decreases vs.len() - k,
    {
        proof {
            assert(view.take(k + 1).drop_last() =~= view.take(k as int));
            assert(view.take(k + 1).last() == verb_view(vs@[k as int]));
        }
        push_str(&mut out, "              <com:Class Id=\"");
        push_str(&mut out, vs[k].clsid);
        push_str(&mut out, "\" Path=\"");
        push_str(&mut out, dll);
        push_str(&mut out, "\" ThreadingModel=\"STA\" />\n");
        assert(out@ =~= HEAD@ + class_lines(view.take(k + 1), dll@));
        k = k + 1;
    }
    assert(view.take(k as int) =~= view);
    push_str(&mut out, MID);
    let archive_lines = verb_text(&vs, Target::Archive);
    let folder_lines = verb_text(&vs, Target::Folder);
    let exts = extensions();
    let ghost ev = exts@.map_values(|e: &str| e@);
    let ghost mark = out@;
    let mut k: usize = 0;
    while k < exts.len()
        invariant
            k <= exts@.len(),
            ev == exts@.map_values(|e: &str| e@),
            out@ == mark + item_types(ev.take(k as int), archive_lines@),
        decreases exts.len() - k,
    {
        proof {
            assert(ev.take(k + 1).drop_last() =~= ev.take(k as int));
        }
        push_item_type(&mut out, exts[k], &archive_lines);
        assert(out@ =~= mark + item_types(ev.take(k + 1), archive_lines@));
        k = k + 1;
    }
    assert(ev.take(k as int) =~= ev);
    let ghost mark2 = out@;
    push_item_type(&mut out, "Directory", &folder_lines);
    push_item_type(&mut out, "Directory\\Background", &folder_lines);
    proof {
        let dirs = seq!["Directory"@, "Directory\\Background"@];
        assert(dirs.drop_last().drop_last() =~= Seq::<Seq<char>>::empty());
        assert(dirs.drop_last() =~= seq!["Directory"@]);
        assert(item_types(dirs.drop_last().drop_last(), folder_lines@) =~= Seq::<char>::empty());
        assert(item_types(dirs.drop_last(), folder_lines@) =~= item_type("Directory"@, folder_lines@));
        assert(item_types(dirs, folder_lines@) =~= item_type("Directory"@, folder_lines@)
            + item_type("Directory\\Background"@, folder_lines@));
    }
    push_str(&mut out, TAIL);
    assert(out@ =~= manifest_text(dll@, view));
    string_from_chars(out.as_slice())
}

} // verus!
