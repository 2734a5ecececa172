use std::path::Path;

use zipmount::posix::{archive_stem, desktop_quote, parse_mountinfo, shell_quote, unescape, xml_escape};

fn stem(path: &str) -> String {
    archive_stem(Path::new(path).file_name().and_then(|n| n.to_str()))
}

#[test]
fn mountinfo_lists_only_our_mounts_and_unescapes_paths() {
    let text = "\
22 1 8:1 / / rw,relatime shared:1 - ext4 /dev/sda1 rw
36 25 0:32 / /home/u/ZipMount/my\\040logs ro,nosuid,nodev,noatime - fuse.zipmount /data/my\\040logs.7z ro,user_id=1000
37 25 0:33 / /mnt/other ro - fuse.sshfs host:/ ro
";
    let mounts = parse_mountinfo(text);
    assert_eq!(mounts.len(), 1);
    assert_eq!(Path::new(&mounts[0].mountpoint), Path::new("/home/u/ZipMount/my logs"));
    assert_eq!(Path::new(&mounts[0].archive), Path::new("/data/my logs.7z"));
}

#[test]
fn unescape_handles_every_kernel_escape() {
    assert_eq!(unescape("a\\040b\\011c\\012d\\134e"), "a b\tc\nd\\e");
    assert_eq!(unescape("plain"), "plain");
    assert_eq!(unescape("trailing\\04"), "trailing\\04");
}

#[test]
fn shell_quoting_survives_quotes_and_spaces() {
    assert_eq!(shell_quote("/a b/zip"), "'/a b/zip'");
    assert_eq!(shell_quote("/it's/zip"), r"'/it'\''s/zip'");
}

#[test]
fn stems_drop_archive_extensions() {
    assert_eq!(stem("/data/logs.tar.gz"), "logs");
    assert_eq!(stem("/data/Photos.ZIP"), "Photos");
    assert_eq!(stem("/data/a.b.7z"), "a.b");
    assert_eq!(stem("/data/.zip"), ".zip");
    assert_eq!(stem("/data/notes"), "notes");
}

#[test]
fn a_path_without_a_file_name_mounts_as_archive() {
    assert_eq!(archive_stem(None), "archive");
    assert_eq!(stem("/"), "archive");
}

#[test]
fn only_the_first_fitting_extension_goes() {
    assert_eq!(stem("x.tgz"), "x");
    assert_eq!(stem("backup.TAR"), "backup");
    assert_eq!(stem("a.gz.rar"), "a.gz");
    assert_eq!(stem("zip"), "zip");
}

#[test]
fn unescape_keeps_what_is_not_an_escape() {
    assert_eq!(unescape("\\9999"), "\\9999");
    assert_eq!(unescape("a\\"), "a\\");
    assert_eq!(unescape("\\101"), "A");
}

#[test]
fn a_short_or_foreign_line_is_skipped() {
    assert!(parse_mountinfo("").is_empty());
    assert!(parse_mountinfo("1 2 3\n").is_empty());
    assert!(parse_mountinfo("36 25 0:32 / /m ro - fuse.zipmount\n").is_empty());
}

#[test]
fn desktop_entries_escape_their_four_specials() {
    assert_eq!(desktop_quote("/opt/zip mount/zipmount"), "\"/opt/zip mount/zipmount\"");
    assert_eq!(desktop_quote("a\"b`c$d\\e"), "\"a\\\"b\\`c\\$d\\\\e\"");
}

#[test]
fn xml_text_escapes_markup() {
    assert_eq!(xml_escape("a & <b> \"c\""), "a &amp; &lt;b&gt; &quot;c&quot;");
    assert_eq!(xml_escape("plain"), "plain");
}
