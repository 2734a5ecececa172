use zipmount::shell::verbs;
use zipmount::winmenu::{extensions, fingerprint, manifest, LETTERS_KEY};

#[test]
fn covers_every_supported_format() {
    // The extension list must cover every readable format, or the item
    // simply will not appear where it is needed.
    for needed in [".zip", ".7z", ".tar", ".gz"] {
        assert!(
            extensions().contains(&needed),
            "extension {needed} has no menu items"
        );
    }
    // And the reverse: an item on a format the build cannot read is worse
    // than no item. This build reads no rar.
    assert!(!extensions().contains(&".rar"));
}

#[test]
fn letters_key_is_relative_to_classes() {
    assert!(LETTERS_KEY.starts_with("Software\\Classes\\"));
    assert_eq!(
        LETTERS_KEY.trim_start_matches("Software\\Classes\\"),
        "ZipMount.Letters"
    );
}

#[test]
fn manifest_declares_every_verb_for_every_extension() {
    let xml = manifest("zipmount_shell_test.dll");
    for extension in extensions() {
        assert!(
            xml.contains(&format!("Type=\"{extension}\"")),
            "extension {extension} is missing from the manifest"
        );
    }
    for verb in verbs() {
        assert!(
            xml.contains(&format!("Id=\"{}\"", verb.id)),
            "verb {} is missing from the manifest",
            verb.id
        );
        assert!(
            xml.contains(verb.clsid),
            "class {} is missing from the manifest",
            verb.clsid
        );
    }
}

#[test]
fn manifest_points_at_the_versioned_library() {
    let xml = manifest("zipmount_shell_deadbeef.dll");
    assert!(xml.contains("Path=\"zipmount_shell_deadbeef.dll\""));
    assert!(!xml.contains("Path=\"zipmount_shell.dll\""));
}

#[test]
fn unmount_lives_on_both_kinds_of_folder() {
    let xml = manifest("x.dll");
    for target in ["Type=\"Directory\">", "Type=\"Directory\\Background\">"] {
        let section = xml.split(target).nth(1).expect("folder section");
        let section = section.split("</desktop5:ItemType>").next().unwrap_or("");
        assert!(
            section.contains("Id=\"Unmount\""),
            "unmount is not declared for {target}"
        );
    }
}

#[test]
fn fingerprint_separates_different_builds() {
    assert_ne!(fingerprint(b"one"), fingerprint(b"two"));
    assert_eq!(fingerprint(b"same"), fingerprint(b"same"));
    assert_eq!(fingerprint(b"any").len(), 16);
}

#[test]
fn fingerprint_is_fnv1a_in_hex() {
    // The FNV-1a offset basis for nothing at all, and the published value
    // for "a".
    assert_eq!(fingerprint(b""), "cbf29ce484222325");
    assert_eq!(fingerprint(b"a"), "af63dc4c8601ec8c");
}

#[test]
fn archives_get_three_items_and_folders_one() {
    let xml = manifest("h.dll");
    assert_eq!(xml.matches("<com:Class Id=").count(), 4);
    assert_eq!(xml.matches("<desktop5:ItemType Type=").count(), 7);
    assert_eq!(xml.matches("Id=\"MountAs\"").count(), 5);
    assert_eq!(xml.matches("Id=\"Unmount\"").count(), 2);
    assert!(xml.starts_with("<?xml version=\"1.0\" encoding=\"utf-8\"?>"));
    assert!(xml.ends_with("</Package>\n"));
}
