use zipmount::i18n::language_at;
use zipmount::messages::message_in;
use zipmount::shell::{
    drive_letter, kind_for, verbs, Kind, Target, Title, Verb, ZipCommand, CLSID_MOUNT,
    CLSID_MOUNT_AS, CLSID_SEARCH, CLSID_UNMOUNT,
};

#[test]
fn unmount_takes_the_volume_not_the_folder() {
    // The item is invoked from anywhere inside the volume, and the whole
    // volume is what must be unmounted.
    let command = ZipCommand::new(Kind::Unmount);
    let (args, _) = command.arguments("Z:\\logs\\2026\\09").expect("arguments");
    assert_eq!(args, vec!["unmount".to_string(), "Z:".to_string()]);
}

#[test]
fn letter_command_passes_the_chosen_letter() {
    let command = ZipCommand::new(Kind::Letter('M'));
    let (args, console) = command.arguments("C:\\logs\\a.7z").expect("arguments");
    assert_eq!(args[2], "M:");
    assert!(!console, "mounting needs no console");
}

#[test]
fn search_asks_for_a_console() {
    let command = ZipCommand::new(Kind::Search);
    let (_, console) = command.arguments("C:\\logs\\a.7z").expect("arguments");
    assert!(console, "search shows its results in a console");
}

#[test]
fn submenu_parent_has_no_action_of_its_own() {
    assert!(ZipCommand::new(Kind::MountAs)
        .arguments("C:\\logs\\a.zip")
        .is_none());
}

#[test]
fn mount_arguments_detach_and_open() {
    let (args, console) = ZipCommand::new(Kind::Mount)
        .arguments("C:\\a.zip")
        .expect("arguments");
    assert_eq!(args, vec!["mount", "C:\\a.zip", "--detach", "--open"]);
    assert!(!console);
}

#[test]
fn unmount_outside_a_drive_has_no_arguments() {
    assert!(ZipCommand::new(Kind::Unmount)
        .arguments("\\\\server\\share")
        .is_none());
    assert_eq!(drive_letter("q:"), Some('q'));
    assert_eq!(drive_letter("1:"), None);
    assert_eq!(drive_letter(""), None);
}

#[test]
fn titles_name_messages_or_letters() {
    assert_eq!(ZipCommand::new(Kind::Mount).title(), Title::Message("menu-mount"));
    assert_eq!(ZipCommand::new(Kind::Unmount).title(), Title::Message("menu-unmount"));
    assert_eq!(
        ZipCommand::new(Kind::Letter('K')).title(),
        Title::Text("K:".to_string())
    );
}

#[test]
fn every_class_id_maps_to_a_command() {
    // Should the manifest declare a class missing from this table, the
    // shell gets CLASS_E_CLASSNOTAVAILABLE and the item silently never
    // appears. Let a test catch that.
    for clsid in [CLSID_MOUNT, CLSID_MOUNT_AS, CLSID_SEARCH, CLSID_UNMOUNT] {
        assert!(kind_for(clsid).is_some());
    }
}

#[test]
fn class_ids_are_distinct() {
    let all = [CLSID_MOUNT, CLSID_MOUNT_AS, CLSID_SEARCH, CLSID_UNMOUNT];
    for (i, a) in all.iter().enumerate() {
        for b in all.iter().skip(i + 1) {
            assert_ne!(a, b, "two items share one class id");
        }
    }
}

#[test]
fn unknown_class_is_rejected() {
    assert!(kind_for(0).is_none());
}

#[test]
fn manifest_class_ids_match_the_real_classes() {
    // The main check: the string in the manifest and the constant
    // DllGetClassObject hands out objects by must match.
    for verb in verbs() {
        let clsid = verb.guid().expect("the class id parses");
        assert!(
            kind_for(clsid).is_some(),
            "the class of item {} is not served",
            verb.id
        );
    }
}

#[test]
fn every_class_appears_in_the_manifest_table() {
    // And the reverse: a class we can create but did not declare in the
    // manifest will never be asked for by the shell.
    for clsid in [CLSID_MOUNT, CLSID_MOUNT_AS, CLSID_SEARCH, CLSID_UNMOUNT] {
        assert!(
            verbs().iter().any(|verb| verb.guid() == Some(clsid)),
            "class {clsid:x} is missing from the manifest table"
        );
    }
}

#[test]
fn manifest_form_has_no_braces() {
    // The manifest schema accepts GUIDs without braces and rejects the
    // whole package if they are there.
    for verb in verbs() {
        assert!(
            !verb.clsid.contains('{') && !verb.clsid.contains('}'),
            "braces left in the class id of {}",
            verb.id
        );
    }
}

#[test]
fn guid_accepts_braces_and_either_case_and_rejects_damage() {
    let v = |clsid: &'static str| Verb { id: "X", clsid, target: Target::Archive };
    assert_eq!(v("{f4dea0b3-b14e-4cbf-91f4-3fd0bb248c2c}").guid(), Some(CLSID_MOUNT));
    assert_eq!(v("F4DEA0B3B14E4CBF91F43FD0BB248C2C").guid(), Some(CLSID_MOUNT));
    assert_eq!(v("F4DEA0B3-B14E-4CBF-91F4-3FD0BB248C2").guid(), None);
    assert_eq!(v("G4DEA0B3-B14E-4CBF-91F4-3FD0BB248C2C").guid(), None);
    assert_eq!(v("").guid(), None);
}

/// The menu entries of the English catalogue, as a resource of its own.
fn menu_catalogue() -> Vec<String> {
    vec!["menu-mount = Mount\nmenu-mount-as = Mount as\nmenu-search = Search in archive\nmenu-unmount = Unmount\n"
        .to_string()]
}

#[test]
fn titles_are_translated_not_ids() {
    let catalogue = menu_catalogue();
    for kind in [Kind::Mount, Kind::MountAs, Kind::Search, Kind::Unmount] {
        let title = match ZipCommand::new(kind).title() {
            Title::Message(id) => message_in(&catalogue, language_at(0), id, &vec![]),
            Title::Text(text) => text,
        };
        assert!(!title.starts_with("menu-"), "untranslated title {title}");
    }
}
