use zipmount::entry::EntryMeta;
use zipmount::tree::{Tree, ROOT};

fn meta(path: &str, is_dir: bool, size: u64) -> EntryMeta {
    EntryMeta {
        path: path.to_string(),
        is_dir,
        size,
        mtime: 0,
    }
}

fn tree_of(paths: &[&str]) -> Tree {
    let entries: Vec<EntryMeta> = paths.iter().map(|p| meta(p, false, 10)).collect();
    Tree::build(&entries)
}

#[test]
fn synthesizes_missing_parent_directories() {
    // Not a single directory entry — just a deep file.
    let t = tree_of(&["a/b/c/d.txt"]);
    assert!(t.resolve("a").is_some());
    assert!(t.resolve("a\\b\\c").is_some());
    let file = t.resolve("a/b/c/d.txt").expect("the file must be found");
    assert!(!t.node(file).is_dir);
    assert_eq!(t.node(file).size, 10);
}

#[test]
fn lookup_is_case_insensitive_including_cyrillic() {
    let t = tree_of(&["Документы/Отчёт.TXT"]);
    assert!(t.resolve("документы/отчёт.txt").is_some());
    assert!(t.resolve("ДОКУМЕНТЫ/ОТЧЁТ.txt").is_some());
}

#[test]
fn duplicate_names_are_disambiguated_not_lost() {
    // Two different files differing only in case: on Windows that is one
    // name, so the second one must get a name of its own.
    let t = tree_of(&["dir/File.txt", "dir/file.txt"]);
    let dir = t.resolve("dir").unwrap();
    assert_eq!(t.node(dir).children.len(), 2, "no entry may get lost");
    assert!(t.resolve("dir/file~1.txt").is_some());
}

#[test]
fn zip_slip_paths_stay_inside_root() {
    let t = tree_of(&["../../windows/system32/evil.dll"]);
    assert!(t.resolve("windows/system32/evil.dll").is_some());
    // No way out: `..` was dropped while parsing the path.
    assert_eq!(t.node(ROOT).children.len(), 1);
    assert_eq!(t.node(t.node(ROOT).children[0]).name, "windows");
}

#[test]
fn directory_entries_are_directories() {
    let t = Tree::build(&[meta("docs/", true, 0)]);
    let docs = t.resolve("docs").expect("the directory must exist");
    assert!(t.node(docs).is_dir);
}

#[test]
fn backslash_separator_is_understood() {
    // 7z stores paths with backslashes.
    let t = tree_of(&["dir\\sub\\file.txt"]);
    assert!(t.resolve("dir/sub/file.txt").is_some());
}

#[test]
fn children_are_sorted_for_binary_search() {
    let t = tree_of(&["d/zebra.txt", "d/alpha.txt", "d/Middle.txt"]);
    let dir = t.resolve("d").unwrap();
    let names: Vec<&str> = t
        .node(dir)
        .children
        .iter()
        .map(|c| t.node(*c).name.as_str())
        .collect();
    assert_eq!(names, vec!["alpha.txt", "Middle.txt", "zebra.txt"]);
    // Sort order and lookup must agree.
    assert!(t.lookup_child(dir, "MIDDLE.TXT").is_some());
}

#[test]
fn path_of_round_trips_through_resolve() {
    let t = tree_of(&["a/b/c.txt"]);
    let id = t.resolve("a/b/c.txt").unwrap();
    assert_eq!(t.path_of(id), "a\\b\\c.txt");
    assert_eq!(t.resolve(&t.path_of(id)), Some(id));
}

#[test]
fn stats_count_files_and_directories() {
    let t = tree_of(&["a/b/c.txt", "a/d.txt", "e.txt"]);
    let s = t.stats();
    assert_eq!(s.files, 3);
    assert_eq!(s.dirs, 2); // a and a/b
    assert_eq!(s.total_uncompressed, 30);
}

#[test]
fn resolve_root_returns_root() {
    let t = tree_of(&["a.txt"]);
    assert_eq!(t.resolve("\\"), Some(ROOT));
    assert_eq!(t.resolve(""), Some(ROOT));
}

#[test]
fn file_ids_lists_only_files() {
    let t = tree_of(&["a/b/c.txt", "a/d.txt"]);
    assert_eq!(t.file_ids().len(), 2);
}

#[test]
fn is_under_recognises_subtree_membership() {
    let t = tree_of(&["a/b/c.txt", "a/d.txt", "e/f.txt"]);
    let a = t.resolve("a").unwrap();
    let e = t.resolve("e").unwrap();
    let deep = t.resolve("a/b/c.txt").unwrap();

    assert!(t.is_under(deep, a));
    assert!(!t.is_under(deep, e));
    // The root contains everything.
    assert!(t.is_under(deep, ROOT));
    // A node lies inside itself.
    assert!(t.is_under(a, a));
}

#[test]
fn file_ids_under_limits_to_subtree() {
    let t = tree_of(&["a/b/c.txt", "a/d.txt", "e/f.txt"]);
    let a = t.resolve("a").unwrap();
    assert_eq!(t.file_ids_under(a).len(), 2);
    assert_eq!(t.file_ids_under(ROOT).len(), 3);
}

#[test]
fn node_of_entry_finds_the_file_node() {
    let t = tree_of(&["a/b.txt", "c.txt"]);
    let id = t.node_of_entry(1).expect("the second entry must be found");
    assert_eq!(t.node(id).name, "c.txt");
}

#[test]
fn entry_node_map_inverts_node_entries() {
    let t = tree_of(&["a/b.txt", "c.txt", "a/b.txt"]);
    let map = t.entry_node_map(4);
    assert_eq!(map.len(), 4);
    assert_eq!(t.node(map[1].unwrap()).name, "c.txt");
    assert_eq!(t.node(map[0].unwrap()).name, "b.txt");
    assert_eq!(t.node(map[2].unwrap()).name, "b~1.txt");
    assert_eq!(map[3], None);
    assert_eq!(t.node_of_entry(7), None);
}

#[test]
fn walk_visits_every_node_once() {
    let t = tree_of(&["a/b/c.txt", "a/d.txt", "e.txt"]);
    let mut all = t.walk();
    assert_eq!(all.len(), t.node_count());
    all.sort();
    all.dedup();
    assert_eq!(all.len(), t.node_count());
    let a = t.resolve("a").unwrap();
    assert_eq!(t.walk_from(a).len(), 4); // a, a/b, a/b/c.txt, a/d.txt
}

#[test]
fn a_file_in_the_way_gets_a_directory_of_its_own() {
    let t = tree_of(&["x", "x/y.txt"]);
    let root = t.node(ROOT);
    assert_eq!(root.children.len(), 2);
    assert!(t.resolve("x~1/y.txt").is_some());
    assert!(!t.node(t.resolve("x").unwrap()).is_dir);
}

#[test]
fn dotdot_in_a_lookup_path_is_just_a_name() {
    let t = tree_of(&["a/b.txt"]);
    assert_eq!(t.resolve("a/../a/b.txt"), None);
    assert!(t.resolve("./a/./b.txt").is_some());
}

#[test]
fn a_path_through_a_file_finds_nothing() {
    let t = tree_of(&["a.txt"]);
    assert_eq!(t.resolve("a.txt/more"), None);
}

#[test]
fn files_land_at_their_paths_and_clashes_get_names_of_their_own() {
    let t = tree_of(&["a/b/c.txt", "A/B/C.TXT", "d.txt"]);
    let first = t.node_of_entry(0).unwrap();
    let second = t.node_of_entry(1).unwrap();
    assert_eq!(t.path_of(first), "a\\b\\c.txt");
    assert_eq!(t.path_of(second), "a\\b\\C~1.TXT");
    assert_eq!(t.node(first).parent, t.node(second).parent);
    let walk = t.walk_from(t.resolve("a").unwrap());
    assert_eq!(walk[0], t.resolve("a").unwrap());
    assert_eq!(t.walk()[0], ROOT);
}

#[test]
fn no_two_nodes_share_a_path_ignoring_case() {
    let t = tree_of(&["a/b/c.txt", "A/d.txt", "a/B/e.txt", "x", "x/y.txt", "X/z.txt"]);
    let paths: Vec<String> = (0..t.node_count() as u32).map(|id| t.path_of(id).to_lowercase()).collect();
    for i in 0..paths.len() {
        for j in (i + 1)..paths.len() {
            assert_ne!(paths[i], paths[j]);
        }
    }
    // a, a/b, and the two directories made beside the file x.
    assert_eq!(t.stats().dirs, 4);
    assert!(t.resolve("x~1/y.txt").is_some());
    assert!(t.resolve("x~2/z.txt").is_some());
}

#[test]
fn every_file_entry_has_exactly_one_node() {
    let entries = vec![
        meta("a/b.txt", false, 1),
        meta("A/B.TXT", false, 2),
        meta("a", true, 0),
        meta("c/", true, 0),
        meta("c/d.txt", false, 3),
    ];
    let t = Tree::build(&entries);
    assert!(t.node(ROOT).is_dir);
    for e in [0u32, 1, 4] {
        let holders = (0..t.node_count() as u32)
            .filter(|&id| !t.node(id).is_dir && t.node(id).entry == Some(e))
            .count();
        assert_eq!(holders, 1);
    }
    for id in 0..t.node_count() as u32 {
        for &c in &t.node(id).children {
            assert_eq!(t.node(c).parent, id);
        }
    }
}

#[test]
fn a_directory_is_spelled_by_the_first_entry_that_leads_there() {
    let t = tree_of(&["Logs/x.txt", "logs/y.txt", "LOGS/Z.txt"]);
    let y = t.node_of_entry(1).unwrap();
    assert_eq!(t.path_of(y), "Logs\\y.txt");
    assert_eq!(t.stats().dirs, 1);

    let entries = vec![meta("Docs/", true, 0), meta("docs/a.txt", false, 1)];
    let t = Tree::build(&entries);
    let a = t.node_of_entry(1).unwrap();
    assert_eq!(t.path_of(a), "Docs\\a.txt");
}

#[test]
fn directory_entries_keep_the_first_spelling() {
    let entries = vec![meta("Music/", true, 0), meta("MUSIC/", true, 0), meta("music/old/", true, 0)];
    let t = Tree::build(&entries);
    assert_eq!(t.stats().dirs, 2);
    let old = t.resolve("music/OLD").expect("the directory entry has its node");
    assert!(t.node(old).is_dir);
    assert_eq!(t.path_of(old), "Music\\old");
}
