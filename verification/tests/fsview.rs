use std::time::{Duration, SystemTime, UNIX_EPOCH};

use zipmount::entry::EntryMeta;
use zipmount::fsview::{
    dir_listing, fuse_lookup, inode_of, nfs_dir_page, nfs_lookup, nfs_time, node_attr, node_of,
    reaches_end, read_len, system_time, volume_blocks, win_file_info, NfsError, UnixTime,
    FALLBACK_SECS, FALLBACK_TIME, FILETIME_TO_UNIX_SECS,
};
use zipmount::tree::{Tree, ROOT};

fn as_system(t: UnixTime) -> SystemTime {
    UNIX_EPOCH + Duration::new(t.secs, t.nanos)
}

fn tree() -> Tree {
    let entries: Vec<EntryMeta> = ["docs/b.txt", "docs/A.txt", "readme.md"]
        .iter()
        .map(|p| EntryMeta {
            path: p.to_string(),
            is_dir: false,
            size: 1000,
            mtime: 0,
        })
        .collect();
    Tree::build(&entries)
}

#[test]
fn filetime_converts_to_unix_time() {
    // 2024-01-01 00:00:00 UTC.
    let filetime = (1_704_067_200 + FILETIME_TO_UNIX_SECS) * 10_000_000 + 5;
    assert_eq!(
        as_system(system_time(filetime)),
        UNIX_EPOCH + Duration::new(1_704_067_200, 500)
    );
}

#[test]
fn missing_and_pre_1970_times_fall_back_to_1980() {
    let fallback = UNIX_EPOCH + Duration::from_secs(FALLBACK_SECS);
    assert_eq!(as_system(system_time(0)), fallback);
    assert_eq!(as_system(system_time(10_000_000)), fallback);
}

#[test]
fn times_convert_from_filetime() {
    let t = nfs_time((1_704_067_200 + FILETIME_TO_UNIX_SECS) * 10_000_000 + 7);
    assert_eq!((t.seconds, t.nseconds), (1_704_067_200, 700));
    assert_eq!(nfs_time(0).seconds as u64, FALLBACK_SECS);
}

#[test]
fn nfs_seconds_stop_at_the_largest_they_can_say() {
    let t = nfs_time(u64::MAX);
    assert_eq!(t.seconds, u32::MAX);
    assert_eq!(t.nseconds, (u64::MAX % 10_000_000) as u32 * 100);
}

#[test]
fn inode_numbers_are_node_ids_plus_one() {
    assert_eq!(inode_of(0), 1);
    assert_eq!(node_of(1, 5), Some(0));
    assert_eq!(node_of(5, 5), Some(4));
    assert_eq!(node_of(6, 5), None);
    assert_eq!(node_of(0, 5), None);
    assert_eq!(node_of(1 << 40, usize::MAX), None);
}

#[test]
fn attributes_are_read_only_with_rounded_blocks() {
    let t = tree();
    let file = t.resolve("readme.md").unwrap();
    let a = node_attr(file, t.node(file));
    assert_eq!(a.ino, file as u64 + 1);
    assert_eq!((a.size, a.blocks, a.perm, a.nlink, a.is_dir), (1000, 2, 0o444, 1, false));
    let d = node_attr(ROOT, t.node(ROOT));
    assert_eq!((d.perm, d.nlink, d.is_dir, d.blocks), (0o555, 2, true, 0));
    assert_eq!(volume_blocks(0), 0);
    assert_eq!(volume_blocks(4096), 1);
    assert_eq!(volume_blocks(4097), 2);
}

#[test]
fn reads_stop_at_the_end_of_the_file() {
    assert_eq!(read_len(100, 0, 4096), 100);
    assert_eq!(read_len(100, 90, 4096), 10);
    assert_eq!(read_len(100, 200, 4096), 0);
    assert_eq!(read_len(10_000, 0, 4096), 4096);
    assert!(reaches_end(100, 90, 10));
    assert!(!reaches_end(100, 0, 50));
    assert!(reaches_end(100, 200, 0));
}

#[test]
fn listings_start_with_the_dots_and_resume_after_a_cookie() {
    let t = tree();
    let docs = t.resolve("docs").unwrap();
    let all = dir_listing(&t, docs, 0);
    let names: Vec<&str> = all.iter().map(|i| i.name.as_str()).collect();
    assert_eq!(names, vec![".", "..", "A.txt", "b.txt"]);
    assert_eq!(all[0].node, docs);
    assert_eq!(all[1].node, ROOT);
    let cookies: Vec<u64> = all.iter().map(|i| i.cookie).collect();
    assert_eq!(cookies, vec![1, 2, 3, 4]);
    let rest = dir_listing(&t, docs, 3);
    assert_eq!(rest.len(), 1);
    assert_eq!(rest[0].name, "b.txt");
    assert_eq!(rest[0].cookie, 4);
    assert!(dir_listing(&t, docs, 9).is_empty());
}

#[test]
fn lookups_know_the_dots_and_ignore_case() {
    let t = tree();
    let docs = t.resolve("docs").unwrap();
    let root_id = inode_of(ROOT);
    let docs_id = inode_of(docs);
    assert_eq!(nfs_lookup(&t, root_id, Some("DOCS")), Ok(docs_id));
    assert_eq!(nfs_lookup(&t, docs_id, Some(".")), Ok(docs_id));
    assert_eq!(nfs_lookup(&t, docs_id, Some("..")), Ok(root_id));
    assert_eq!(nfs_lookup(&t, docs_id, Some("nope")), Err(NfsError::NoEnt));
    assert_eq!(nfs_lookup(&t, docs_id, None), Err(NfsError::NoEnt));
    assert_eq!(nfs_lookup(&t, 999, Some("x")), Err(NfsError::Stale));
    let file_id = inode_of(t.resolve("readme.md").unwrap());
    assert_eq!(nfs_lookup(&t, file_id, Some("x")), Err(NfsError::NotDir));
    assert_eq!(fuse_lookup(&t, docs_id, Some("a.TXT")), t.resolve("docs/A.txt"));
    assert_eq!(fuse_lookup(&t, 0, Some("docs")), None);
}

#[test]
fn nfs_listings_come_page_by_page() {
    let t = tree();
    let docs = t.resolve("docs").unwrap();
    let docs_id = inode_of(docs);
    let first = nfs_dir_page(&t, docs_id, 0, 1).unwrap();
    assert_eq!(first.children.len(), 1);
    assert!(!first.end);
    let cookie = inode_of(first.children[0]);
    let second = nfs_dir_page(&t, docs_id, cookie, 10).unwrap();
    assert_eq!(second.children.len(), 1);
    assert!(second.end);
    assert_ne!(first.children[0], second.children[0]);
    assert!(matches!(nfs_dir_page(&t, docs_id, 12345, 10), Err(NfsError::BadCookie)));
    assert!(matches!(nfs_dir_page(&t, 0, 0, 10), Err(NfsError::Stale)));
}

#[test]
fn windows_sees_read_only_nodes_in_whole_sectors() {
    let t = tree();
    let file = t.resolve("readme.md").unwrap();
    let info = win_file_info(file, t.node(file));
    assert_eq!(info.attributes, 0x01);
    assert_eq!((info.file_size, info.allocation_size), (1000, 4096));
    assert_eq!(info.time, FALLBACK_TIME);
    assert_eq!(info.index_number, file as u64);
    let root = win_file_info(ROOT, t.node(ROOT));
    assert_eq!(root.attributes, 0x11);
    assert_eq!(root.allocation_size, 0);
}
