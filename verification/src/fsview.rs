//! What the mount front ends (FUSE on Linux, NFS on macOS) show of the tree:
//! inode numbers, attributes, times, directory listings and lookups, as
//! plain values. The front ends turn them into their protocol's types.

use vstd::prelude::*;

use crate::tree::{child_keyed, lower_key, nodes_linked, Node, Tree};

verus! {

/// Seconds between 1601-01-01 (FILETIME, what the core stores) and 1970-01-01.
pub const FILETIME_TO_UNIX_SECS: u64 = 11_644_473_600;

/// 1980-01-01, the time shown for entries without a date: the earliest date a
/// zip can hold, and less surprising than 1970.
pub const FALLBACK_SECS: u64 = 315_532_800;

/// FILETIME counts in units of 100 ns.
pub const TICKS_PER_SEC: u64 = 10_000_000;

/// The block size the FUSE volume reports.
pub const BLOCK_SIZE: u32 = 4096;

/// Readers the NFS server keeps between requests: NFS has no open and close.
pub const KEPT_READERS: usize = 64;

/// The seconds since 1970 a FILETIME stands for, where it stands for any:
/// 0 means "no date", and times before 1970 are not shown.
pub open spec fn unix_secs(filetime: u64) -> Option<int> {
    if filetime != 0 && filetime / 10_000_000 >= 11_644_473_600 {
        Some(filetime / 10_000_000 - 11_644_473_600)
    } else {
        None
    }
}

/// A time as seconds and nanoseconds after 1970-01-01.
#[derive(Clone, Copy, Debug, PartialEq, Eq, Structural)]
pub struct UnixTime {
    pub secs: u64,
    pub nanos: u32,
}

/// A FILETIME as FUSE shows it; 1980-01-01 for a missing or pre-1970 time.
pub fn system_time(filetime: u64) -> (t: UnixTime)
    ensures
        match unix_secs(filetime) {
            Some(s) => t.secs == s && t.nanos == (filetime % 10_000_000) * 100,
            None => t.secs == FALLBACK_SECS && t.nanos == 0,
        },
{
    let whole = filetime / TICKS_PER_SEC;
    if filetime != 0 && whole >= FILETIME_TO_UNIX_SECS {
        let frac = filetime % TICKS_PER_SEC;
        assert(frac < 10_000_000);
        UnixTime { secs: whole - FILETIME_TO_UNIX_SECS, nanos: (frac as u32) * 100 }
    } else {
        UnixTime { secs: FALLBACK_SECS, nanos: 0 }
    }
}

/// An NFS time: seconds in 32 bits.
#[derive(Clone, Copy, Debug, PartialEq, Eq, Structural)]
pub struct NfsTime {
    pub seconds: u32,
    pub nseconds: u32,
}

/// A FILETIME as NFS shows it: seconds past 2106 are held at the largest the
/// protocol can say; 1980-01-01 for a missing or pre-1970 time.
pub fn nfs_time(filetime: u64) -> (t: NfsTime)
    ensures
        match unix_secs(filetime) {
            Some(s) => t.seconds == (if s <= u32::MAX { s } else { u32::MAX as int })
                && t.nseconds == (filetime % 10_000_000) * 100,
            None => t.seconds == FALLBACK_SECS && t.nseconds == 0,
        },
{
    let whole = filetime / TICKS_PER_SEC;
    if filetime != 0 && whole >= FILETIME_TO_UNIX_SECS {
        let secs = whole - FILETIME_TO_UNIX_SECS;
        let frac = filetime % TICKS_PER_SEC;
        assert(frac < 10_000_000);
        let seconds: u32 = if secs <= 0xffff_ffff {
            secs as u32
        } else {
            u32::MAX
        };
        NfsTime { seconds, nseconds: (frac as u32) * 100 }
    } else {
        NfsTime { seconds: 315_532_800, nseconds: 0 }
    }
}

/// Inode numbers (FUSE) and file ids (NFS) start at 1 for the root; node
/// ids start at 0.
pub fn inode_of(node: u32) -> (ino: u64)
    ensures
        ino == node + 1,
{
    node as u64 + 1
}

/// The node an inode number names, if the tree has it.
pub fn node_of(ino: u64, node_count: usize) -> (res: Option<u32>)
    ensures
        match res {
            Some(n) => 1 <= ino && n == ino - 1 && n < node_count,
            None => ino == 0 || ino - 1 > u32::MAX || ino - 1 >= node_count,
        },
{
    if ino == 0 {
        return None;
    }
    let n = ino - 1;
    if n > 0xffff_ffff {
        return None;
    }
    if (n as usize) < node_count {
        Some(n as u32)
    } else {
        None
    }
}

/// What a node looks like to `stat`: read-only, a directory with two links.
#[derive(Clone, Copy, Debug, PartialEq, Eq, Structural)]
pub struct NodeAttr {
    pub ino: u64,
    pub is_dir: bool,
    pub size: u64,
    /// 512-byte blocks, rounded up.
    pub blocks: u64,
    pub perm: u16,
    pub nlink: u32,
}

/// The attributes of node `node` with the given description.
pub fn node_attr(node: u32, info: &Node) -> (a: NodeAttr)
    ensures
        a.ino == node + 1,
        a.is_dir == info.is_dir,
        a.size == info.size,
        a.blocks * 512 >= info.size && (a.blocks == 0 || (a.blocks - 1) * 512 < info.size),
        a.perm == (if info.is_dir { 0o555int } else { 0o444int }),
        a.nlink == (if info.is_dir { 2int } else { 1int }),
{
    let size = info.size;
    let blocks = size / 512 + if size % 512 == 0 { 0 } else { 1 };
    NodeAttr {
        ino: inode_of(node),
        is_dir: info.is_dir,
        size,
        blocks,
        perm: if info.is_dir { 0o555 } else { 0o444 },
        nlink: if info.is_dir { 2 } else { 1 },
    }
}

/// How many blocks of `BLOCK_SIZE` a volume of `total` bytes fills.
pub fn volume_blocks(total: u64) -> (res: u64)
    ensures
        res * 4096 >= total && (res == 0 || (res - 1) * 4096 < total),
{
    total / 4096 + if total % 4096 == 0 { 0 } else { 1 }
}

/// How many bytes a read of `count` at `offset` gets from a file of `size`.
pub open spec fn spec_read_len(size: u64, offset: u64, count: u32) -> int {
    let left = if offset <= size { size - offset } else { 0 };
    if count <= left { count as int } else { left }
}

pub fn read_len(size: u64, offset: u64, count: u32) -> (res: u64)
    ensures
        res == spec_read_len(size, offset, count),
{
    let left = size.saturating_sub(offset);
    if (count as u64) <= left {
        count as u64
    } else {
        left
    }
}

/// Whether a read at `offset` that got `filled` bytes reached the end.
pub fn reaches_end(size: u64, offset: u64, filled: u64) -> (res: bool)
    requires
        filled == 0 || offset + filled <= size,
    ensures
        res == (offset + filled >= size),
{
    offset + filled >= size
}

/// A directory's listing as FUSE numbers it: `.`, `..`, then the children,
/// each as (node, is a directory, name).
pub open spec fn listing(ns: Seq<Node>, dir: int) -> Seq<(u32, bool, Seq<char>)> {
    seq![(dir as u32, true, "."@), (ns[dir].parent, true, ".."@)] + ns[dir].children@.map_values(
        |c: u32| (c, ns[c as int].is_dir, ns[c as int].name@),
    )
}

/// One line of a FUSE listing; `cookie` is what the kernel hands back to
/// continue after it.
pub struct DirItem {
    pub node: u32,
    pub cookie: u64,
    pub is_dir: bool,
    pub name: String,
}

/// The lines of directory `dir` from position `offset` on.
pub fn dir_listing(tree: &Tree, dir: u32, offset: u64) -> (res: Vec<DirItem>)
    requires
        tree.wf(),
        dir < tree@.len(),
    ensures
        res@.len() == (if offset <= listing(tree@, dir as int).len() {
            listing(tree@, dir as int).len() - offset
        } else {
            0
        }),
        forall|i: int|
            0 <= i < res@.len() ==> {
                let l = listing(tree@, dir as int)[offset + i];
                &&& (#[trigger] res@[i]).node == l.0
                &&& res@[i].is_dir == l.1
                &&& res@[i].name@ == l.2
                &&& res@[i].cookie == offset + i + 1
            },
{
    proof {
        tree.lemma_wf_linked();
        reveal_strlit(".");
        reveal_strlit("..");
    }
    let ghost ns = tree@;
    let ghost l = listing(ns, dir as int);
    let info = tree.node(dir);
    let count = info.children.len();
    assert(count < ns.len());
    let total: u64 = count as u64 + 2;
    let mut out: Vec<DirItem> = Vec::new();
    if offset >= total {
        return out;
    }
    let mut i: u64 = offset;
    while i < total
        invariant
            offset <= i <= total,
            total == count + 2,
            ns == tree@,
            nodes_linked(ns),
            dir < ns.len(),
            l == listing(ns, dir as int),
            l.len() == total,
            *info == ns[dir as int],
            count == info.children@.len(),
            out@.len() == i - offset,
            forall|j: int|
                0 <= j < out@.len() ==> {
                    let e = l[offset + j];
                    &&& (#[trigger] out@[j]).node == e.0
                    &&& out@[j].is_dir == e.1
                    &&& out@[j].name@ == e.2
                    &&& out@[j].cookie == offset + j + 1
                },
        decreases total - i,
    {
        let item = if i == 0 {
            DirItem { node: dir, cookie: 1, is_dir: true, name: ".".to_string() }
        } else if i == 1 {
            DirItem { node: info.parent, cookie: 2, is_dir: true, name: "..".to_string() }
        } else {
            let child = info.children[(i - 2) as usize];
            assert(0 < child < ns.len());
            let node = tree.node(child);
            DirItem { node: child, cookie: i + 1, is_dir: node.is_dir, name: node.name.clone() }
        };
        out.push(item);
        i = i + 1;
    }
    out
}

/// Why an NFS request about a node fails.
#[derive(Clone, Copy, Debug, PartialEq, Eq, Structural)]
pub enum NfsError {
    /// The id names no node (any more).
    Stale,
    /// A directory was expected.
    NotDir,
    /// No such name.
    NoEnt,
    /// The cookie names no entry of the directory.
    BadCookie,
}

/// The node an NFS file id names; `Stale` where there is none.
pub fn nfs_node(tree: &Tree, id: u64) -> (res: Result<u32, NfsError>)
    requires
        tree.wf(),
    ensures
        match res {
            Ok(n) => n == id - 1 && 1 <= id && n < tree@.len(),
            Err(e) => e == NfsError::Stale && (id == 0 || id - 1 >= tree@.len()),
        },
{
    proof {
        tree.lemma_wf_linked();
    }
    match node_of(id, tree.node_count()) {
        Some(n) => Ok(n),
        None => Err(NfsError::Stale),
    }
}

/// What an NFS lookup of `name` in directory `dirid` finds: `.` is the
/// directory, `..` its parent, anything else a child by name, ignoring case.
/// `name` is `None` where the name is no UTF-8.
pub open spec fn spec_nfs_lookup(ns: Seq<Node>, dirid: u64, name: Option<Seq<char>>) -> Result<
    u64,
    NfsError,
> {
    if dirid == 0 || dirid - 1 >= ns.len() {
        Err(NfsError::Stale)
    } else if !ns[dirid - 1].is_dir {
        Err(NfsError::NotDir)
    } else {
        match name {
            None => Err(NfsError::NoEnt),
            Some(n) => if n == "."@ {
                Ok(dirid)
            } else if n == ".."@ {
                Ok((ns[dirid - 1].parent + 1) as u64)
            } else {
                match child_keyed(ns, dirid - 1, lower_key(n)) {
                    Some(c) => Ok((c + 1) as u64),
                    None => Err(NfsError::NoEnt),
                }
            },
        }
    }
}

fn is_dots(name: &str, two: bool) -> (res: bool)
    ensures
        res == (name@ == (if two { ".."@ } else { "."@ })),
{
    proof {
        reveal_strlit(".");
        reveal_strlit("..");
    }
    let chars = crate::text::chars_of(name);
    let want: usize = if two { 2 } else { 1 };
    if chars.len() != want {
        assert(chars@.len() != (if two { ".."@ } else { "."@ }).len());
        return false;
    }
    let mut k: usize = 0;
    while k < want
        invariant
            k <= want,
            want == chars@.len(),
            want == (if two { 2int } else { 1int }),
            chars@ == name@,
            ".."@ == seq!['.', '.'],
            "."@ == seq!['.'],
            forall|j: int| 0 <= j < k ==> chars@[j] == '.',
        decreases want - k,
    {
        if chars[k] != '.' {
            assert(chars@[k as int] != (if two { ".."@ } else { "."@ })[k as int]);
            return false;
        }
        k = k + 1;
    }
    if two {
        assert(chars@ =~= ".."@);
    } else {
        assert(chars@ =~= "."@);
    }
    true
}

/// An NFS lookup.
pub fn nfs_lookup(tree: &Tree, dirid: u64, name: Option<&str>) -> (res: Result<u64, NfsError>)
    requires
        tree.wf(),
    ensures
        res == spec_nfs_lookup(
            tree@,
            dirid,
            match name {
                Some(n) => Some(n@),
                None => None,
            },
        ),
{
    let dir = match nfs_node(tree, dirid) {
        Ok(d) => d,
        Err(e) => return Err(e),
    };
    let info = tree.node(dir);
    if !info.is_dir {
        return Err(NfsError::NotDir);
    }
    let name = match name {
        Some(n) => n,
        None => return Err(NfsError::NoEnt),
    };
    if is_dots(name, false) {
        return Ok(dirid);
    }
    if is_dots(name, true) {
        return Ok(inode_of(info.parent));
    }
    match tree.lookup_child(dir, name) {
        Some(c) => Ok(inode_of(c)),
        None => Err(NfsError::NoEnt),
    }
}

/// A FUSE lookup: a child of `parent` by name, ignoring case. `name` is
/// `None` where the name is no UTF-8.
pub fn fuse_lookup(tree: &Tree, parent: u64, name: Option<&str>) -> (res: Option<u32>)
    requires
        tree.wf(),
    ensures
        res == (if parent == 0 || parent - 1 >= tree@.len() {
            None
        } else {
            match name {
                Some(n) => child_keyed(tree@, parent - 1, lower_key(n@)),
                None => None,
            }
        }),
{
    proof {
        tree.lemma_wf_linked();
    }
    let dir = match node_of(parent, tree.node_count()) {
        Some(d) => d,
        None => return None,
    };
    match name {
        Some(n) => tree.lookup_child(dir, n),
        None => None,
    }
}

/// A page of an NFS listing: the children it holds, and whether it is the
/// last.
pub struct DirPage {
    pub children: Vec<u32>,
    pub end: bool,
}

/// Where an NFS listing continues: the cookie is the id of the last entry the
/// client got, 0 to start.
pub open spec fn page_start(children: Seq<u32>, start_after: u64) -> Option<int> {
    if start_after == 0 {
        Some(0)
    } else if exists|k: int| 0 <= k < children.len() && children[k] + 1 == start_after {
        Some(
            (choose|k: int|
                0 <= k < children.len() && children[k] + 1 == start_after && forall|j: int|
                    0 <= j < k ==> children[j] + 1 != start_after) + 1,
        )
    } else {
        None
    }
}

/// Up to `max_entries` children of directory `dirid` after the cookie.
pub fn nfs_dir_page(tree: &Tree, dirid: u64, start_after: u64, max_entries: usize) -> (res: Result<
    DirPage,
    NfsError,
>)
    requires
        tree.wf(),
    ensures
        match res {
            Err(e) => if dirid == 0 || dirid - 1 >= tree@.len() {
                e == NfsError::Stale
            } else if !tree@[dirid - 1].is_dir {
                e == NfsError::NotDir
            } else {
                e == NfsError::BadCookie && page_start(tree@[dirid - 1].children@, start_after)
                    is None
            },
            Ok(p) => 1 <= dirid && dirid - 1 < tree@.len() && tree@[dirid - 1].is_dir && {
                let ch = tree@[dirid - 1].children@;
                match page_start(ch, start_after) {
                    Some(s) => {
                        let n = if max_entries <= ch.len() - s { max_entries as int } else { ch.len() - s };
                        &&& p.children@ == ch.subrange(s, s + n)
                        &&& p.end == (s + n >= ch.len())
                    },
                    None => false,
                }
            },
        },
{
    let dir = match nfs_node(tree, dirid) {
        Ok(d) => d,
        Err(e) => return Err(e),
    };
    let info = tree.node(dir);
    if !info.is_dir {
        return Err(NfsError::NotDir);
    }
    let ghost ch = info.children@;
    let len = info.children.len();
    let mut start: usize = 0;
    if start_after != 0 {
        let mut k: usize = 0;
        while k < len && info.children[k] as u64 + 1 != start_after
            invariant
                k <= len,
                len == ch.len(),
                ch == info.children@,
                forall|j: int| 0 <= j < k ==> ch[j] + 1 != start_after,
            decreases len - k,
        {
            k = k + 1;
        }
        if k == len {
            return Err(NfsError::BadCookie);
        }
        assert(k < len && ch[k as int] + 1 == start_after);
        proof {
            let w = choose|kk: int|
                0 <= kk < ch.len() && ch[kk] + 1 == start_after && forall|j: int|
                    0 <= j < kk ==> ch[j] + 1 != start_after;
            assert(0 <= k < ch.len() && ch[k as int] + 1 == start_after);
            if w < k {
                assert(ch[w] + 1 != start_after);
            } else if w > k {
                assert(ch[k as int] + 1 != start_after);
            }
            assert(w == k);
        }
        start = k + 1;
    }
    let left = len - start;
    let n = if max_entries <= left {
        max_entries
    } else {
        left
    };
    let mut page: Vec<u32> = Vec::new();
    let mut i: usize = 0;
    while i < n
        invariant
            i <= n,
            start + n <= len,
            len == ch.len(),
            ch == info.children@,
            page@ == ch.subrange(start as int, start + i),
        decreases n - i,
    {
        page.push(info.children[start + i]);
        i = i + 1;
        assert(page@ =~= ch.subrange(start as int, start + i));
    }
    Ok(DirPage { children: page, end: start + n >= len })
}

// ---------------------------------------------------------------------------
// Windows (WinFsp)
// ---------------------------------------------------------------------------

pub const FILE_ATTRIBUTE_READONLY: u32 = 0x0000_0001;

pub const FILE_ATTRIBUTE_DIRECTORY: u32 = 0x0000_0010;

/// Allocation sizes are reported in whole sectors of this size.
pub const SECTOR_SIZE: u64 = 4096;

/// 1980-01-01 as a FILETIME: the time shown for entries without a date.
/// Zero would show in File Explorer as the year 1601.
pub const FALLBACK_TIME: u64 = 119_600_064_000_000_000;

/// What File Explorer is told about a node.
#[derive(Clone, Copy, Debug, PartialEq, Eq, Structural)]
pub struct WinFileInfo {
    /// Read-only, and a directory where it is one.
    pub attributes: u32,
    pub file_size: u64,
    /// The size rounded up to whole sectors.
    pub allocation_size: u64,
    /// Creation, access, write and change time alike.
    pub time: u64,
    pub index_number: u64,
}

/// A node's attributes: read-only, and a directory where it is one.
pub fn win_attributes(is_dir: bool) -> (res: u32)
    ensures
        res == (if is_dir { 0x11u32 } else { 0x01u32 }),
{
    if is_dir {
        let a = FILE_ATTRIBUTE_DIRECTORY | FILE_ATTRIBUTE_READONLY;
        assert(0x10u32 | 0x01u32 == 0x11u32) by (bit_vector);
        a
    } else {
        FILE_ATTRIBUTE_READONLY
    }
}

/// What File Explorer is told about node `node_id`: its attributes, size,
/// size in whole sectors, time (1980 where it has none) and index.
pub fn win_file_info(node_id: u32, info: &Node) -> (res: WinFileInfo)
    requires
        info.size <= u64::MAX - 4095,
    ensures
        res.attributes == (if info.is_dir { 0x11u32 } else { 0x01u32 }),
        res.file_size == info.size,
        res.allocation_size % 4096 == 0,
        res.allocation_size >= info.size,
        res.allocation_size < info.size + 4096,
        res.time == (if info.mtime == 0 { FALLBACK_TIME } else { info.mtime }),
        res.index_number == node_id,
{
    let size = info.size;
    let sectors = size / SECTOR_SIZE + if size % SECTOR_SIZE == 0 { 0 } else { 1 };
    assert(sectors * 4096 >= size && sectors * 4096 < size + 4096) by (nonlinear_arith)
        requires
            sectors == size / 4096 + (if size % 4096 == 0 { 0int } else { 1int }),
    ;
    WinFileInfo {
        attributes: win_attributes(info.is_dir),
        file_size: size,
        allocation_size: sectors * SECTOR_SIZE,
        time: if info.mtime == 0 {
            FALLBACK_TIME
        } else {
            info.mtime
        },
        index_number: node_id as u64,
    }
}

} // verus!
