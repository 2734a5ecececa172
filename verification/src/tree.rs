//! The archive's directory tree.
//!
//! There can be close to a million entries, so nodes live in an arena
//! (`Vec<Node>`) and refer to each other by `u32` indices, not pointers.
//! Each directory's children are kept sorted by their lower-case names —
//! lookup is a binary search, with no hash table per directory.
//!
//! The tree knows nothing about the archive format: it is built from
//! `EntryMeta`, and `Node::entry` is the entry's index in the backend's list.

use vstd::prelude::*;

use rustc_hash::{FxBuildHasher, FxHashMap};

use crate::entry::EntryMeta;
use crate::sanitize::{
    ascii_lower, decimal_chars, disambiguate, is_component, is_sep, last_dot,
    lemma_decimal_chars_digits, lemma_decimal_chars_injective, lemma_disambiguate_component,
    lemma_last_dot_valid, lemma_split_path_components, segments, spec_disambiguate, spec_split_path,
    split_path,
    string_views,
};
use crate::text::{chars_of, string_from_chars};

verus! {

#[verifier::external_type_specification]
#[verifier::external_body]
pub struct ExFxBuildHasher(FxBuildHasher);

/// Index of the root node in the arena.
pub const ROOT: u32 = 0;

// ---------------------------------------------------------------------------
// Case-insensitive keys
// ---------------------------------------------------------------------------

/// What `char::to_lowercase` yields for `c`.
pub uninterp spec fn char_lower(c: char) -> Seq<char>;

/// `char::to_lowercase`, collected: the lower-case mapping of `c`, one or
/// more characters. An ASCII character maps to its ASCII lower case.
#[verifier::external_body]
fn lower_char(c: char) -> (res: Vec<char>)
    ensures
        res@ == char_lower(c),
        (c as u32) < 128 ==> res@ == seq![ascii_lower(c)],
{
    c.to_lowercase().collect()
}

/// A name's key: each character replaced by its lower-case mapping. Names
/// are compared and looked up by their keys — the way Windows expects.
pub open spec fn lower_key(s: Seq<char>) -> Seq<char>
    decreases s.len(),
{
    if s.len() == 0 {
        Seq::empty()
    } else {
        lower_key(s.drop_last()) + char_lower(s.last())
    }
}

/// The key of a string, with what was learnt on the way about the lower-case
/// mapping of its ASCII characters.
pub fn lower_key_of(s: &str) -> (res: Vec<char>)
    ensures
        res@ == lower_key(s@),
        forall|i: int|
            0 <= i < s@.len() && (s@[i] as u32) < 128 ==> char_lower(#[trigger] s@[i]) == seq![
                ascii_lower(s@[i]),
            ],
{
    let chars = chars_of(s);
    let mut out: Vec<char> = Vec::new();
    for i in 0..chars.len()
        invariant
            chars@ == s@,
            out@ == lower_key(s@.take(i as int)),
            forall|j: int|
                0 <= j < i && (s@[j] as u32) < 128 ==> char_lower(#[trigger] s@[j]) == seq![
                    ascii_lower(s@[j]),
                ],
    {
        let low = lower_char(chars[i]);
        proof {
            assert(s@.take(i + 1).drop_last() =~= s@.take(i as int));
        }
        let ghost before = out@;
        for j in 0..low.len()
            invariant
                out@ == before + low@.take(j as int),
        {
            out.push(low[j]);
            proof {
                assert(before + low@.take(j + 1) =~= (before + low@.take(j as int)).push(low@[j as int]));
            }
        }
        proof {
            assert(low@.take(low@.len() as int) =~= low@);
        }
    }
    proof {
        assert(s@.take(s@.len() as int) =~= s@);
    }
    out
}

/// Keys of concatenated names concatenate.
pub proof fn lemma_lower_key_concat(a: Seq<char>, b: Seq<char>)
    ensures
        lower_key(a + b) == lower_key(a) + lower_key(b),
    decreases b.len(),
{
    if b.len() == 0 {
        assert(a + b =~= a);
        assert(lower_key(a) + lower_key(b) =~= lower_key(a));
    } else {
        assert((a + b).drop_last() =~= a + b.drop_last());
        lemma_lower_key_concat(a, b.drop_last());
        assert(lower_key(a) + (lower_key(b.drop_last()) + char_lower(b.last())) =~= (lower_key(a)
            + lower_key(b.drop_last())) + char_lower(b.last()));
    }
}

/// A name whose characters all map to themselves is its own key.
pub proof fn lemma_lower_key_fixed(s: Seq<char>)
    requires
        forall|i: int| 0 <= i < s.len() ==> char_lower(#[trigger] s[i]) == seq![s[i]],
    ensures
        lower_key(s) == s,
    decreases s.len(),
{
    if s.len() > 0 {
        lemma_lower_key_fixed(s.drop_last());
        assert(s.drop_last().push(s.last()) =~= s);
    }
}

// ---------------------------------------------------------------------------
// Ordering of keys
// ---------------------------------------------------------------------------

/// Lexicographic order of keys, characters by code point — the order of
/// `Vec<char>`.
pub open spec fn lex_lt(a: Seq<char>, b: Seq<char>) -> bool
    decreases a.len(),
{
    if a.len() == 0 {
        b.len() > 0
    } else if b.len() == 0 {
        false
    } else if a[0] != b[0] {
        a[0] < b[0]
    } else {
        lex_lt(a.drop_first(), b.drop_first())
    }
}

pub proof fn lemma_lex_irreflexive(a: Seq<char>)
    ensures
        !lex_lt(a, a),
    decreases a.len(),
{
    if a.len() > 0 {
        lemma_lex_irreflexive(a.drop_first());
    }
}

pub proof fn lemma_lex_transitive(a: Seq<char>, b: Seq<char>, c: Seq<char>)
    requires
        lex_lt(a, b),
        lex_lt(b, c),
    ensures
        lex_lt(a, c),
    decreases a.len(),
{
    if a.len() > 0 && b.len() > 0 && c.len() > 0 && a[0] == b[0] && b[0] == c[0] {
        lemma_lex_transitive(a.drop_first(), b.drop_first(), c.drop_first());
    }
}

pub proof fn lemma_lex_total(a: Seq<char>, b: Seq<char>)
    ensures
        a == b || lex_lt(a, b) || lex_lt(b, a),
    decreases a.len(),
{
    if a.len() > 0 && b.len() > 0 && a[0] == b[0] {
        assert(a.drop_first().len() < a.len());
        lemma_lex_total(a.drop_first(), b.drop_first());
        if a.drop_first() == b.drop_first() {
            assert(a =~= seq![a[0]] + a.drop_first());
            assert(b =~= seq![b[0]] + b.drop_first());
        }
    } else if a.len() == 0 && b.len() == 0 {
        assert(a =~= b);
    }
}

/// The outcome of comparing two keys.
#[derive(Debug, Clone, Copy, PartialEq, Eq, Structural)]
pub enum KeyOrder {
    Less,
    Equal,
    Greater,
}

/// Compares two keys lexicographically.
pub fn compare_keys(a: &[char], b: &[char]) -> (res: KeyOrder)
    ensures
        match res {
            KeyOrder::Less => lex_lt(a@, b@),
            KeyOrder::Equal => a@ == b@,
            KeyOrder::Greater => lex_lt(b@, a@),
        },
{
    let mut i: usize = 0;
    assert(a@.skip(0) =~= a@);
    assert(b@.skip(0) =~= b@);
    while i < a.len() && i < b.len()
        invariant
            i <= a.len(),
            i <= b.len(),
            a@.take(i as int) == b@.take(i as int),
            lex_lt(a@, b@) == lex_lt(a@.skip(i as int), b@.skip(i as int)),
            lex_lt(b@, a@) == lex_lt(b@.skip(i as int), a@.skip(i as int)),
        decreases a.len() - i,
    {
        let x = a[i];
        let y = b[i];
        assert(a@.skip(i as int)[0] == x);
        assert(b@.skip(i as int)[0] == y);
        if x != y {
            if x < y {
                return KeyOrder::Less;
            } else {
                return KeyOrder::Greater;
            }
        }
        assert(a@.skip(i as int).drop_first() =~= a@.skip(i + 1));
        assert(b@.skip(i as int).drop_first() =~= b@.skip(i + 1));
        assert(a@.take(i + 1) =~= a@.take(i as int).push(x));
        assert(b@.take(i + 1) =~= b@.take(i as int).push(y));
        i = i + 1;
    }
    if a.len() == b.len() {
        assert(a@ =~= a@.take(i as int));
        assert(b@ =~= b@.take(i as int));
        KeyOrder::Equal
    } else if a.len() < b.len() {
        KeyOrder::Less
    } else {
        KeyOrder::Greater
    }
}

// ---------------------------------------------------------------------------
// Nodes and the tree
// ---------------------------------------------------------------------------

#[derive(Debug)]
pub struct Node {
    pub name: String,
    pub parent: u32,
    pub children: Vec<u32>,
    /// The entry's index in the backend's list. `None` for synthesized
    /// directories: archives often carry no entries of their own for
    /// intermediate folders.
    pub entry: Option<u32>,
    pub is_dir: bool,
    pub size: u64,
    pub mtime: u64,
}

pub struct Tree {
    nodes: Vec<Node>,
}

/// A node's key: its lower-case name.
pub open spec fn node_key(n: Node) -> Seq<char> {
    lower_key(n.name@)
}

/// The arena's links: the root first, every other node after its parent,
/// which is a directory and lists it among its children; every child listed
/// points back at its parent.
pub open spec fn nodes_linked(ns: Seq<Node>) -> bool {
    &&& 0 < ns.len() <= u32::MAX
    &&& ns[0].is_dir && ns[0].parent == ROOT && ns[0].name@.len() == 0 && ns[0].entry is None
    &&& forall|i: int|
        0 < i < ns.len() ==> (#[trigger] ns[i]).parent < i && ns[ns[i].parent as int].is_dir
            && is_component(ns[i].name@)
    &&& forall|p: int, j: int|
        0 <= p < ns.len() && 0 <= j < ns[p].children@.len() ==> 0 < #[trigger] ns[p].children@[j]
            < ns.len() && ns[ns[p].children@[j] as int].parent == p
    &&& forall|i: int|
        0 < i < ns.len() ==> (#[trigger] ns[ns[i].parent as int]).children@.contains(i as u32)
}

/// Every directory's children in strictly increasing order of their keys:
/// no two siblings share a name, ignoring case.
pub open spec fn children_sorted(ns: Seq<Node>) -> bool {
    forall|p: int, j: int, k: int|
        0 <= p < ns.len() && 0 <= j < k < ns[p].children@.len() ==> lex_lt(
            node_key(ns[#[trigger] ns[p].children@[j] as int]),
            node_key(ns[#[trigger] ns[p].children@[k] as int]),
        )
}

impl View for Tree {
    type V = Seq<Node>;

    closed spec fn view(&self) -> Seq<Node> {
        self.nodes@
    }
}

impl Tree {
    /// The tree's invariant: linked and sorted.
    pub closed spec fn wf(&self) -> bool {
        nodes_linked(self.nodes@) && children_sorted(self.nodes@)
    }

    /// A well-formed tree's arena is linked; every directory's children are
    /// in strictly increasing order of their case-insensitive keys, so no two
    /// siblings share a name ignoring case; and no directory lists more
    /// children than the tree has nodes.
    pub proof fn lemma_wf_linked(&self)
        requires
            self.wf(),
        ensures
            nodes_linked(self@),
            children_sorted(self@),
            forall|p: int|
                0 <= p < self@.len() ==> (#[trigger] self@[p]).children@.len() < self@.len(),
    {
        let ns = self.nodes@;
        assert forall|p: int| 0 <= p < ns.len() implies (#[trigger] ns[p]).children@.len()
            < ns.len() by {
            let ch = ns[p].children@;
            assert forall|j: int, k: int|
                0 <= j < ch.len() && 0 <= k < ch.len() && j != k implies ch[j] != ch[k] by {
                if j < k {
                    assert(lex_lt(node_key(ns[ch[j] as int]), node_key(ns[ch[k] as int])));
                    lemma_lex_irreflexive(node_key(ns[ch[j] as int]));
                } else {
                    assert(lex_lt(node_key(ns[ch[k] as int]), node_key(ns[ch[j] as int])));
                    lemma_lex_irreflexive(node_key(ns[ch[k] as int]));
                }
            }
            assert(ch.no_duplicates());
            lemma_children_bound(ns, p);
        }
    }
}

// ---------------------------------------------------------------------------
// Building
// ---------------------------------------------------------------------------

/// The index that finds a child by its parent and key while building.
pub type NameIndex = FxHashMap<(u32, String), u32>;

/// What the "(parent, key) -> node" index holds.
pub uninterp spec fn name_index(m: NameIndex) -> Map<(u32, Seq<char>), u32>;

/// The index with nothing in it.
pub open spec fn no_names() -> Map<(u32, Seq<char>), u32> {
    Map::empty()
}

/// `FxHashMap::default()`: an empty map.
#[verifier::external_body]
fn index_new() -> (res: NameIndex)
    ensures
        name_index(res) == no_names(),
{
    FxHashMap::default()
}

/// `HashMap::get` with the key `(parent, key)`.
#[verifier::external_body]
fn index_get(m: &NameIndex, parent: u32, key: &String) -> (res: Option<u32>)
    ensures
        match res {
            Some(id) => name_index(*m).dom().contains((parent, key@)) && name_index(*m)[(
                parent,
                key@,
            )] == id,
            None => !name_index(*m).dom().contains((parent, key@)),
        },
{
    m.get(&(parent, key.clone())).copied()
}

/// `HashMap::insert` of `(parent, key) -> id`.
#[verifier::external_body]
fn index_insert(m: &mut NameIndex, parent: u32, key: String, id: u32)
    ensures
        name_index(*final(m)) == name_index(*old(m)).insert((parent, key@), id),
{
    m.insert((parent, key), id);
}

/// `slice::sort_by_cached_key` with each child's key: a stable sort by the
/// keys, which `Vec<char>` orders lexicographically, characters by code
/// point — a permutation in non-decreasing order of keys.
#[verifier::external_body]
fn sort_by_keys(children: &mut Vec<u32>, keys: &Vec<Vec<char>>)
    requires
        forall|j: int| 0 <= j < old(children)@.len() ==> old(children)@[j] < keys@.len(),
    ensures
        final(children)@.to_multiset() == old(children)@.to_multiset(),
        forall|j: int, k: int|
            0 <= j < k < final(children)@.len() ==> !lex_lt(
                keys@[#[trigger] final(children)@[k] as int]@,
                keys@[#[trigger] final(children)@[j] as int]@,
            ),
{
    children.sort_by_cached_key(|c| key_of_node(keys, *c));
}

/// A copy of node `c`'s key.
fn key_of_node(keys: &Vec<Vec<char>>, c: u32) -> (res: Vec<char>)
    requires
        c < keys@.len(),
    ensures
        res@ == keys@[c as int]@,
{
    keys[c as usize].clone()
}

/// The index matches the arena: every key names a node with that parent and
/// key, and every node but the root is found under its parent and key.
pub open spec fn index_matches(idx: Map<(u32, Seq<char>), u32>, ns: Seq<Node>) -> bool {
    &&& forall|k: (u32, Seq<char>)|
        #[trigger] idx.dom().contains(k) ==> 0 < idx[k] < ns.len() && ns[idx[k] as int].parent
            == k.0 && node_key(ns[idx[k] as int]) == k.1
    &&& forall|i: int|
        0 < i < ns.len() ==> idx.dom().contains((#[trigger] ns[i].parent, node_key(ns[i])))
            && idx[(ns[i].parent, node_key(ns[i]))] == i
}

/// The arena under construction, its keys, and the index that finds a child
/// by its parent and key.
struct Builder {
    nodes: Vec<Node>,
    keys: Vec<Vec<char>>,
    index: NameIndex,
}

impl Builder {
    spec fn ok(&self) -> bool {
        &&& nodes_linked(self.nodes@)
        &&& self.keys@.len() == self.nodes@.len()
        &&& forall|i: int| 0 <= i < self.nodes@.len() ==> (#[trigger] self.keys@[i])@ == node_key(self.nodes@[i])
        &&& index_matches(name_index(self.index), self.nodes@)
        &&& forall|p: int| 0 <= p < self.nodes@.len() ==> (#[trigger] self.nodes@[p]).children@.no_duplicates()
    }
}

/// `node` with `id` appended to its children, all else alike.
pub open spec fn with_child(before: Node, after: Node, id: u32) -> bool {
    &&& after.children@ == before.children@.push(id)
    &&& after.name == before.name
    &&& after.parent == before.parent
    &&& after.entry == before.entry
    &&& after.is_dir == before.is_dir
    &&& after.size == before.size
    &&& after.mtime == before.mtime
}

impl Builder {
    /// An arena holding only the root.
    fn new() -> (b: Builder)
        ensures
            b.ok(),
            b.nodes@.len() == 1,
    {
        let mut nodes: Vec<Node> = Vec::new();
        nodes.push(
            Node {
                name: String::new(),
                parent: ROOT,
                children: Vec::new(),
                entry: None,
                is_dir: true,
                size: 0,
                mtime: 0,
            },
        );
        let mut keys: Vec<Vec<char>> = Vec::new();
        keys.push(Vec::new());
        let b = Builder { nodes, keys, index: index_new() };
        assert(b.keys@[0]@ =~= node_key(b.nodes@[0]));
        b
    }

    /// Appends a node under `parent` and indexes it.
    fn add_node(
        &mut self,
        parent: u32,
        name: String,
        key: Vec<char>,
        is_dir: bool,
        entry: Option<u32>,
        size: u64,
        mtime: u64,
    ) -> (id: u32)
        requires
            old(self).ok(),
            parent < old(self).nodes@.len(),
            old(self).nodes@[parent as int].is_dir,
            old(self).nodes@.len() < u32::MAX,
            key@ == lower_key(name@),
            is_component(name@),
            !name_index(old(self).index).dom().contains((parent, key@)),
        ensures
            final(self).ok(),
            id == old(self).nodes@.len(),
            final(self).nodes@.len() == old(self).nodes@.len() + 1,
            final(self).nodes@[id as int].name@ == name@,
            final(self).nodes@[id as int].parent == parent,
            final(self).nodes@[id as int].children@.len() == 0,
            final(self).nodes@[id as int].entry == entry,
            final(self).nodes@[id as int].is_dir == is_dir,
            final(self).nodes@[id as int].size == size,
            final(self).nodes@[id as int].mtime == mtime,
            with_child(old(self).nodes@[parent as int], final(self).nodes@[parent as int], id),
            forall|i: int|
                0 <= i < old(self).nodes@.len() && i != parent ==> final(self).nodes@[i]
                    == old(self).nodes@[i],
            name_index(final(self).index) == name_index(old(self).index).insert((parent, key@), id),
    {
        let id = self.nodes.len() as u32;
        let key_string = string_from_chars(key.as_slice());
        let ghost old_nodes = self.nodes@;
        let ghost old_idx = name_index(self.index);
        self.nodes.push(
            Node { name, parent, children: Vec::new(), entry, is_dir, size, mtime },
        );
        self.nodes[parent as usize].children.push(id);
        self.keys.push(key);
        index_insert(&mut self.index, parent, key_string, id);
        proof {
            let ns = self.nodes@;
            let idx = name_index(self.index);
            assert(forall|i: int| 0 <= i < old_nodes.len() && i != parent ==> ns[i] == old_nodes[i]);
            assert(ns[id as int].parent == parent);
            assert forall|i: int| 0 < i < ns.len() implies (#[trigger] ns[i]).parent < i
                && ns[ns[i].parent as int].is_dir && is_component(ns[i].name@) by {
                if i < old_nodes.len() {
                    assert(old_nodes[i].parent < i);
                }
            }
            assert forall|p: int, j: int|
                0 <= p < ns.len() && 0 <= j < ns[p].children@.len() implies 0
                    < #[trigger] ns[p].children@[j] < ns.len() && ns[ns[p].children@[j] as int].parent
                    == p by {
                if p == parent && j == old_nodes[p].children@.len() {
                } else {
                    assert(ns[p].children@[j] == old_nodes[p].children@[j]);
                    assert(old_nodes[p].children@[j] < old_nodes.len());
                }
            }
            assert forall|i: int| 0 < i < ns.len() implies (#[trigger] ns[ns[i].parent as int]).children@.contains(
                i as u32,
            ) by {
                if i < old_nodes.len() {
                    let pi = old_nodes[i].parent as int;
                    assert(old_nodes[pi].children@.contains(i as u32));
                    if pi == parent {
                        let j = choose|j: int| 0 <= j < old_nodes[pi].children@.len() && old_nodes[pi].children@[j] == i as u32;
                        assert(ns[pi].children@[j] == i as u32);
                    }
                } else {
                    assert(ns[parent as int].children@[old_nodes[parent as int].children@.len() as int] == id);
                }
            }
            assert forall|p: int| 0 <= p < ns.len() implies (#[trigger] ns[p]).children@.no_duplicates() by {
                if p == parent {
                    let ch = old_nodes[p].children@;
                    assert forall|j: int| 0 <= j < ch.len() implies ch[j] != id by {
                        assert(ch[j] < old_nodes.len());
                    }
                    assert(ns[p].children@ == ch.push(id));
                } else if p < old_nodes.len() {
                    assert(ns[p] == old_nodes[p]);
                }
            }
            assert forall|i: int| 0 <= i < ns.len() implies (#[trigger] self.keys@[i])@ == node_key(ns[i]) by {
                if i < old_nodes.len() && i != parent {
                    assert(ns[i] == old_nodes[i]);
                }
            }
            assert forall|k: (u32, Seq<char>)| #[trigger] idx.dom().contains(k) implies 0 < idx[k]
                < ns.len() && ns[idx[k] as int].parent == k.0 && node_key(ns[idx[k] as int]) == k.1 by {
                if k != (parent, key@) {
                    assert(old_idx.dom().contains(k));
                    let c = old_idx[k] as int;
                    if c != parent {
                        assert(ns[c] == old_nodes[c]);
                    }
                }
            }
            assert forall|i: int| 0 < i < ns.len() implies idx.dom().contains((#[trigger] ns[i].parent, node_key(ns[i])))
                && idx[(ns[i].parent, node_key(ns[i]))] == i by {
                if i < old_nodes.len() {
                    if i != parent {
                        assert(ns[i] == old_nodes[i]);
                    }
                    assert(old_idx.dom().contains((old_nodes[i].parent, node_key(old_nodes[i]))));
                }
            }
        }
        id
    }
}

/// The keys of a directory's children.
pub open spec fn sibling_keys(ns: Seq<Node>, p: int) -> Set<Seq<char>> {
    ns[p].children@.map_values(|c: u32| node_key(ns[c as int])).to_set()
}

/// A directory has fewer children than the arena has nodes: they are
/// distinct, and none of them is the root.
pub proof fn lemma_children_bound(ns: Seq<Node>, p: int)
    requires
        nodes_linked(ns),
        0 <= p < ns.len(),
        ns[p].children@.no_duplicates(),
    ensures
        ns[p].children@.len() < ns.len(),
{
    let ch = ns[p].children@;
    let m = ch.map_values(|c: u32| c as int);
    assert forall|i: int, j: int| 0 <= i < m.len() && 0 <= j < m.len() && i != j implies m[i] != m[j] by {
        assert(ch[i] != ch[j]);
    }
    m.unique_seq_to_set();
    vstd::set_lib::lemma_int_range(1, ns.len() as int);
    assert forall|x: int| m.to_set().contains(x) implies vstd::set_lib::set_int_range(1, ns.len() as int).contains(x) by {
        let j = choose|j: int| 0 <= j < m.len() && m[j] == x;
        assert(0 < #[trigger] ch[j] < ns.len());
    }
    vstd::set_lib::lemma_len_subset(m.to_set(), vstd::set_lib::set_int_range(1, ns.len() as int));
}

/// The key a disambiguated name gets, given the keys of the parts of the name
/// around the counter.
pub open spec fn counter_key(pre: Seq<char>, suf: Seq<char>, n: nat) -> Seq<char> {
    pre + seq!['~'] + decimal_chars(n) + suf
}

/// The part of a name before its counter goes, and the part after.
pub open spec fn counter_split(name: Seq<char>) -> (Seq<char>, Seq<char>) {
    match last_dot(name) {
        Some(pos) if pos > 0 => (name.take(pos), name.skip(pos)),
        _ => (name, Seq::empty()),
    }
}

/// The disambiguated name is the name with the counter put between its two
/// parts.
pub proof fn lemma_disambiguate_split(name: Seq<char>, n: nat)
    ensures
        spec_disambiguate(name, n) == counter_split(name).0 + seq!['~'] + decimal_chars(n)
            + counter_split(name).1,
        counter_split(name).0 + counter_split(name).1 == name,
{
    match last_dot(name) {
        Some(pos) if pos > 0 => {
            lemma_last_dot_valid(name);
            assert(name.take(pos) + name.skip(pos) =~= name);
        },
        _ => {
            assert(name + seq!['~'] + decimal_chars(n) + Seq::<char>::empty() =~= name + seq!['~']
                + decimal_chars(n));
        },
    }
}

/// Different counters give different keys.
pub proof fn lemma_counter_key_injective(pre: Seq<char>, suf: Seq<char>, a: nat, b: nat)
    requires
        counter_key(pre, suf, a) == counter_key(pre, suf, b),
    ensures
        a == b,
{
    let da = decimal_chars(a);
    let db = decimal_chars(b);
    let ka = counter_key(pre, suf, a);
    let kb = counter_key(pre, suf, b);
    assert(da.len() == db.len()) by {
        assert(ka.len() == pre.len() + 1 + da.len() + suf.len());
        assert(kb.len() == pre.len() + 1 + db.len() + suf.len());
    }
    let lo: int = pre.len() as int + 1;
    assert(ka.subrange(lo, lo + da.len()) =~= da);
    assert(kb.subrange(lo, lo + db.len()) =~= db);
    lemma_decimal_chars_injective(a, b);
}


/// The arena is linked and the index matches it.
#[verifier::opaque]
pub open spec fn arena_indexed(ns: Seq<Node>, idx: Map<(u32, Seq<char>), u32>) -> bool {
    nodes_linked(ns) && index_matches(idx, ns)
}

/// A candidate whose key is in the index: its key has the counter form, and
/// it is the key of a sibling.
proof fn lemma_taken_key(
    ns: Seq<Node>,
    idx: Map<(u32, Seq<char>), u32>,
    p: int,
    name: Seq<char>,
    n: nat,
    c: Seq<char>,
    ckey: Seq<char>,
)
    requires
        arena_indexed(ns, idx),
        0 <= p < ns.len(),
        c == spec_disambiguate(name, n),
        ckey == lower_key(c),
        forall|i: int|
            0 <= i < c.len() && (c[i] as u32) < 128 ==> char_lower(#[trigger] c[i]) == seq![
                ascii_lower(c[i]),
            ],
        idx.dom().contains((p as u32, ckey)),
    ensures
        ckey == counter_key(lower_key(counter_split(name).0), lower_key(counter_split(name).1), n),
        sibling_keys(ns, p).contains(ckey),
{
    reveal(arena_indexed);
    let split = counter_split(name);
    let d = decimal_chars(n);
    lemma_decimal_chars_digits(n);
    lemma_disambiguate_split(name, n);
    let mid = seq!['~'] + d;
    assert(c == split.0 + mid + split.1) by {
        assert(split.0 + seq!['~'] + d + split.1 =~= split.0 + mid + split.1);
    }
    assert forall|i: int| 0 <= i < mid.len() implies char_lower(#[trigger] mid[i]) == seq![mid[i]] by {
        assert(c[split.0.len() + i] == mid[i]);
        if i > 0 {
            assert(mid[i] == d[i - 1]);
        }
    }
    lemma_lower_key_fixed(mid);
    lemma_lower_key_concat(split.0, mid);
    lemma_lower_key_concat(split.0 + mid, split.1);
    assert(lower_key(split.0) + mid + lower_key(split.1) =~= lower_key(split.0) + seq!['~'] + d
        + lower_key(split.1));
    let sibling = idx[(p as u32, ckey)];
    assert(ns[sibling as int].parent == p);
    assert(ns[ns[sibling as int].parent as int].children@.contains(sibling));
    let j = choose|j: int| 0 <= j < ns[p].children@.len() && ns[p].children@[j] == sibling;
    assert(ns[p].children@.map_values(|c: u32| node_key(ns[c as int]))[j] == ckey);
}

impl Builder {
    /// A name for a new child of `parent` that clashes with none of its
    /// siblings, ignoring case: the name itself if it is free, otherwise the
    /// first free `name~N` (the counter before the extension).
    fn unique_name(&self, parent: u32, name: &String) -> (res: (String, Vec<char>))
        requires
            self.ok(),
            parent < self.nodes@.len(),
            is_component(name@),
        ensures
            is_component(res.0@),
            res.1@ == lower_key(res.0@),
            !name_index(self.index).dom().contains((parent, res.1@)),
            res.0@ == name@ <==> !name_index(self.index).dom().contains((parent, lower_key(name@))),
            res.0@ != name@ ==> exists|n: nat| n >= 1 && res.0@ == spec_disambiguate(name@, n),
    {
        let key = lower_key_of(name.as_str());
        let key_string = string_from_chars(key.as_slice());
        if index_get(&self.index, parent, &key_string).is_none() {
            return (name.clone(), key);
        }
        let ghost ns = self.nodes@;
        let ghost idx = name_index(self.index);
        let ghost p = parent as int;
        let ghost sib = sibling_keys(ns, p);
        let ghost split = counter_split(name@);
        let ghost pre_key = lower_key(split.0);
        let ghost suf_key = lower_key(split.1);
        let ghost mut tried: Set<Seq<char>> = Set::empty();
        proof {
            lemma_children_bound(ns, p);
            ns[p].children@.map_values(|c: u32| node_key(ns[c as int])).lemma_cardinality_of_set();
            vstd::seq_lib::seq_to_set_is_finite(ns[p].children@.map_values(|c: u32| node_key(ns[c as int])));
            reveal(arena_indexed);
        }
        let mut n: usize = 1;
        loop
            invariant
                arena_indexed(ns, idx),
                ns == self.nodes@,
                idx == name_index(self.index),
                idx.dom().contains((parent, lower_key(name@))),
                p == parent,
                p < ns.len(),
                is_component(name@),
                sib == sibling_keys(ns, p),
                sib.finite(),
                sib.len() <= ns[p].children@.len(),
                ns.len() <= u32::MAX,
                ns[p].children@.len() < ns.len(),
                split == counter_split(name@),
                pre_key == lower_key(split.0),
                suf_key == lower_key(split.1),
                1 <= n,
                tried.finite(),
                tried.len() == n - 1,
                tried.subset_of(sib),
                forall|t: Seq<char>|
                    tried.contains(t) ==> exists|m: nat| 1 <= m < n && t == counter_key(pre_key, suf_key, m),
            decreases ns[p].children@.len() + 1 - n,
        {
            let candidate = disambiguate(name.as_str(), n);
            let ckey = lower_key_of(candidate.as_str());
            let ckey_string = string_from_chars(ckey.as_slice());
            proof {
                lemma_disambiguate_component(name@, n as nat);
            }
            if index_get(&self.index, parent, &ckey_string).is_none() {
                proof {
                    lemma_decimal_chars_digits(n as nat);
                    lemma_disambiguate_split(name@, n as nat);
                    assert(candidate@ != name@) by {
                        assert(candidate@.len() > name@.len());
                    }
                }
                return (candidate, ckey);
            }
            proof {
                lemma_taken_key(ns, idx, p, name@, n as nat, candidate@, ckey@);
                // It is not one tried before.
                if tried.contains(ckey@) {
                    let m = choose|m: nat| 1 <= m < n && ckey@ == counter_key(pre_key, suf_key, m);
                    lemma_counter_key_injective(pre_key, suf_key, m, n as nat);
                }
                tried = tried.insert(ckey@);
                vstd::set_lib::lemma_len_subset(tried, sib);
            }
            n = n + 1;
        }
    }
}

/// Two nodes alike in all but their children.
pub open spec fn same_payload(a: Node, b: Node) -> bool {
    &&& a.name == b.name
    &&& a.parent == b.parent
    &&& a.entry == b.entry
    &&& a.is_dir == b.is_dir
    &&& a.size == b.size
    &&& a.mtime == b.mtime
}

/// `after` holds the nodes of `before`, alike in all but their children,
/// and maybe more.
pub open spec fn grows(before: Seq<Node>, after: Seq<Node>) -> bool {
    &&& before.len() <= after.len()
    &&& forall|i: int| 0 <= i < before.len() ==> same_payload(#[trigger] before[i], after[i])
}

impl Builder {
    /// The directory called `name` under `parent`, created if there is none.
    /// Where a file holds the name — rare but legitimate — the directory gets
    /// a name of its own.
    fn get_or_create_dir(&mut self, parent: u32, name: &String) -> (id: u32)
        requires
            old(self).ok(),
            parent < old(self).nodes@.len(),
            old(self).nodes@[parent as int].is_dir,
            old(self).nodes@.len() < u32::MAX,
            is_component(name@),
        ensures
            final(self).ok(),
            0 < id < final(self).nodes@.len(),
            final(self).nodes@[id as int].is_dir,
            final(self).nodes@[id as int].parent == parent,
            names_part(final(self).nodes@[id as int].name@, name@),
            final(self).nodes@.len() > old(self).nodes@.len() ==> id == old(self).nodes@.len(),
            final(self).nodes@.len() > old(self).nodes@.len() ==> names_exactly(final(self).nodes@[id as int].name@, name@)
                && counter_needed(final(self).nodes@, id as int, name@),
            grows(old(self).nodes@, final(self).nodes@),
            final(self).nodes@.len() <= old(self).nodes@.len() + 1,
            forall|i: int|
                old(self).nodes@.len() <= i < final(self).nodes@.len() ==> (#[trigger] final(self).nodes@[i]).entry is None
                    && final(self).nodes@[i].is_dir,
    {
        let key = lower_key_of(name.as_str());
        let key_string = string_from_chars(key.as_slice());
        match index_get(&self.index, parent, &key_string) {
            Some(id) => {
                if self.nodes[id as usize].is_dir {
                    assert(node_key(self.nodes@[id as int]) == key@);
                    proof {
                        reveal(names_part);
                    }
                    return id;
                }
                let (unique, unique_key) = self.unique_name(parent, name);
                proof {
                    reveal(names_part);
                }
                let ghost before = self.nodes@;
                let ghost clash = id as int;
                let new_id = self.add_node(parent, unique, unique_key, true, None, 0, 0);
                proof {
                    assert(before[clash].parent == parent);
                    assert(clash != parent as int);
                    assert(self.nodes@[clash] == before[clash]);
                    assert(node_key(before[clash]) == lower_key(name@));
                    assert(self.nodes@[clash].parent == self.nodes@[new_id as int].parent);
                }
                new_id
            },
            None => {
                proof {
                    reveal(names_part);
                }
                self.add_node(parent, name.clone(), key, true, None, 0, 0)
            },
        }
    }

    /// Records a directory entry on its directory node: its index and time.
    fn set_dir_entry(&mut self, id: u32, entry: u32, mtime: u64)
        requires
            old(self).ok(),
            0 < id < old(self).nodes@.len(),
        ensures
            final(self).ok(),
            final(self).nodes@.len() == old(self).nodes@.len(),
            final(self).nodes@[id as int].entry == Some(entry),
            final(self).nodes@[id as int].mtime == mtime,
            final(self).nodes@[id as int].name == old(self).nodes@[id as int].name,
            final(self).nodes@[id as int].parent == old(self).nodes@[id as int].parent,
            final(self).nodes@[id as int].is_dir == old(self).nodes@[id as int].is_dir,
            final(self).nodes@[id as int].size == old(self).nodes@[id as int].size,
            final(self).nodes@[id as int].children == old(self).nodes@[id as int].children,
            forall|i: int|
                0 <= i < old(self).nodes@.len() && i != id ==> final(self).nodes@[i] == old(self).nodes@[i],
            name_index(final(self).index) == name_index(old(self).index),
    {
        let ghost old_nodes = self.nodes@;
        self.nodes[id as usize].entry = Some(entry);
        self.nodes[id as usize].mtime = mtime;
        proof {
            let ns = self.nodes@;
            assert(forall|i: int| 0 <= i < ns.len() && i != id ==> ns[i] == old_nodes[i]);
            assert(ns[id as int].children == old_nodes[id as int].children);
            assert forall|i: int| 0 <= i < ns.len() implies node_key(#[trigger] ns[i]) == node_key(old_nodes[i]) by {}
            assert forall|i: int| 0 < i < ns.len() implies (#[trigger] ns[ns[i].parent as int]).children@.contains(
                i as u32,
            ) by {
                assert(old_nodes[old_nodes[i].parent as int].children@.contains(i as u32));
            }
            assert forall|p: int, j: int|
                0 <= p < ns.len() && 0 <= j < ns[p].children@.len() implies 0
                    < #[trigger] ns[p].children@[j] < ns.len() && ns[ns[p].children@[j] as int].parent
                    == p by {
                assert(old_nodes[p].children@[j] == ns[p].children@[j]);
            }
            assert forall|i: int| 0 < i < ns.len() implies (#[trigger] ns[i]).parent < i
                && ns[ns[i].parent as int].is_dir && is_component(ns[i].name@) by {
                assert(old_nodes[i].parent < i);
            }
            assert forall|p: int| 0 <= p < ns.len() implies (#[trigger] ns[p]).children@.no_duplicates() by {
                assert(old_nodes[p].children@.no_duplicates());
            }
            assert forall|i: int| 0 <= i < ns.len() implies (#[trigger] self.keys@[i])@ == node_key(ns[i]) by {
                assert(self.keys@[i]@ == node_key(old_nodes[i]));
            }
            let idx = name_index(self.index);
            assert forall|k: (u32, Seq<char>)| #[trigger] idx.dom().contains(k) implies 0 < idx[k]
                < ns.len() && ns[idx[k] as int].parent == k.0 && node_key(ns[idx[k] as int]) == k.1 by {
                assert(old_nodes[idx[k] as int].parent == k.0);
            }
            assert forall|i: int| 0 < i < ns.len() implies idx.dom().contains((#[trigger] ns[i].parent, node_key(ns[i])))
                && idx[(ns[i].parent, node_key(ns[i]))] == i by {
                assert(idx.dom().contains((old_nodes[i].parent, node_key(old_nodes[i]))));
            }
        }
    }
}

/// Sorting children keeps an arena linked: the children of each node are a
/// permutation of what they were.
pub proof fn lemma_permuted_children(before: Seq<Node>, after: Seq<Node>)
    requires
        nodes_linked(before),
        before.len() == after.len(),
        forall|i: int| 0 <= i < before.len() ==> same_payload(#[trigger] before[i], after[i]),
        forall|i: int|
            0 <= i < before.len() ==> (#[trigger] after[i]).children@.to_multiset()
                == before[i].children@.to_multiset(),
    ensures
        nodes_linked(after),
{
    broadcast use vstd::seq_lib::group_to_multiset_ensures;

    assert forall|i: int| 0 < i < after.len() implies (#[trigger] after[i]).parent < i
        && after[after[i].parent as int].is_dir && is_component(after[i].name@) by {
        assert(same_payload(before[i], after[i]));
        assert(same_payload(before[before[i].parent as int], after[after[i].parent as int]));
    }
    assert forall|p: int, j: int|
        0 <= p < after.len() && 0 <= j < after[p].children@.len() implies 0
            < #[trigger] after[p].children@[j] < after.len() && after[after[p].children@[j] as int].parent
            == p by {
        let c = after[p].children@[j];
        assert(after[p].children@.contains(c));
        assert(after[p].children@.to_multiset().count(c) > 0);
        assert(before[p].children@.contains(c));
        let jj = choose|jj: int| 0 <= jj < before[p].children@.len() && before[p].children@[jj] == c;
        assert(0 < before[p].children@[jj] < before.len());
        assert(same_payload(before[c as int], after[c as int]));
    }
    assert forall|i: int| 0 < i < after.len() implies (#[trigger] after[after[i].parent as int]).children@.contains(
        i as u32,
    ) by {
        let pi = before[i].parent as int;
        assert(same_payload(before[i], after[i]));
        assert(before[pi].children@.contains(i as u32));
        assert(before[pi].children@.to_multiset().count(i as u32) > 0);
        assert(after[pi].children@.to_multiset() == before[pi].children@.to_multiset());
    }
    assert(same_payload(before[0], after[0]));
}

/// After a sort by keys, the children of a directory whose siblings have
/// distinct keys are in strictly increasing order.
proof fn lemma_sorted_strict(
    ns: Seq<Node>,
    idx: Map<(u32, Seq<char>), u32>,
    p: int,
    sorted: Seq<u32>,
    keys: Seq<Vec<char>>,
)
    requires
        arena_indexed(ns, idx),
        0 <= p < ns.len(),
        ns[p].children@.no_duplicates(),
        sorted.to_multiset() == ns[p].children@.to_multiset(),
        keys.len() == ns.len(),
        forall|i: int| 0 <= i < ns.len() ==> (#[trigger] keys[i])@ == node_key(ns[i]),
        forall|j: int, k: int|
            0 <= j < k < sorted.len() ==> !lex_lt(
                keys[#[trigger] sorted[k] as int]@,
                keys[#[trigger] sorted[j] as int]@,
            ),
    ensures
        sorted.no_duplicates(),
        forall|j: int, k: int|
            0 <= j < k < sorted.len() ==> lex_lt(
                node_key(ns[#[trigger] sorted[j] as int]),
                node_key(ns[#[trigger] sorted[k] as int]),
            ),
{
    reveal(arena_indexed);
    broadcast use vstd::seq_lib::group_to_multiset_ensures;

    ns[p].children@.lemma_multiset_has_no_duplicates();
    sorted.lemma_multiset_has_no_duplicates_conv();
    assert forall|j: int, k: int| 0 <= j < k < sorted.len() implies lex_lt(
        node_key(ns[#[trigger] sorted[j] as int]),
        node_key(ns[#[trigger] sorted[k] as int]),
    ) by {
        let cj = sorted[j];
        let ck = sorted[k];
        assert(sorted.contains(cj));
        assert(sorted.contains(ck));
        assert(ns[p].children@.to_multiset().count(cj) > 0);
        assert(ns[p].children@.to_multiset().count(ck) > 0);
        let jj = choose|jj: int| 0 <= jj < ns[p].children@.len() && ns[p].children@[jj] == cj;
        let kk = choose|kk: int| 0 <= kk < ns[p].children@.len() && ns[p].children@[kk] == ck;
        assert(0 < ns[p].children@[jj] < ns.len());
        assert(0 < ns[p].children@[kk] < ns.len());
        let key_j = node_key(ns[cj as int]);
        let key_k = node_key(ns[ck as int]);
        assert(keys[cj as int]@ == key_j);
        assert(keys[ck as int]@ == key_k);
        lemma_lex_total(key_j, key_k);
        if key_j == key_k {
            assert(idx[(ns[cj as int].parent, node_key(ns[cj as int]))] == cj);
            assert(idx[(ns[ck as int].parent, node_key(ns[ck as int]))] == ck);
        }
    }
}

impl Builder {
    /// Sorts every directory's children by key — once, at the end, which is
    /// cheaper than keeping order on every insertion — and hands out the tree.
    fn finish(self) -> (t: Tree)
        requires
            self.ok(),
        ensures
            t.wf(),
            t@.len() == self.nodes@.len(),
            forall|i: int| 0 <= i < t@.len() ==> same_payload(#[trigger] self.nodes@[i], t@[i]),
    {
        let ghost ns0 = self.nodes@;
        let ghost idx = name_index(self.index);
        let Builder { nodes, keys, index: _ } = self;
        let mut nodes = nodes;
        proof {
            reveal(arena_indexed);
            assert(arena_indexed(ns0, idx));
        }
        let mut id: usize = 0;
        while id < nodes.len()
            invariant
                arena_indexed(ns0, idx),
                nodes_linked(ns0),
                keys@.len() == ns0.len(),
                forall|i: int| 0 <= i < ns0.len() ==> (#[trigger] keys@[i])@ == node_key(ns0[i]),
                forall|p: int| 0 <= p < ns0.len() ==> (#[trigger] ns0[p]).children@.no_duplicates(),
                nodes@.len() == ns0.len(),
                forall|i: int| 0 <= i < ns0.len() ==> same_payload(#[trigger] ns0[i], nodes@[i]),
                forall|i: int|
                    0 <= i < ns0.len() ==> (#[trigger] nodes@[i]).children@.to_multiset()
                        == ns0[i].children@.to_multiset(),
                forall|i: int| id <= i < ns0.len() ==> (#[trigger] nodes@[i]).children@ == ns0[i].children@,
                forall|p: int, j: int, k: int|
                    0 <= p < id && 0 <= j < k < nodes@[p].children@.len() ==> lex_lt(
                        node_key(ns0[#[trigger] nodes@[p].children@[j] as int]),
                        node_key(ns0[#[trigger] nodes@[p].children@[k] as int]),
                    ),
            decreases nodes@.len() - id,
        {
            let ghost before = nodes@;
            proof {
                assert forall|j: int| 0 <= j < nodes@[id as int].children@.len() implies nodes@[id as int].children@[j]
                    < keys@.len() by {
                    assert(ns0[id as int].children@[j] < ns0.len());
                }
            }
            sort_by_keys(&mut nodes[id].children, &keys);
            proof {
                lemma_sorted_strict(ns0, idx, id as int, nodes@[id as int].children@, keys@);
                assert forall|i: int| 0 <= i < ns0.len() && i != id implies nodes@[i] == before[i] by {}
            }
            id = id + 1;
        }
        proof {
            lemma_permuted_children(ns0, nodes@);
            assert forall|p: int, j: int, k: int|
                0 <= p < nodes@.len() && 0 <= j < k < nodes@[p].children@.len() implies lex_lt(
                    node_key(nodes@[#[trigger] nodes@[p].children@[j] as int]),
                    node_key(nodes@[#[trigger] nodes@[p].children@[k] as int]),
                ) by {
                let cj = nodes@[p].children@[j] as int;
                let ck = nodes@[p].children@[k] as int;
                assert(0 < cj < nodes@.len());
                assert(0 < ck < nodes@.len());
                assert(same_payload(ns0[cj], nodes@[cj]));
                assert(same_payload(ns0[ck], nodes@[ck]));
            }
        }
        Tree { nodes }
    }
}

/// What the nodes say of the entries before `done`: a node that names an
/// entry takes its kind and time from it, a file its size too; every file
/// names one, and no two files name the same.
pub open spec fn describes_entries(ns: Seq<Node>, entries: Seq<EntryMeta>, done: int) -> bool {
    &&& forall|n: int|
        0 <= n < ns.len() && (#[trigger] ns[n]).entry is Some ==> {
            let e = ns[n].entry->0 as int;
            &&& 0 <= e < done
            &&& entries[e].is_dir == ns[n].is_dir
            &&& entries[e].mtime == ns[n].mtime
            &&& !ns[n].is_dir ==> entries[e].size == ns[n].size
        }
    &&& forall|n: int| 0 <= n < ns.len() && !(#[trigger] ns[n]).is_dir ==> ns[n].entry is Some
    &&& forall|a: int, b: int|
        0 <= a < b < ns.len() && !(#[trigger] ns[a]).is_dir && !(#[trigger] ns[b]).is_dir
            ==> ns[a].entry != ns[b].entry
}

/// Whether a node's name stands for the path component `part`: the same
/// ignoring case, or — where the name was taken by a sibling — `part` with
/// a counter (`spec_disambiguate`).
#[verifier::opaque]
pub open spec fn names_part(name: Seq<char>, part: Seq<char>) -> bool {
    lower_key(name) == lower_key(part) || exists|k: nat| k >= 1 && name == spec_disambiguate(part, k)
}

/// Whether node `id` lies at the path `parts`: its names from the root down
/// stand for the components one by one.
#[verifier::opaque]
pub open spec fn placed(ns: Seq<Node>, id: int, parts: Seq<Seq<char>>) -> bool {
    let a = ancestry(ns, id);
    &&& a.len() == parts.len()
    &&& forall|j: int| 0 <= j < parts.len() ==> names_part(#[trigger] a[j], parts[j])
}

/// Every node that names an entry lies at that entry's path.
#[verifier::opaque]
pub open spec fn entries_placed(ns: Seq<Node>, entries: Seq<EntryMeta>) -> bool {
    forall|n: int|
        0 <= n < ns.len() && (#[trigger] ns[n]).entry is Some && (ns[n].entry->0 as int) < entries.len()
            ==> placed(ns, n, spec_split_path(entries[ns[n].entry->0 as int].path@))
}

/// Two nodes with the same name under the same parent.
pub open spec fn same_place(a: Node, b: Node) -> bool {
    a.name == b.name && a.parent == b.parent
}

/// Nodes whose names and parents stay put keep their ancestry.
proof fn lemma_ancestry_kept(before: Seq<Node>, after: Seq<Node>, id: int)
    requires
        nodes_linked(before),
        before.len() <= after.len(),
        forall|i: int| 0 <= i < before.len() ==> same_place(#[trigger] before[i], after[i]),
        0 <= id < before.len(),
    ensures
        ancestry(after, id) == ancestry(before, id),
    decreases id,
{
    assert(same_place(before[id], after[id]));
    if id > 0 {
        lemma_ancestry_kept(before, after, before[id].parent as int);
    }
}

/// Where nodes keep their places, the entries stay placed, as long as every
/// node whose entry is new lies at that entry's path.
proof fn lemma_placed_kept(before: Seq<Node>, after: Seq<Node>, entries: Seq<EntryMeta>)
    requires
        nodes_linked(before),
        before.len() <= after.len(),
        forall|i: int| 0 <= i < before.len() ==> same_place(#[trigger] before[i], after[i]),
        forall|i: int|
            0 <= i < after.len() && (i >= before.len() || (#[trigger] after[i]).entry != before[i].entry)
                && after[i].entry is Some && (after[i].entry->0 as int) < entries.len() ==> placed(
                after,
                i,
                spec_split_path(entries[after[i].entry->0 as int].path@),
            ),
        entries_placed(before, entries),
    ensures
        entries_placed(after, entries),
{
    reveal(entries_placed);
    reveal(placed);
    assert forall|n: int|
        0 <= n < after.len() && (#[trigger] after[n]).entry is Some && (after[n].entry->0 as int) < entries.len()
            implies placed(after, n, spec_split_path(entries[after[n].entry->0 as int].path@)) by {
        if n < before.len() && after[n].entry == before[n].entry {
            assert(same_place(before[n], after[n]));
            lemma_ancestry_kept(before, after, n);
        }
    }
}

/// A child named for `part` of a node at `parts` lies at `parts` + `part`.
proof fn lemma_placed_child(ns: Seq<Node>, parent: int, id: int, parts: Seq<Seq<char>>, part: Seq<char>)
    requires
        nodes_linked(ns),
        0 < id < ns.len(),
        ns[id].parent == parent,
        placed(ns, parent, parts),
        names_part(ns[id].name@, part),
    ensures
        placed(ns, id, parts.push(part)),
{
    reveal(placed);
    assert(ancestry(ns, id) == ancestry(ns, parent).push(ns[id].name@));
    let a = ancestry(ns, id);
    assert forall|j: int| 0 <= j < parts.push(part).len() implies names_part(#[trigger] a[j], parts.push(part)[j]) by {
        if j < parts.len() {
            assert(a[j] == ancestry(ns, parent)[j]);
        }
    }
}

/// A file node added under a node at `prefix`, named for `part`, with entry
/// `i` whose path is `prefix` + `part`, keeps the entries placed.
proof fn lemma_file_placed(
    before: Seq<Node>,
    after: Seq<Node>,
    entries: Seq<EntryMeta>,
    cur: int,
    prefix: Seq<Seq<char>>,
    part: Seq<char>,
    i: int,
)
    requires
        nodes_linked(before),
        nodes_linked(after),
        after.len() == before.len() + 1,
        0 <= cur < before.len(),
        forall|n: int| 0 <= n < before.len() && n != cur ==> after[n] == before[n],
        same_place(before[cur], after[cur]),
        after[cur].entry == before[cur].entry,
        after[before.len() as int].parent == cur,
        names_part(after[before.len() as int].name@, part),
        after[before.len() as int].entry == Some(i as u32),
        0 <= i < entries.len(),
        i < u32::MAX,
        spec_split_path(entries[i].path@) == prefix.push(part),
        placed(before, cur, prefix),
        entries_placed(before, entries),
    ensures
        entries_placed(after, entries),
{
    let id = before.len() as int;
    assert forall|n: int| 0 <= n < before.len() implies same_place(#[trigger] before[n], after[n]) by {
        if n != cur {
            assert(after[n] == before[n]);
        }
    }
    lemma_ancestry_kept(before, after, cur);
    reveal(placed);
    assert(placed(after, cur, prefix));
    lemma_placed_child(after, cur, id, prefix, part);
    assert forall|n: int|
        0 <= n < after.len() && (n >= before.len() || (#[trigger] after[n]).entry != before[n].entry)
            && after[n].entry is Some && (after[n].entry->0 as int) < entries.len() implies placed(
            after,
            n,
            spec_split_path(entries[after[n].entry->0 as int].path@),
        ) by {
        if n < before.len() && n != cur {
            assert(after[n] == before[n]);
        }
    }
    lemma_placed_kept(before, after, entries);
}

/// A directory reached or made under a node at `prefix`, named for `part`,
/// lies at `prefix` + `part`; nothing else moves.
proof fn lemma_dir_placed(
    before: Seq<Node>,
    after: Seq<Node>,
    entries: Seq<EntryMeta>,
    prev: int,
    id: int,
    prefix: Seq<Seq<char>>,
    part: Seq<char>,
)
    requires
        nodes_linked(before),
        nodes_linked(after),
        grows(before, after),
        forall|n: int| before.len() <= n < after.len() ==> (#[trigger] after[n]).entry is None,
        0 <= prev < before.len(),
        0 < id < after.len(),
        after[id].parent == prev,
        names_part(after[id].name@, part),
        placed(before, prev, prefix),
        entries_placed(before, entries),
    ensures
        entries_placed(after, entries),
        placed(after, id, prefix.push(part)),
{
    assert forall|n: int| 0 <= n < before.len() implies same_place(#[trigger] before[n], after[n]) by {
        assert(same_payload(before[n], after[n]));
    }
    assert forall|n: int| 0 <= n < before.len() implies (#[trigger] after[n]).entry == before[n].entry by {
        assert(same_payload(before[n], after[n]));
    }
    lemma_ancestry_kept(before, after, prev);
    reveal(placed);
    assert(placed(after, prev, prefix));
    lemma_placed_child(after, prev, id, prefix, part);
    lemma_placed_kept(before, after, entries);
}

/// Recording entry `i`, whose path is `parts`, on a directory at `parts`
/// keeps the entries placed.
proof fn lemma_dir_entry_placed(
    before: Seq<Node>,
    after: Seq<Node>,
    entries: Seq<EntryMeta>,
    cur: int,
    parts: Seq<Seq<char>>,
    i: int,
)
    requires
        nodes_linked(before),
        after.len() == before.len(),
        0 <= cur < before.len(),
        forall|n: int| 0 <= n < before.len() && n != cur ==> after[n] == before[n],
        same_place(before[cur], after[cur]),
        after[cur].entry == Some(i as u32),
        0 <= i < entries.len(),
        i < u32::MAX,
        spec_split_path(entries[i].path@) == parts,
        placed(before, cur, parts),
        entries_placed(before, entries),
    ensures
        entries_placed(after, entries),
{
    assert forall|n: int| 0 <= n < before.len() implies same_place(#[trigger] before[n], after[n]) by {
        if n != cur {
            assert(after[n] == before[n]);
        }
    }
    lemma_ancestry_kept(before, after, cur);
    reveal(placed);
    assert forall|n: int|
        0 <= n < after.len() && (n >= before.len() || (#[trigger] after[n]).entry != before[n].entry)
            && after[n].entry is Some && (after[n].entry->0 as int) < entries.len() implies placed(
            after,
            n,
            spec_split_path(entries[after[n].entry->0 as int].path@),
        ) by {
        if n != cur {
            assert(after[n] == before[n]);
        }
    }
    lemma_placed_kept(before, after, entries);
}

/// A name `unique_name` chose for `part` stands for it.
proof fn lemma_unique_names_part(name: Seq<char>, part: Seq<char>)
    requires
        name != part ==> exists|n: nat| n >= 1 && name == spec_disambiguate(part, n),
    ensures
        names_part(name, part),
{
    reveal(names_part);
}

/// Whether node `n` leads to a node that names an entry: `n` itself or a
/// node below it.
pub open spec fn needed(ns: Seq<Node>, n: int) -> bool {
    exists|m: int| 0 < m < ns.len() && (#[trigger] ns[m]).entry is Some && is_desc(ns, m, n)
}

/// No node but the root is there for nothing: every one lies on the way to
/// a node that names an entry, so directories are made only along entries'
/// paths.
#[verifier::opaque]
pub open spec fn all_needed(ns: Seq<Node>) -> bool {
    forall|n: int| 0 < n < ns.len() ==> #[trigger] needed(ns, n)
}

/// Descent survives where parents stay put.
proof fn lemma_desc_kept(before: Seq<Node>, after: Seq<Node>, m: int, n: int)
    requires
        before.len() <= after.len(),
        forall|i: int| 0 <= i < before.len() ==> same_place(#[trigger] before[i], after[i]),
        0 <= m < before.len(),
        is_desc(before, m, n),
    ensures
        is_desc(after, m, n),
    decreases m,
{
    assert(same_place(before[m], after[m]));
    if m != n {
        lemma_desc_kept(before, after, before[m].parent as int, n);
    }
}

/// A node needed before is needed after, where parents stay put and no
/// entry is taken away.
proof fn lemma_needed_kept(before: Seq<Node>, after: Seq<Node>, n: int)
    requires
        before.len() <= after.len(),
        forall|i: int| 0 <= i < before.len() ==> same_place(#[trigger] before[i], after[i]),
        forall|i: int| 0 <= i < before.len() && (#[trigger] before[i]).entry is Some ==> after[i].entry is Some,
        needed(before, n),
    ensures
        needed(after, n),
{
    let m = choose|m: int| 0 < m < before.len() && (#[trigger] before[m]).entry is Some && is_desc(before, m, n);
    lemma_desc_kept(before, after, m, n);
    assert(after[m].entry is Some);
}

/// One step of placing an entry: the old nodes stay needed, and every node
/// made during the placement lies above the node reached now.
proof fn lemma_chain_step(
    start: int,
    before: Seq<Node>,
    after: Seq<Node>,
    cur: int,
    next: int,
)
    requires
        0 <= start <= before.len() <= after.len(),
        forall|i: int| 0 <= i < before.len() ==> same_place(#[trigger] before[i], after[i]),
        forall|i: int| 0 <= i < before.len() && (#[trigger] before[i]).entry is Some ==> after[i].entry is Some,
        forall|n: int| 0 < n < start ==> #[trigger] needed(before, n),
        forall|n: int| start <= n < before.len() ==> is_desc(before, cur, n),
        0 <= cur < before.len(),
        0 < next < after.len(),
        next == cur || (after[next].parent == cur && cur < next),
        after.len() <= before.len() + 1,
        after.len() > before.len() ==> next == before.len(),
    ensures
        forall|n: int| 0 < n < start ==> #[trigger] needed(after, n),
        forall|n: int| start <= n < after.len() ==> is_desc(after, next, n),
{
    assert forall|n: int| 0 < n < start implies #[trigger] needed(after, n) by {
        lemma_needed_kept(before, after, n);
    }
    assert forall|n: int| start <= n < after.len() implies is_desc(after, next, n) by {
        if n < before.len() {
            lemma_desc_kept(before, after, cur, n);
            if next != cur {
                assert(is_desc(after, cur, cur));
                assert(is_desc(after, next, cur));
                lemma_desc_trans(after, next, cur, n);
            }
        } else {
            assert(n == next);
        }
    }
}

/// The end of placing an entry: the node reached names an entry, so every
/// node made on the way is needed.
proof fn lemma_chain_done(start: int, ns: Seq<Node>, last: int)
    requires
        0 <= start <= ns.len(),
        forall|n: int| 0 < n < start ==> #[trigger] needed(ns, n),
        forall|n: int| start <= n < ns.len() ==> is_desc(ns, last, n),
        0 < last < ns.len(),
        ns[last].entry is Some,
    ensures
        all_needed(ns),
{
    reveal(all_needed);
    assert forall|n: int| 0 < n < ns.len() implies #[trigger] needed(ns, n) by {
        if n >= start {
            assert(is_desc(ns, last, n));
        }
    }
}

/// A name spelled exactly as the path component `part`, or as `part` with a
/// counter.
pub open spec fn names_exactly(name: Seq<char>, part: Seq<char>) -> bool {
    name == part || exists|k: nat| k >= 1 && name == spec_disambiguate(part, k)
}

/// Where node `n`'s name is not `part` itself, a sibling holds `part`'s key:
/// a file, if `n` is a directory (a directory is renamed only for a file in
/// its way).
pub open spec fn counter_needed(ns: Seq<Node>, n: int, part: Seq<char>) -> bool {
    ns[n].name@ != part ==> exists|m: int|
        0 < m < ns.len() && m != n && (#[trigger] ns[m]).parent == ns[n].parent && node_key(ns[m])
            == lower_key(part) && (ns[n].is_dir ==> !ns[m].is_dir)
}

/// Node `n` was made for the path `parts`: it lies at a prefix of it, its
/// own name spelled as the component at its depth.
#[verifier::opaque]
pub open spec fn made_for(ns: Seq<Node>, n: int, parts: Seq<Seq<char>>) -> bool {
    let d = ancestry(ns, n).len();
    &&& 0 < d <= parts.len()
    &&& placed(ns, ns[n].parent as int, parts.take(d - 1))
    &&& names_exactly(ns[n].name@, parts[d - 1])
    &&& counter_needed(ns, n, parts[d - 1])
}

/// Every node but the root was made for the path of an entry before `done`:
/// names are spelled as the archive spells them, by the first entry whose
/// path leads there, a counter added only where a name is taken.
#[verifier::opaque]
pub open spec fn names_spelled(ns: Seq<Node>, entries: Seq<EntryMeta>, done: int) -> bool {
    forall|n: int| 0 < n < ns.len() ==> #[trigger] made_for_some(ns, entries, n, done)
}

/// No node naming an entry before `e` lies in node `n`'s subtree.
pub open spec fn none_before_below(ns: Seq<Node>, n: int, e: int) -> bool {
    forall|m: int|
        0 <= m < ns.len() && ns[m].entry is Some && (ns[m].entry->0 as int) < e ==> !#[trigger] is_desc(ns, m, n)
}

/// Node `n` was made for the path of entry `e`, before `done`, and no node
/// of an earlier entry lies below it: `e` is the first entry that led there.
pub open spec fn made_for_some(ns: Seq<Node>, entries: Seq<EntryMeta>, n: int, done: int) -> bool {
    exists|e: int|
        0 <= e < entries.len() && e < done && #[trigger] made_for(ns, n, spec_split_path(entries[e].path@))
            && none_before_below(ns, n, e)
}

/// Where nodes keep their places and kinds, nodes stay made for their paths.
proof fn lemma_made_kept(before: Seq<Node>, after: Seq<Node>, n: int, parts: Seq<Seq<char>>)
    requires
        nodes_linked(before),
        before.len() <= after.len(),
        forall|i: int| 0 <= i < before.len() ==> same_place(#[trigger] before[i], after[i]) && after[i].is_dir
            == before[i].is_dir,
        0 < n < before.len(),
        made_for(before, n, parts),
    ensures
        made_for(after, n, parts),
{
    reveal(made_for);
    reveal(placed);
    lemma_ancestry_kept(before, after, n);
    let p = before[n].parent as int;
    assert(same_place(before[n], after[n]));
    lemma_ancestry_kept(before, after, p);
    let d = ancestry(before, n).len();
    if before[n].name@ != parts[d - 1] {
        let m = choose|m: int|
            0 < m < before.len() && m != n && (#[trigger] before[m]).parent == before[n].parent && node_key(
                before[m],
            ) == lower_key(parts[d - 1]) && (before[n].is_dir ==> !before[m].is_dir);
        assert(same_place(before[m], after[m]));
        assert(after[m].parent == after[n].parent);
    }
}

/// Descent among old nodes is what it was, where parents stay put.
proof fn lemma_desc_back(before: Seq<Node>, after: Seq<Node>, m: int, n: int)
    requires
        before.len() <= after.len(),
        forall|i: int| 0 <= i < before.len() ==> same_place(#[trigger] before[i], after[i]),
        0 <= m < before.len(),
        is_desc(after, m, n),
    ensures
        is_desc(before, m, n),
    decreases m,
{
    assert(same_place(before[m], after[m]));
    if m != n {
        lemma_desc_back(before, after, before[m].parent as int, n);
    }
}

/// Where nodes keep their places and kinds, every node keeps its entry or
/// takes one of `done - 1` or later, and every new node was made for an
/// entry's path, the names stay spelled.
proof fn lemma_spelled_kept(before: Seq<Node>, after: Seq<Node>, entries: Seq<EntryMeta>, done: int)
    requires
        nodes_linked(before),
        before.len() <= after.len(),
        forall|i: int| 0 <= i < before.len() ==> same_place(#[trigger] before[i], after[i]) && after[i].is_dir
            == before[i].is_dir,
        forall|i: int|
            0 <= i < after.len() && (#[trigger] after[i]).entry is Some && (i >= before.len() || after[i].entry
                != before[i].entry) ==> (after[i].entry->0 as int) + 1 >= done,
        forall|n: int| before.len() <= n < after.len() ==> #[trigger] made_for_some(after, entries, n, done),
        names_spelled(before, entries, done),
    ensures
        names_spelled(after, entries, done),
{
    reveal(names_spelled);
    assert forall|n: int| 0 < n < after.len() implies #[trigger] made_for_some(after, entries, n, done) by {
        if n < before.len() {
            assert(made_for_some(before, entries, n, done));
            let e = choose|e: int|
                0 <= e < entries.len() && e < done && #[trigger] made_for(before, n, spec_split_path(entries[e].path@))
                    && none_before_below(before, n, e);
            lemma_made_kept(before, after, n, spec_split_path(entries[e].path@));
            assert forall|m: int|
                0 <= m < after.len() && after[m].entry is Some && (after[m].entry->0 as int) < e
                    implies !#[trigger] is_desc(after, m, n) by {
                if m < before.len() && after[m].entry == before[m].entry {
                    if is_desc(after, m, n) {
                        lemma_desc_back(before, after, m, n);
                    }
                }
            }
            assert(none_before_below(after, n, e));
        }
    }
}

/// Names spelled by entries before `d1` are spelled by entries before any
/// later bound.
proof fn lemma_spelled_mono(ns: Seq<Node>, entries: Seq<EntryMeta>, d1: int, d2: int)
    requires
        names_spelled(ns, entries, d1),
        d1 <= d2,
    ensures
        names_spelled(ns, entries, d2),
{
    reveal(names_spelled);
    assert forall|n: int| 0 < n < ns.len() implies #[trigger] made_for_some(ns, entries, n, d2) by {
        assert(made_for_some(ns, entries, n, d1));
    }
}

/// Finding or making the directory for `part` keeps the names spelled.
proof fn lemma_dir_spelled(
    before: Seq<Node>,
    after: Seq<Node>,
    entries: Seq<EntryMeta>,
    done: int,
    cur: int,
    id: int,
    prefix: Seq<Seq<char>>,
    part: Seq<char>,
    e: int,
)
    requires
        nodes_linked(before),
        nodes_linked(after),
        grows(before, after),
        after.len() <= before.len() + 1,
        after.len() > before.len() ==> id == before.len() && after[id].is_dir && after[id].parent == cur
            && names_exactly(after[id].name@, part) && counter_needed(after, id, part) && after[id].entry is None,
        0 <= cur < before.len(),
        placed(before, cur, prefix),
        0 <= e < entries.len(),
        e < done <= u32::MAX,
        prefix.len() < spec_split_path(entries[e].path@).len(),
        spec_split_path(entries[e].path@).take(prefix.len() + 1int) == prefix.push(part),
        names_spelled(before, entries, done),
    ensures
        names_spelled(after, entries, done),
{
    assert forall|n: int| 0 <= n < before.len() implies same_place(#[trigger] before[n], after[n]) && after[n].is_dir
        == before[n].is_dir by {
        assert(same_payload(before[n], after[n]));
    }
    if after.len() > before.len() {
        lemma_placed_frame(before, after, cur, prefix);
        lemma_made_new(after, cur, id, prefix, part, spec_split_path(entries[e].path@));
        lemma_newest_alone(after, id, e);
        assert(made_for_some(after, entries, id, done));
    }
    assert forall|n: int|
        0 <= n < after.len() && (#[trigger] after[n]).entry is Some && (n >= before.len() || after[n].entry
            != before[n].entry) implies (after[n].entry->0 as int) + 1 >= done by {
        if n < before.len() {
            assert(same_payload(before[n], after[n]));
        }
    }
    lemma_spelled_kept(before, after, entries, done);
}

/// The newest node has nothing below it but itself.
proof fn lemma_newest_alone(ns: Seq<Node>, id: int, e: int)
    requires
        id == ns.len() - 1,
        0 < id,
        ns[id].entry is None || ns[id].entry == Some(e as u32),
        0 <= e < u32::MAX,
    ensures
        none_before_below(ns, id, e),
{
    assert forall|m: int|
        0 <= m < ns.len() && ns[m].entry is Some && (ns[m].entry->0 as int) < e
            implies !#[trigger] is_desc(ns, m, id) by {
        if is_desc(ns, m, id) {
            lemma_desc_le(ns, m, id);
        }
    }
}

/// A node under a node at `prefix`, spelled for `part`, is made for
/// `prefix` + `part` and every longer path.
proof fn lemma_made_new(ns: Seq<Node>, cur: int, id: int, prefix: Seq<Seq<char>>, part: Seq<char>, full: Seq<Seq<char>>)
    requires
        nodes_linked(ns),
        0 < id < ns.len(),
        ns[id].parent == cur,
        placed(ns, cur, prefix),
        names_exactly(ns[id].name@, part),
        counter_needed(ns, id, part),
        prefix.len() < full.len(),
        full.take(prefix.len() + 1int) == prefix.push(part),
    ensures
        made_for(ns, id, full),
{
    reveal(made_for);
    reveal(placed);
    assert(ancestry(ns, id) == ancestry(ns, cur).push(ns[id].name@));
    let d: int = prefix.len() + 1int;
    assert(full.take(d - 1) =~= prefix) by {
        assert(full.take(d - 1) =~= full.take(d).take(d - 1));
        assert(prefix.push(part).take(d - 1) =~= prefix);
    }
    assert(full[d - 1] == full.take(d)[d - 1]);
}

/// Where nodes keep their places, a node keeps the path it lies at.
proof fn lemma_placed_frame(before: Seq<Node>, after: Seq<Node>, cur: int, prefix: Seq<Seq<char>>)
    requires
        nodes_linked(before),
        before.len() <= after.len(),
        forall|i: int| 0 <= i < before.len() ==> same_place(#[trigger] before[i], after[i]) && after[i].is_dir
            == before[i].is_dir,
        0 <= cur < before.len(),
        placed(before, cur, prefix),
    ensures
        placed(after, cur, prefix),
{
    reveal(placed);
    assert forall|i: int| 0 <= i < before.len() implies same_place(#[trigger] before[i], after[i]) by {}
    lemma_ancestry_kept(before, after, cur);
}

/// The root lies at the empty path.
proof fn lemma_root_placed(ns: Seq<Node>)
    ensures
        placed(ns, 0, Seq::empty()),
{
    reveal(placed);
}

/// The file node of entry `e`, if there is one.
pub open spec fn has_file_of(ns: Seq<Node>, e: int) -> bool {
    exists|n: int| 0 <= n < ns.len() && !(#[trigger] ns[n]).is_dir && ns[n].entry == Some(e as u32)
}

/// Entry `e` has a directory node at its path, spelled by an entry no later
/// than `e`.
pub open spec fn has_dir_at(ns: Seq<Node>, entries: Seq<EntryMeta>, e: int) -> bool {
    exists|m: int|
        0 < m < ns.len() && ns[m].is_dir && #[trigger] placed(ns, m, spec_split_path(entries[e].path@))
            && made_for_some(ns, entries, m, e + 1)
}

/// Every directory entry before `done` with a path has its directory node,
/// unless the arena ran out of room for it.
pub open spec fn dirs_kept(ns: Seq<Node>, entries: Seq<EntryMeta>, done: int) -> bool {
    forall|e: int|
        0 <= e < done && (#[trigger] entries[e]).is_dir && spec_split_path(entries[e].path@).len() > 0
            ==> has_dir_at(ns, entries, e) || ns.len() + spec_split_path(entries[e].path@).len() >= u32::MAX
}

/// From `before` to `after` nodes keep their places and kinds, and every node
/// that is new or names another entry names entry `i`.
pub open spec fn entries_framed(before: Seq<Node>, after: Seq<Node>, i: int) -> bool {
    &&& before.len() <= after.len()
    &&& forall|n: int|
        0 <= n < before.len() ==> same_place(#[trigger] before[n], after[n]) && after[n].is_dir == before[n].is_dir
    &&& forall|n: int|
        0 <= n < after.len() && (#[trigger] after[n]).entry is Some && (n >= before.len() || after[n].entry
            != before[n].entry) ==> after[n].entry == Some(i as u32)
}

proof fn lemma_framed_trans(a: Seq<Node>, b: Seq<Node>, c: Seq<Node>, i: int)
    requires
        entries_framed(a, b, i),
        entries_framed(b, c, i),
    ensures
        entries_framed(a, c, i),
{
    assert forall|n: int| 0 <= n < a.len() implies same_place(#[trigger] a[n], c[n]) && c[n].is_dir == a[n].is_dir by {
        assert(same_place(a[n], b[n]));
        assert(same_place(b[n], c[n]));
    }
    assert forall|n: int|
        0 <= n < c.len() && (#[trigger] c[n]).entry is Some && (n >= a.len() || c[n].entry != a[n].entry)
            implies c[n].entry == Some(i as u32) by {
        if n < b.len() && c[n].entry == b[n].entry {
            assert(b[n].entry is Some);
        }
    }
}

/// Placing entry `i` keeps the directory entries before it, and keeps `i`
/// itself where it is a directory.
proof fn lemma_dir_entry_kept(before: Seq<Node>, after: Seq<Node>, entries: Seq<EntryMeta>, i: int)
    requires
        nodes_linked(before),
        entries_framed(before, after, i),
        0 <= i < entries.len() < u32::MAX,
        dirs_kept(before, entries, i),
        entries_placed(after, entries),
        names_spelled(after, entries, i + 1),
        entries[i].is_dir ==> exists|m: int| 0 < m < after.len() && (#[trigger] after[m]).is_dir && after[m].entry == Some(i as u32),
    ensures
        dirs_kept(after, entries, i + 1),
{
    lemma_dirs_kept(before, after, entries, i, i + 1);
    if entries[i].is_dir {
        lemma_dir_entry_here(after, entries, i);
    }
    lemma_dirs_extend(after, entries, i);
}

/// A directory entry whose node names it has its directory node.
proof fn lemma_dir_entry_here(ns: Seq<Node>, entries: Seq<EntryMeta>, i: int)
    requires
        0 <= i < entries.len() < u32::MAX,
        entries_placed(ns, entries),
        names_spelled(ns, entries, i + 1),
        exists|m: int| 0 < m < ns.len() && (#[trigger] ns[m]).is_dir && ns[m].entry == Some(i as u32),
    ensures
        has_dir_at(ns, entries, i),
{
    let m = choose|m: int| 0 < m < ns.len() && (#[trigger] ns[m]).is_dir && ns[m].entry == Some(i as u32);
    assert(placed(ns, m, spec_split_path(entries[i].path@))) by {
        reveal(entries_placed);
        assert(ns[m].entry is Some && (ns[m].entry->0 as int) < entries.len());
    }
    assert(made_for_some(ns, entries, m, i + 1)) by {
        reveal(names_spelled);
    }
}

/// The directory entries kept before `i`, and `i` kept too where it is a
/// directory entry with a path, are those kept before `i + 1`.
proof fn lemma_dirs_extend(ns: Seq<Node>, entries: Seq<EntryMeta>, i: int)
    requires
        0 <= i,
        dirs_kept(ns, entries, i),
        entries[i].is_dir ==> has_dir_at(ns, entries, i),
    ensures
        dirs_kept(ns, entries, i + 1),
{
    assert forall|e: int|
        0 <= e < i + 1 && (#[trigger] entries[e]).is_dir && spec_split_path(entries[e].path@).len() > 0 implies has_dir_at(
        ns,
        entries,
        e,
    ) || ns.len() + spec_split_path(entries[e].path@).len() >= u32::MAX by {
        if e < i {
            assert(dirs_kept(ns, entries, i));
        }
    }
}

/// An entry left out for want of a path or of room keeps the directory
/// entries kept.
proof fn lemma_dir_entry_skipped(ns: Seq<Node>, entries: Seq<EntryMeta>, i: int)
    requires
        dirs_kept(ns, entries, i),
        spec_split_path(entries[i].path@).len() == 0 || ns.len() + spec_split_path(entries[i].path@).len() >= u32::MAX,
    ensures
        dirs_kept(ns, entries, i + 1),
{
}

/// One node stays made for its first entry's path where nodes keep their
/// places and kinds and every node keeps its entry or takes a later one.
proof fn lemma_made_some_kept(
    before: Seq<Node>,
    after: Seq<Node>,
    entries: Seq<EntryMeta>,
    n: int,
    d: int,
    done: int,
)
    requires
        nodes_linked(before),
        before.len() <= after.len(),
        forall|i: int| 0 <= i < before.len() ==> same_place(#[trigger] before[i], after[i]) && after[i].is_dir
            == before[i].is_dir,
        forall|i: int|
            0 <= i < after.len() && (#[trigger] after[i]).entry is Some && (i >= before.len() || after[i].entry
                != before[i].entry) ==> (after[i].entry->0 as int) + 1 >= done,
        0 < n < before.len(),
        d <= done,
        made_for_some(before, entries, n, d),
    ensures
        made_for_some(after, entries, n, d),
{
    let e = choose|e: int|
        0 <= e < entries.len() && e < d && #[trigger] made_for(before, n, spec_split_path(entries[e].path@))
            && none_before_below(before, n, e);
    lemma_made_kept(before, after, n, spec_split_path(entries[e].path@));
    assert forall|m: int|
        0 <= m < after.len() && after[m].entry is Some && (after[m].entry->0 as int) < e
            implies !#[trigger] is_desc(after, m, n) by {
        if m < before.len() && after[m].entry == before[m].entry {
            if is_desc(after, m, n) {
                lemma_desc_back(before, after, m, n);
            }
        }
    }
    assert(none_before_below(after, n, e));
}

/// Directory entries stay kept where nodes keep their places and kinds and
/// every node keeps its entry or takes one of `done - 1` or later.
proof fn lemma_dirs_kept(before: Seq<Node>, after: Seq<Node>, entries: Seq<EntryMeta>, d: int, done: int)
    requires
        nodes_linked(before),
        before.len() <= after.len(),
        forall|i: int| 0 <= i < before.len() ==> same_place(#[trigger] before[i], after[i]) && after[i].is_dir
            == before[i].is_dir,
        forall|i: int|
            0 <= i < after.len() && (#[trigger] after[i]).entry is Some && (i >= before.len() || after[i].entry
                != before[i].entry) ==> (after[i].entry->0 as int) + 1 >= done,
        d <= done,
        dirs_kept(before, entries, d),
    ensures
        dirs_kept(after, entries, d),
{
    assert forall|e: int|
        0 <= e < d && (#[trigger] entries[e]).is_dir && spec_split_path(entries[e].path@).len() > 0 implies has_dir_at(
        after,
        entries,
        e,
    ) || after.len() + spec_split_path(entries[e].path@).len() >= u32::MAX by {
        if has_dir_at(before, entries, e) {
            let parts = spec_split_path(entries[e].path@);
            let m = choose|m: int|
                0 < m < before.len() && before[m].is_dir && #[trigger] placed(before, m, parts) && made_for_some(
                    before,
                    entries,
                    m,
                    e + 1,
                );
            lemma_placed_frame(before, after, m, parts);
            lemma_made_some_kept(before, after, entries, m, e + 1, done);
            assert(after[m].is_dir);
        }
    }
}

/// Every file entry before `done` with a path has its file node, unless the
/// arena ran out of room for it.
pub open spec fn files_kept(ns: Seq<Node>, entries: Seq<EntryMeta>, done: int) -> bool {
    forall|e: int|
        0 <= e < done && !(#[trigger] entries[e]).is_dir && spec_split_path(entries[e].path@).len()
            > 0 ==> has_file_of(ns, e) || ns.len() + spec_split_path(entries[e].path@).len()
            >= u32::MAX
}

/// Every file node of `before` is still there in `after`, alike in all but
/// its children; `after` may hold more nodes.
pub open spec fn keeps_files(before: Seq<Node>, after: Seq<Node>) -> bool {
    &&& before.len() <= after.len()
    &&& forall|i: int|
        0 <= i < before.len() && !(#[trigger] before[i]).is_dir ==> same_payload(before[i], after[i])
}

/// Every file node names an entry before `bound`.
pub open spec fn files_below(ns: Seq<Node>, bound: int) -> bool {
    forall|n: int|
        0 <= n < ns.len() && !(#[trigger] ns[n]).is_dir ==> ns[n].entry is Some && (ns[n].entry->0 as int) < bound
}

/// Keeping the files keeps the files kept.
proof fn lemma_keeps_files_kept(before: Seq<Node>, after: Seq<Node>, entries: Seq<EntryMeta>, done: int)
    requires
        keeps_files(before, after),
        files_kept(before, entries, done),
    ensures
        files_kept(after, entries, done),
{
    assert forall|e: int|
        0 <= e < done && !(#[trigger] entries[e]).is_dir && spec_split_path(entries[e].path@).len()
            > 0 implies has_file_of(after, e) || after.len() + spec_split_path(entries[e].path@).len()
        >= u32::MAX by {
        if has_file_of(before, e) {
            let n = choose|n: int| 0 <= n < before.len() && !(#[trigger] before[n]).is_dir && before[n].entry == Some(e as u32);
            assert(same_payload(before[n], after[n]));
        }
    }
}

/// Keeping the files is transitive.
proof fn lemma_keeps_files_trans(a: Seq<Node>, b: Seq<Node>, c: Seq<Node>)
    requires
        keeps_files(a, b),
        keeps_files(b, c),
    ensures
        keeps_files(a, c),
{
    assert forall|i: int| 0 <= i < a.len() && !(#[trigger] a[i]).is_dir implies same_payload(a[i], c[i]) by {
        assert(same_payload(a[i], b[i]));
        assert(!b[i].is_dir);
    }
}

/// Adding directories, or changing nothing but children, keeps the entries
/// described and the files below their bound.
proof fn lemma_dirs_added(before: Seq<Node>, after: Seq<Node>, entries: Seq<EntryMeta>, done: int, bound: int)
    requires
        before.len() <= after.len(),
        forall|i: int| 0 <= i < before.len() ==> same_payload(#[trigger] before[i], after[i]),
        forall|i: int| before.len() <= i < after.len() ==> (#[trigger] after[i]).is_dir && after[i].entry is None,
        describes_entries(before, entries, done),
        files_below(before, bound),
    ensures
        describes_entries(after, entries, done),
        files_below(after, bound),
        keeps_files(before, after),
{
    assert forall|n: int| 0 <= n < after.len() && (#[trigger] after[n]).entry is Some implies {
        let e = after[n].entry->0 as int;
        &&& 0 <= e < done
        &&& entries[e].is_dir == after[n].is_dir
        &&& entries[e].mtime == after[n].mtime
        &&& !after[n].is_dir ==> entries[e].size == after[n].size
    } by {
        assert(same_payload(before[n], after[n]));
    }
    assert forall|n: int| 0 <= n < after.len() && !(#[trigger] after[n]).is_dir implies after[n].entry is Some by {
        assert(same_payload(before[n], after[n]));
    }
    assert forall|x: int, y: int|
        0 <= x < y < after.len() && !(#[trigger] after[x]).is_dir && !(#[trigger] after[y]).is_dir
            implies after[x].entry != after[y].entry by {
        assert(same_payload(before[x], after[x]));
        assert(same_payload(before[y], after[y]));
    }
    assert forall|n: int| 0 <= n < after.len() && !(#[trigger] after[n]).is_dir implies after[n].entry is Some
        && (after[n].entry->0 as int) < bound by {
        assert(same_payload(before[n], after[n]));
    }
}

/// A directory entry recorded on its directory keeps the entries described.
proof fn lemma_dir_entry_set(before: Seq<Node>, after: Seq<Node>, entries: Seq<EntryMeta>, i: int, id: int, bound: int)
    requires
        before.len() == after.len(),
        0 <= id < before.len(),
        before[id].is_dir,
        0 <= i < entries.len(),
        i < u32::MAX,
        entries[i].is_dir,
        after[id].is_dir,
        after[id].entry == Some(i as u32),
        after[id].mtime == entries[i].mtime,
        forall|n: int| 0 <= n < before.len() && n != id ==> #[trigger] after[n] == before[n],
        describes_entries(before, entries, i + 1),
        files_below(before, bound),
    ensures
        describes_entries(after, entries, i + 1),
        files_below(after, bound),
        keeps_files(before, after),
{
    assert forall|n: int| 0 <= n < after.len() && (#[trigger] after[n]).entry is Some implies {
        let e = after[n].entry->0 as int;
        &&& 0 <= e < i + 1
        &&& entries[e].is_dir == after[n].is_dir
        &&& entries[e].mtime == after[n].mtime
        &&& !after[n].is_dir ==> entries[e].size == after[n].size
    } by {
        if n != id {
            assert(after[n] == before[n]);
        }
    }
    assert forall|n: int| 0 <= n < after.len() && !(#[trigger] after[n]).is_dir implies after[n].entry is Some by {
        assert(after[n] == before[n]);
    }
    assert forall|x: int, y: int|
        0 <= x < y < after.len() && !(#[trigger] after[x]).is_dir && !(#[trigger] after[y]).is_dir
            implies after[x].entry != after[y].entry by {
        assert(after[x] == before[x]);
        assert(after[y] == before[y]);
    }
    assert forall|n: int| 0 <= n < after.len() && !(#[trigger] after[n]).is_dir implies after[n].entry is Some
        && (after[n].entry->0 as int) < bound by {
        assert(after[n] == before[n]);
    }
    assert forall|n: int| 0 <= n < before.len() && !(#[trigger] before[n]).is_dir implies same_payload(
        before[n],
        after[n],
    ) by {
        assert(after[n] == before[n]);
    }
}

/// The file node of entry `i`, added last, keeps the entries described and
/// is the file of `i`.
proof fn lemma_file_added(before: Seq<Node>, after: Seq<Node>, entries: Seq<EntryMeta>, i: int)
    requires
        after.len() == before.len() + 1,
        forall|n: int| 0 <= n < before.len() ==> same_payload(#[trigger] before[n], after[n]),
        0 <= i < entries.len(),
        i < u32::MAX,
        !entries[i].is_dir,
        !after[before.len() as int].is_dir,
        after[before.len() as int].entry == Some(i as u32),
        after[before.len() as int].size == entries[i].size,
        after[before.len() as int].mtime == entries[i].mtime,
        describes_entries(before, entries, i + 1),
        files_below(before, i),
    ensures
        describes_entries(after, entries, i + 1),
        files_below(after, i + 1),
        keeps_files(before, after),
        has_file_of(after, i),
{
    let id = before.len() as int;
    assert forall|n: int| 0 <= n < after.len() && (#[trigger] after[n]).entry is Some implies {
        let e = after[n].entry->0 as int;
        &&& 0 <= e < i + 1
        &&& entries[e].is_dir == after[n].is_dir
        &&& entries[e].mtime == after[n].mtime
        &&& !after[n].is_dir ==> entries[e].size == after[n].size
    } by {
        if n < id {
            assert(same_payload(before[n], after[n]));
        }
    }
    assert forall|n: int| 0 <= n < after.len() && !(#[trigger] after[n]).is_dir implies after[n].entry is Some
        && (after[n].entry->0 as int) < i + 1 by {
        if n < id {
            assert(same_payload(before[n], after[n]));
        }
    }
    assert forall|x: int, y: int|
        0 <= x < y < after.len() && !(#[trigger] after[x]).is_dir && !(#[trigger] after[y]).is_dir
            implies after[x].entry != after[y].entry by {
        assert(same_payload(before[x], after[x]));
        if y < id {
            assert(same_payload(before[y], after[y]));
        }
    }
    assert(!after[id].is_dir && after[id].entry == Some(i as u32));
}

/// Nodes alike in all but their children describe the same entries.
proof fn lemma_payload_keeps(before: Seq<Node>, after: Seq<Node>, entries: Seq<EntryMeta>, done: int)
    requires
        before.len() == after.len(),
        forall|i: int| 0 <= i < before.len() ==> same_payload(#[trigger] before[i], after[i]),
        describes_entries(before, entries, done),
        files_kept(before, entries, done),
    ensures
        describes_entries(after, entries, done),
        files_kept(after, entries, done),
{
    lemma_dirs_added(before, after, entries, done, done);
    lemma_keeps_files_kept(before, after, entries, done);
}

impl Builder {
    /// Places one entry: its path's directories are found or made, then the
    /// file node added or the directory entry recorded.
    fn place_entry(&mut self, parts: &Vec<String>, meta: &EntryMeta, i: u32, Ghost(entries): Ghost<Seq<EntryMeta>>)
        requires
            old(self).ok(),
            entries.len() < u32::MAX,
            0 < parts@.len(),
            old(self).nodes@.len() + parts@.len() < u32::MAX,
            forall|j: int| 0 <= j < parts@.len() ==> is_component(#[trigger] parts@[j]@),
            i < entries.len(),
            *meta == entries[i as int],
            describes_entries(old(self).nodes@, entries, i as int),
            files_below(old(self).nodes@, i as int),
            string_views(parts@) == spec_split_path(meta.path@),
            entries_placed(old(self).nodes@, entries),
            all_needed(old(self).nodes@),
            names_spelled(old(self).nodes@, entries, i + 1),
        ensures
            final(self).ok(),
            entries_placed(final(self).nodes@, entries),
            all_needed(final(self).nodes@),
            names_spelled(final(self).nodes@, entries, i + 1),
            describes_entries(final(self).nodes@, entries, i + 1),
            files_below(final(self).nodes@, i + 1),
            keeps_files(old(self).nodes@, final(self).nodes@),
            !meta.is_dir ==> has_file_of(final(self).nodes@, i as int),
            meta.is_dir ==> exists|m: int|
                0 < m < final(self).nodes@.len() && (#[trigger] final(self).nodes@[m]).is_dir
                    && final(self).nodes@[m].entry == Some(i),
            entries_framed(old(self).nodes@, final(self).nodes@, i as int),
            final(self).nodes@.len() <= old(self).nodes@.len() + parts@.len(),
    {
        let ghost start = self.nodes@;
        let last = parts.len() - 1;
        let mut cur: u32 = ROOT;
        let ghost mut bound: int = i as int;
        proof {
            assert(describes_entries(start, entries, i + 1));
            lemma_root_placed(start);
            reveal(all_needed);
        }
        let ghost full = string_views(parts@);
        proof {
            assert(full.take(0) =~= Seq::<Seq<char>>::empty());
        }
        for k in 0..parts.len()
            invariant
                self.ok(),
                i < entries.len() < u32::MAX,
                *meta == entries[i as int],
                last == parts@.len() - 1,
                forall|j: int| 0 <= j < parts@.len() ==> is_component(#[trigger] parts@[j]@),
                cur < self.nodes@.len(),
                self.nodes@[cur as int].is_dir,
                self.nodes@.len() + (parts@.len() - k) < u32::MAX,
                self.nodes@.len() <= start.len() + k,
                keeps_files(start, self.nodes@),
                describes_entries(self.nodes@, entries, i + 1),
                files_below(self.nodes@, bound),
                k < parts@.len() ==> bound == i,
                bound == i || bound == i + 1,
                k == parts@.len() && !meta.is_dir ==> has_file_of(self.nodes@, i as int),
                full == spec_split_path(meta.path@),
                full.len() == parts@.len(),
                forall|j: int| 0 <= j < parts@.len() ==> #[trigger] full[j] == parts@[j]@,
                k < parts@.len() ==> placed(self.nodes@, cur as int, full.take(k as int)),
                entries_placed(self.nodes@, entries),
                start.len() <= self.nodes@.len(),
                forall|n: int| 0 < n < start.len() ==> #[trigger] needed(self.nodes@, n),
                k < parts@.len() ==> forall|n: int| start.len() <= n < self.nodes@.len() ==> is_desc(self.nodes@, cur as int, n),
                k == parts@.len() ==> all_needed(self.nodes@),
                names_spelled(self.nodes@, entries, i + 1),
                entries_framed(start, self.nodes@, i as int),
                k == parts@.len() && meta.is_dir ==> exists|m: int|
                    0 < m < self.nodes@.len() && (#[trigger] self.nodes@[m]).is_dir && self.nodes@[m].entry == Some(i),
        {
            let ghost before = self.nodes@;
            let ghost ps = full;
            let ghost prefix = ps.take(k as int);
            proof {
                assert(ps.take(k + 1) =~= prefix.push(parts@[k as int]@));
            }
            if k == last && !meta.is_dir {
                proof {
                    assert(ps.take(k + 1) =~= ps);
                }
                self.add_file(cur, &parts[k], meta, i, Ghost(entries), Ghost(prefix));
                proof {
                    let after = self.nodes@;
                    assert forall|n: int| 0 <= n < before.len() implies same_place(#[trigger] before[n], after[n]) by {
                        assert(same_payload(before[n], after[n]));
                    }
                    assert forall|n: int| 0 <= n < before.len() && (#[trigger] before[n]).entry is Some implies after[n].entry is Some by {
                        assert(same_payload(before[n], after[n]));
                    }
                    lemma_chain_step(start.len() as int, before, after, cur as int, before.len() as int);
                    lemma_chain_done(start.len() as int, after, before.len() as int);
                    lemma_keeps_files_trans(start, before, self.nodes@);
                    assert forall|n: int| 0 <= n < before.len() implies same_place(#[trigger] before[n], after[n])
                        && after[n].is_dir == before[n].is_dir by {
                        assert(same_payload(before[n], after[n]));
                    }
                    assert forall|n: int|
                        0 <= n < after.len() && (#[trigger] after[n]).entry is Some && (n >= before.len()
                            || after[n].entry != before[n].entry) implies after[n].entry == Some(i) by {
                        if n < before.len() {
                            assert(same_payload(before[n], after[n]));
                        }
                    }
                    lemma_framed_trans(start, before, after, i as int);
                    bound = i + 1;
                }
            } else {
                let ghost prev = cur;
                proof {
                    assert(full.take(k + 1) =~= prefix.push(parts@[k as int]@));
                }
                cur = self.step_dir(cur, &parts[k], Ghost(entries), Ghost(prefix), Ghost(i + 1), Ghost(bound), Ghost(i as int));
                proof {
                    let after = self.nodes@;
                    assert forall|n: int| 0 <= n < before.len() implies same_place(#[trigger] before[n], after[n]) by {
                        assert(same_payload(before[n], after[n]));
                    }
                    assert forall|n: int| 0 <= n < before.len() && (#[trigger] before[n]).entry is Some implies after[n].entry is Some by {
                        assert(same_payload(before[n], after[n]));
                    }
                    assert(after[cur as int].parent < cur);
                    lemma_chain_step(start.len() as int, before, after, prev as int, cur as int);
                    lemma_keeps_files_trans(start, before, self.nodes@);
                    assert forall|n: int| 0 <= n < before.len() implies same_place(#[trigger] before[n], after[n])
                        && after[n].is_dir == before[n].is_dir by {
                        assert(same_payload(before[n], after[n]));
                    }
                    assert forall|n: int|
                        0 <= n < after.len() && (#[trigger] after[n]).entry is Some && (n >= before.len()
                            || after[n].entry != before[n].entry) implies after[n].entry == Some(i) by {
                        if n < before.len() {
                            assert(same_payload(before[n], after[n]));
                        }
                    }
                    lemma_framed_trans(start, before, after, i as int);
                }
                if k == last {
                    let ghost before2 = self.nodes@;
                    proof {
                        assert(ps.take(k + 1) =~= ps);
                    }
                    self.record_dir(cur, meta, i, Ghost(entries), Ghost(bound));
                    proof {
                        let after = self.nodes@;
                        assert forall|n: int| 0 <= n < before2.len() implies same_place(#[trigger] before2[n], after[n]) by {}
                        assert forall|n: int| 0 <= n < before2.len() && (#[trigger] before2[n]).entry is Some implies after[n].entry is Some by {}
                        lemma_chain_step(start.len() as int, before2, after, cur as int, cur as int);
                        lemma_chain_done(start.len() as int, after, cur as int);
                        lemma_keeps_files_trans(start, before2, self.nodes@);
                        assert forall|n: int| 0 <= n < before2.len() implies same_place(#[trigger] before2[n], after[n])
                            && after[n].is_dir == before2[n].is_dir by {
                            if n == cur {
                                assert(same_place(before2[n], after[n]));
                            }
                        }
                        assert forall|n: int|
                            0 <= n < after.len() && (#[trigger] after[n]).entry is Some && (n >= before2.len()
                                || after[n].entry != before2[n].entry) implies after[n].entry == Some(i) by {
                        }
                        lemma_framed_trans(start, before2, after, i as int);
                        assert(after[cur as int].is_dir && after[cur as int].entry == Some(i));
                    }
                }
            }
        }
    }

    /// Adds the file node of entry `i`, named for `part`, under `cur`, which
    /// lies at `prefix`.
    fn add_file(&mut self, cur: u32, part: &String, meta: &EntryMeta, i: u32, Ghost(entries): Ghost<Seq<EntryMeta>>, Ghost(prefix): Ghost<Seq<Seq<char>>>)
        requires
            old(self).ok(),
            cur < old(self).nodes@.len(),
            old(self).nodes@[cur as int].is_dir,
            old(self).nodes@.len() < u32::MAX,
            is_component(part@),
            i < entries.len() < u32::MAX,
            *meta == entries[i as int],
            !meta.is_dir,
            spec_split_path(meta.path@) == prefix.push(part@),
            placed(old(self).nodes@, cur as int, prefix),
            entries_placed(old(self).nodes@, entries),
            names_spelled(old(self).nodes@, entries, i + 1),
            describes_entries(old(self).nodes@, entries, i + 1),
            files_below(old(self).nodes@, i as int),
        ensures
            final(self).ok(),
            final(self).nodes@.len() == old(self).nodes@.len() + 1,
            final(self).nodes@[cur as int].is_dir,
            final(self).nodes@[old(self).nodes@.len() as int].parent == cur,
            final(self).nodes@[old(self).nodes@.len() as int].entry == Some(i),
            forall|n: int| 0 <= n < old(self).nodes@.len() ==> same_payload(#[trigger] old(self).nodes@[n], final(self).nodes@[n]),
            entries_placed(final(self).nodes@, entries),
            describes_entries(final(self).nodes@, entries, i + 1),
            files_below(final(self).nodes@, i + 1),
            keeps_files(old(self).nodes@, final(self).nodes@),
            has_file_of(final(self).nodes@, i as int),
            names_spelled(final(self).nodes@, entries, i + 1),
    {
        let ghost before = self.nodes@;
        let ghost idx = name_index(self.index);
        let (unique, key) = self.unique_name(cur, part);
        let ghost unique_name_of = unique@;
        let id = self.add_node(cur, unique, key, false, Some(i), meta.size, meta.mtime);
        proof {
            let after = self.nodes@;
            let full = spec_split_path(meta.path@);
            if unique_name_of != part@ {
                let m = idx[(cur, lower_key(part@))] as int;
                assert(before[m].parent == cur);
                assert(after[m] == before[m]);
                assert(after[m].parent == after[id as int].parent);
            }
            assert(counter_needed(after, id as int, part@));
            assert forall|n: int| 0 <= n < before.len() implies same_place(#[trigger] before[n], after[n]) && after[n].is_dir
                == before[n].is_dir by {
                if n != cur {
                    assert(after[n] == before[n]);
                }
            }
            lemma_placed_frame(before, after, cur as int, prefix);
            assert(full.take(prefix.len() + 1int) =~= full);
            lemma_made_new(after, cur as int, id as int, prefix, part@, full);
            lemma_newest_alone(after, id as int, i as int);
            assert(made_for_some(after, entries, id as int, i + 1));
            assert forall|n: int|
                0 <= n < after.len() && (#[trigger] after[n]).entry is Some && (n >= before.len() || after[n].entry
                    != before[n].entry) implies (after[n].entry->0 as int) + 1 >= i + 1 by {
                if n < before.len() && n != cur {
                    assert(after[n] == before[n]);
                }
            }
            lemma_spelled_kept(before, after, entries, i + 1);
            lemma_unique_names_part(unique_name_of, part@);
            lemma_file_placed(before, self.nodes@, entries, cur as int, prefix, part@, i as int);
            assert forall|n: int| 0 <= n < before.len() implies same_payload(
                #[trigger] before[n],
                self.nodes@[n],
            ) by {}
            lemma_file_added(before, self.nodes@, entries, i as int);
        }
    }

    /// The directory named for `part` under `cur`, which lies at `prefix`.
    fn step_dir(&mut self, cur: u32, part: &String, Ghost(entries): Ghost<Seq<EntryMeta>>, Ghost(prefix): Ghost<Seq<Seq<char>>>, Ghost(done): Ghost<int>, Ghost(bound): Ghost<int>, Ghost(e): Ghost<int>) -> (id: u32)
        requires
            0 <= e < entries.len(),
            e < done,
            done <= u32::MAX,
            prefix.len() < spec_split_path(entries[e].path@).len(),
            spec_split_path(entries[e].path@).take(prefix.len() + 1int) == prefix.push(part@),
            names_spelled(old(self).nodes@, entries, done),
            old(self).ok(),
            cur < old(self).nodes@.len(),
            old(self).nodes@[cur as int].is_dir,
            old(self).nodes@.len() < u32::MAX,
            is_component(part@),
            placed(old(self).nodes@, cur as int, prefix),
            entries_placed(old(self).nodes@, entries),
            describes_entries(old(self).nodes@, entries, done),
            files_below(old(self).nodes@, bound),
        ensures
            final(self).ok(),
            0 < id < final(self).nodes@.len(),
            final(self).nodes@[id as int].is_dir,
            final(self).nodes@.len() <= old(self).nodes@.len() + 1,
            placed(final(self).nodes@, id as int, prefix.push(part@)),
            final(self).nodes@[id as int].parent == cur,
            final(self).nodes@.len() > old(self).nodes@.len() ==> id == old(self).nodes@.len(),
            grows(old(self).nodes@, final(self).nodes@),
            forall|n: int|
                old(self).nodes@.len() <= n < final(self).nodes@.len() ==> (#[trigger] final(self).nodes@[n]).entry is None,
            entries_placed(final(self).nodes@, entries),
            describes_entries(final(self).nodes@, entries, done),
            files_below(final(self).nodes@, bound),
            keeps_files(old(self).nodes@, final(self).nodes@),
            names_spelled(final(self).nodes@, entries, done),
    {
        let ghost before = self.nodes@;
        let id = self.get_or_create_dir(cur, part);
        proof {
            let after = self.nodes@;
            assert forall|n: int| 0 <= n < before.len() implies same_place(#[trigger] before[n], after[n]) && after[n].is_dir
                == before[n].is_dir by {
                assert(same_payload(before[n], after[n]));
            }
            lemma_dir_spelled(before, after, entries, done, cur as int, id as int, prefix, part@, e);
            lemma_dir_placed(before, self.nodes@, entries, cur as int, id as int, prefix, part@);
            lemma_dirs_added(before, self.nodes@, entries, done, bound);
        }
        id
    }

    /// Records directory entry `i` on `cur`, which lies at its path.
    fn record_dir(&mut self, cur: u32, meta: &EntryMeta, i: u32, Ghost(entries): Ghost<Seq<EntryMeta>>, Ghost(bound): Ghost<int>)
        requires
            old(self).ok(),
            0 < cur < old(self).nodes@.len(),
            old(self).nodes@[cur as int].is_dir,
            i < entries.len() < u32::MAX,
            *meta == entries[i as int],
            meta.is_dir,
            placed(old(self).nodes@, cur as int, spec_split_path(meta.path@)),
            entries_placed(old(self).nodes@, entries),
            names_spelled(old(self).nodes@, entries, i + 1),
            describes_entries(old(self).nodes@, entries, i + 1),
            files_below(old(self).nodes@, bound),
        ensures
            final(self).ok(),
            final(self).nodes@.len() == old(self).nodes@.len(),
            final(self).nodes@[cur as int].is_dir,
            final(self).nodes@[cur as int].entry == Some(i),
            same_place(old(self).nodes@[cur as int], final(self).nodes@[cur as int]),
            forall|n: int| 0 <= n < old(self).nodes@.len() && n != cur ==> final(self).nodes@[n] == old(self).nodes@[n],
            entries_placed(final(self).nodes@, entries),
            describes_entries(final(self).nodes@, entries, i + 1),
            files_below(final(self).nodes@, bound),
            keeps_files(old(self).nodes@, final(self).nodes@),
            names_spelled(final(self).nodes@, entries, i + 1),
    {
        let ghost before = self.nodes@;
        self.set_dir_entry(cur, i, meta.mtime);
        proof {
            let after = self.nodes@;
            assert forall|n: int| 0 <= n < before.len() implies same_place(#[trigger] before[n], after[n]) && after[n].is_dir
                == before[n].is_dir by {
                if n != cur {
                    assert(after[n] == before[n]);
                }
            }
            assert forall|n: int|
                0 <= n < after.len() && (#[trigger] after[n]).entry is Some && (n >= before.len() || after[n].entry
                    != before[n].entry) implies (after[n].entry->0 as int) + 1 >= i + 1 by {
                if n < before.len() && n != cur {
                    assert(after[n] == before[n]);
                }
            }
            lemma_spelled_kept(before, after, entries, i + 1);
            lemma_dir_entry_placed(before, self.nodes@, entries, cur as int, spec_split_path(meta.path@), i as int);
            lemma_dir_entry_set(before, self.nodes@, entries, i as int, cur as int, bound);
        }
    }
}

impl Tree {
    /// Builds the tree of the entries. Missing parent directories are
    /// synthesized; a file whose name clashes, ignoring case, with one
    /// already there gets a name of its own; paths are split as
    /// `split_path` splits them, so nothing leads outside the root.
    ///
    /// Every node naming an entry lies at that entry's path
    /// (`entries_placed`), and every other node lies on the way to one
    /// (`all_needed`): directories are made along entries' paths and nowhere
    /// else. Each name is spelled as the first entry that leads to it spells
    /// its component, with a counter only where a sibling holds the name
    /// (`names_spelled`); every directory entry has its directory
    /// (`dirs_kept`); no two nodes lie at one path, ignoring case
    /// (`one_node_per_path`).
    pub fn build(entries: &[EntryMeta]) -> (t: Tree)
        requires
            entries@.len() < u32::MAX,
        ensures
            t.wf(),
            describes_entries(t@, entries@, entries@.len() as int),
            files_kept(t@, entries@, entries@.len() as int),
            entries_placed(t@, entries@),
            all_needed(t@),
            names_spelled(t@, entries@, entries@.len() as int),
            dirs_kept(t@, entries@, entries@.len() as int),
            t.built_from(entries@),
    {
        let mut b = Builder::new();
        proof {
            reveal(entries_placed);
            reveal(all_needed);
            reveal(names_spelled);
        }
        for i in 0..entries.len()
            invariant
                b.ok(),
                entries@.len() < u32::MAX,
                describes_entries(b.nodes@, entries@, i as int),
                files_below(b.nodes@, i as int),
                files_kept(b.nodes@, entries@, i as int),
                entries_placed(b.nodes@, entries@),
                all_needed(b.nodes@),
                names_spelled(b.nodes@, entries@, i as int),
                dirs_kept(b.nodes@, entries@, i as int),
        {
            let meta = &entries[i];
            let parts = split_path(meta.path.as_str());
            proof {
                lemma_split_path_components(meta.path@);
                assert forall|j: int| 0 <= j < parts@.len() implies is_component(#[trigger] parts@[j]@) by {
                    assert(string_views(parts@)[j] == parts@[j]@);
                }
            }
            let ghost before = b.nodes@;
            proof {
                lemma_spelled_mono(b.nodes@, entries@, i as int, i + 1);
            }
            if parts.len() > 0 && parts.len() < (u32::MAX as usize) - b.nodes.len() {
                b.place_entry(&parts, meta, i as u32, Ghost(entries@));
                proof {
                    lemma_keeps_files_kept(before, b.nodes@, entries@, i as int);
                    assert(string_views(parts@).len() == parts@.len());
                    lemma_dir_entry_kept(before, b.nodes@, entries@, i as int);
                }
            } else {
                proof {
                    assert(describes_entries(before, entries@, i + 1));
                    assert(files_below(before, i + 1));
                    assert(string_views(parts@).len() == parts@.len());
                    lemma_dir_entry_skipped(before, entries@, i as int);
                }
            }
            proof {
                assert forall|e: int|
                    0 <= e < i + 1 && !(#[trigger] entries@[e]).is_dir && spec_split_path(entries@[e].path@).len()
                        > 0 implies has_file_of(b.nodes@, e) || b.nodes@.len() + spec_split_path(entries@[e].path@).len()
                    >= u32::MAX by {
                }
            }
        }
        let ghost before = b.nodes@;
        let t = b.finish();
        proof {
            assert forall|n: int| 0 <= n < before.len() implies same_place(#[trigger] before[n], t@[n]) by {
                assert(same_payload(before[n], t@[n]));
            }
            assert forall|n: int| 0 <= n < before.len() implies (#[trigger] t@[n]).entry == before[n].entry by {
                assert(same_payload(before[n], t@[n]));
            }
            lemma_placed_kept(before, t@, entries@);
            assert forall|n: int| 0 <= n < before.len() implies same_place(#[trigger] before[n], t@[n]) && t@[n].is_dir
                == before[n].is_dir by {
                assert(same_payload(before[n], t@[n]));
            }
            lemma_spelled_kept(before, t@, entries@, entries@.len() as int);
            lemma_dirs_kept(before, t@, entries@, entries@.len() as int, entries@.len() as int);
            reveal(all_needed);
            assert forall|n: int| 0 < n < t@.len() implies #[trigger] needed(t@, n) by {
                assert forall|x: int| 0 <= x < before.len() && (#[trigger] before[x]).entry is Some implies t@[x].entry is Some by {
                    assert(same_payload(before[x], t@[x]));
                }
                lemma_needed_kept(before, t@, n);
            }
            lemma_payload_keeps(before, t@, entries@, entries@.len() as int);
        }
        t
    }
}

impl Tree {
    /// What `build` promises of the tree it makes from `entries`.
    pub open spec fn built_from(&self, entries: Seq<EntryMeta>) -> bool {
        &&& self.wf()
        &&& describes_entries(self@, entries, entries.len() as int)
        &&& files_kept(self@, entries, entries.len() as int)
        &&& entries_placed(self@, entries)
        &&& all_needed(self@)
        &&& names_spelled(self@, entries, entries.len() as int)
        &&& dirs_kept(self@, entries, entries.len() as int)
    }
}

/// A tree built from entries: its root is a directory; every child points
/// back at the directory that lists it; every directory's children are in
/// strictly increasing order of their case-insensitive names, so no two
/// siblings share a name ignoring case; every file entry with a path has
/// exactly one file node, and every directory entry with a path a directory
/// node at that path, so none is lost (while the arena of `u32` node ids has
/// room for it).
pub proof fn built_tree_holds_every_entry(t: &Tree, entries: Seq<EntryMeta>)
    requires
        t.built_from(entries),
    ensures
        t@[ROOT as int].is_dir,
        forall|p: int, j: int|
            0 <= p < t@.len() && 0 <= j < t@[p].children@.len() ==> t@[#[trigger] t@[p].children@[j] as int].parent
                == p,
        children_sorted(t@),
        forall|e: int|
            0 <= e < entries.len() && !(#[trigger] entries[e]).is_dir && spec_split_path(entries[e].path@).len()
                > 0 && t@.len() + spec_split_path(entries[e].path@).len() < u32::MAX ==> has_file_of(t@, e),
        forall|e: int, a: int, b: int|
            0 <= a < t@.len() && 0 <= b < t@.len() && #[trigger] names_entry(t@[a], e)
                && #[trigger] names_entry(t@[b], e) ==> a == b,
        forall|e: int|
            0 <= e < entries.len() && (#[trigger] entries[e]).is_dir && spec_split_path(entries[e].path@).len() > 0
                && t@.len() + spec_split_path(entries[e].path@).len() < u32::MAX ==> has_dir_at(t@, entries, e),
{
    t.lemma_wf_linked();
    assert forall|e: int, a: int, b: int|
        0 <= a < t@.len() && 0 <= b < t@.len() && #[trigger] names_entry(t@[a], e)
            && #[trigger] names_entry(t@[b], e) implies a == b by {
        if a < b {
            assert(t@[a].entry != t@[b].entry);
        } else if b < a {
            assert(t@[b].entry != t@[a].entry);
        }
    }
}

// ---------------------------------------------------------------------------
// Lookup
// ---------------------------------------------------------------------------

/// Whether `dir` has a child with this key.
pub open spec fn has_child_keyed(ns: Seq<Node>, dir: int, key: Seq<char>) -> bool {
    exists|j: int|
        0 <= j < ns[dir].children@.len() && node_key(ns[#[trigger] ns[dir].children@[j] as int]) == key
}

/// The child of `dir` with this key: siblings' keys are distinct, so there is
/// at most one.
pub open spec fn child_keyed(ns: Seq<Node>, dir: int, key: Seq<char>) -> Option<u32> {
    if has_child_keyed(ns, dir, key) {
        let j = choose|j: int|
            0 <= j < ns[dir].children@.len() && node_key(ns[#[trigger] ns[dir].children@[j] as int])
                == key;
        Some(ns[dir].children@[j])
    } else {
        None
    }
}

/// One directory's children in strictly increasing order of keys.
pub open spec fn sorted_at(ns: Seq<Node>, d: int) -> bool {
    forall|j: int, k: int|
        0 <= j < k < ns[d].children@.len() ==> lex_lt(
            node_key(ns[#[trigger] ns[d].children@[j] as int]),
            node_key(ns[#[trigger] ns[d].children@[k] as int]),
        )
}

/// Any child with the key is the one `child_keyed` names.
pub proof fn lemma_child_keyed_unique(ns: Seq<Node>, dir: int, j: int)
    requires
        sorted_at(ns, dir),
        0 <= dir < ns.len(),
        0 <= j < ns[dir].children@.len(),
    ensures
        child_keyed(ns, dir, node_key(ns[ns[dir].children@[j] as int])) == Some(ns[dir].children@[j]),
{
    let key = node_key(ns[ns[dir].children@[j] as int]);
    assert(has_child_keyed(ns, dir, key));
    let k = choose|k: int|
        0 <= k < ns[dir].children@.len() && node_key(ns[#[trigger] ns[dir].children@[k] as int]) == key;
    if k < j {
        assert(lex_lt(node_key(ns[ns[dir].children@[k] as int]), node_key(ns[ns[dir].children@[j] as int])));
        lemma_lex_irreflexive(key);
    } else if j < k {
        assert(lex_lt(node_key(ns[ns[dir].children@[j] as int]), node_key(ns[ns[dir].children@[k] as int])));
        lemma_lex_irreflexive(key);
    }
}

impl Tree {
    /// The node with index `id`.
    pub fn node(&self, id: u32) -> (res: &Node)
        requires
            id < self@.len(),
        ensures
            *res == self@[id as int],
    {
        &self.nodes[id as usize]
    }

    /// How many nodes the tree has, the root included.
    pub fn node_count(&self) -> (res: usize)
        ensures
            res == self@.len(),
    {
        self.nodes.len()
    }

    /// Finds a child by name, case-insensitively — the way Windows expects:
    /// a binary search over the sorted children.
    pub fn lookup_child(&self, dir: u32, name: &str) -> (res: Option<u32>)
        requires
            self.wf(),
            dir < self@.len(),
        ensures
            res == child_keyed(self@, dir as int, lower_key(name@)),
    {
        let ghost ns = self.nodes@;
        let ghost d = dir as int;
        let target = lower_key_of(name);
        let children = &self.nodes[dir as usize].children;
        let mut lo: usize = 0;
        let mut hi: usize = children.len();
        proof {
            assert(sorted_at(ns, d));
            assert forall|j: int| 0 <= j < children@.len() implies 0 < #[trigger] children@[j] < ns.len() by {}
        }
        while lo < hi
            invariant
                d == dir as int,
                sorted_at(ns, d),
                forall|j: int| 0 <= j < children@.len() ==> 0 < #[trigger] children@[j] < ns.len(),
                ns == self.nodes@,
                0 <= d < ns.len(),
                *children == ns[d].children,
                target@ == lower_key(name@),
                0 <= lo <= hi <= children@.len(),
                forall|j: int| 0 <= j < lo ==> lex_lt(node_key(ns[#[trigger] children@[j] as int]), target@),
                forall|j: int| hi <= j < children@.len() ==> lex_lt(target@, node_key(ns[#[trigger] children@[j] as int])),
            decreases hi - lo,
        {
            let mid = lo + (hi - lo) / 2;
            let c = children[mid];
            proof {
                assert(0 < c < ns.len());
            }
            let probe = lower_key_of(self.nodes[c as usize].name.as_str());
            match compare_keys(probe.as_slice(), target.as_slice()) {
                KeyOrder::Less => {
                    proof {
                        assert forall|j: int| 0 <= j < mid + 1 implies lex_lt(node_key(ns[#[trigger] children@[j] as int]), target@) by {
                            if j < mid {
                                lemma_lex_transitive(node_key(ns[children@[j] as int]), node_key(ns[c as int]), target@);
                            }
                        }
                    }
                    lo = mid + 1;
                },
                KeyOrder::Greater => {
                    proof {
                        assert forall|j: int| mid <= j < children@.len() implies lex_lt(target@, node_key(ns[#[trigger] children@[j] as int])) by {
                            if j > mid {
                                lemma_lex_transitive(target@, node_key(ns[c as int]), node_key(ns[children@[j] as int]));
                            }
                        }
                    }
                    hi = mid;
                },
                KeyOrder::Equal => {
                    proof {
                        assert(probe@ == node_key(ns[c as int]));
                        assert(c == ns[d].children@[mid as int]);
                        lemma_child_keyed_unique(ns, d, mid as int);
                        assert(probe@ == target@);
                        assert(child_keyed(ns, d, target@) == Some(c));
                        assert(self@ == ns);

                    }
                    return Some(c);
                },
            }
        }
        proof {
            if has_child_keyed(ns, d, target@) {
                let j = choose|j: int|
                    0 <= j < ns[d].children@.len() && node_key(ns[#[trigger] ns[d].children@[j] as int]) == target@;
                if j < lo {
                    lemma_lex_irreflexive(target@);
                } else {
                    lemma_lex_irreflexive(target@);
                }
            }
        }
        None
    }
}

// ---------------------------------------------------------------------------
// Paths
// ---------------------------------------------------------------------------

/// The pieces `resolve` walks: empty pieces and `.` dropped.
pub open spec fn resolve_kept(segs: Seq<Seq<char>>) -> Seq<Seq<char>>
    decreases segs.len(),
{
    if segs.len() == 0 {
        Seq::empty()
    } else if segs.last().len() > 0 && segs.last() != seq!['.'] {
        resolve_kept(segs.drop_last()).push(segs.last())
    } else {
        resolve_kept(segs.drop_last())
    }
}

/// The pieces of a path, split at either separator, that `resolve` walks.
pub open spec fn resolve_parts(path: Seq<char>) -> Seq<Seq<char>> {
    resolve_kept(segments(path))
}

/// Where walking down from `from` by `parts` leads: each step must start at
/// a directory and find the child with the piece's key.
pub open spec fn walk_down(ns: Seq<Node>, from: int, parts: Seq<Seq<char>>) -> Option<u32>
    decreases parts.len(),
{
    if parts.len() == 0 {
        Some(from as u32)
    } else {
        match walk_down(ns, from, parts.drop_last()) {
            None => None,
            Some(c) => if !ns[c as int].is_dir {
                None
            } else {
                child_keyed(ns, c as int, lower_key(parts.last()))
            },
        }
    }
}

/// The names from the root down to `id`, the root's own excluded.
pub open spec fn ancestry(ns: Seq<Node>, id: int) -> Seq<Seq<char>>
    decreases id,
{
    if id <= 0 || id >= ns.len() || ns[id].parent >= id {
        Seq::empty()
    } else {
        ancestry(ns, ns[id].parent as int).push(ns[id].name@)
    }
}

/// Pieces joined with backslashes.
pub open spec fn join_path(parts: Seq<Seq<char>>) -> Seq<char>
    decreases parts.len(),
{
    if parts.len() == 0 {
        Seq::empty()
    } else if parts.len() == 1 {
        parts[0]
    } else {
        join_path(parts.drop_last()) + seq!['\\'] + parts.last()
    }
}

/// Once a walk fails, walking further fails too.
pub proof fn lemma_walk_down_stuck(ns: Seq<Node>, from: int, parts: Seq<Seq<char>>, k: int)
    requires
        0 <= k <= parts.len(),
        walk_down(ns, from, parts.take(k)) is None,
    ensures
        walk_down(ns, from, parts) is None,
    decreases parts.len() - k,
{
    if k < parts.len() {
        assert(parts.take(k + 1).drop_last() =~= parts.take(k));
        lemma_walk_down_stuck(ns, from, parts, k + 1);
    } else {
        assert(parts.take(k) =~= parts);
    }
}

/// A piece without separators is one segment.
proof fn lemma_segments_plain(y: Seq<char>)
    requires
        forall|i: int| 0 <= i < y.len() ==> !is_sep(#[trigger] y[i]),
    ensures
        segments(y) == seq![y],
    decreases y.len(),
{
    if y.len() > 0 {
        lemma_segments_plain(y.drop_last());
        assert(y.drop_last().push(y.last()) =~= y);
        assert(!is_sep(y[y.len() - 1]));
        assert(seq![y.drop_last()].update(0, y.drop_last().push(y.last())) =~= seq![y]);
    } else {
        assert(y =~= Seq::<char>::empty());
    }
}

/// Appending a piece without separators extends the last segment.
proof fn lemma_segments_append(x: Seq<char>, y: Seq<char>)
    requires
        forall|i: int| 0 <= i < y.len() ==> !is_sep(#[trigger] y[i]),
    ensures
        segments(x).len() >= 1,
        segments(x + y) == segments(x).update(segments(x).len() - 1, segments(x).last() + y),
    decreases y.len(),
{
    lemma_segments_len(x);
    if y.len() == 0 {
        assert(x + y =~= x);
        assert(segments(x).last() + y =~= segments(x).last());
        assert(segments(x).update(segments(x).len() - 1, segments(x).last()) =~= segments(x));
    } else {
        lemma_segments_append(x, y.drop_last());
        assert((x + y).drop_last() =~= x + y.drop_last());
        assert((x + y).last() == y.last());
        let sx = segments(x);
        assert((sx.last() + y.drop_last()).push(y.last()) =~= sx.last() + y);
        assert(sx.update(sx.len() - 1, sx.last() + y.drop_last()).update(
            sx.len() - 1,
            sx.last() + y,
        ) =~= sx.update(sx.len() - 1, sx.last() + y));
    }
}

proof fn lemma_segments_len(s: Seq<char>)
    ensures
        segments(s).len() >= 1,
    decreases s.len(),
{
    if s.len() > 0 {
        lemma_segments_len(s.drop_last());
    }
}

/// Joined components split back into themselves.
proof fn lemma_segments_join(ps: Seq<Seq<char>>)
    requires
        ps.len() >= 1,
        forall|i: int| 0 <= i < ps.len() ==> is_component(#[trigger] ps[i]),
    ensures
        segments(join_path(ps)) == ps,
    decreases ps.len(),
{
    if ps.len() == 1 {
        assert(is_component(ps[0]));
        lemma_segments_plain(ps[0]);
        assert(seq![ps[0]] =~= ps);
    } else {
        let dl = ps.drop_last();
        assert forall|i: int| 0 <= i < dl.len() implies is_component(#[trigger] dl[i]) by {
            assert(dl[i] == ps[i]);
        }
        lemma_segments_join(dl);
        let j = join_path(dl);
        assert((j + seq!['\\']).drop_last() =~= j);
        assert(segments(j + seq!['\\']) == segments(j).push(Seq::empty()));
        assert(is_component(ps.last()));
        lemma_segments_append(j + seq!['\\'], ps.last());
        assert(Seq::<char>::empty() + ps.last() =~= ps.last());
        assert(dl.push(Seq::empty()).update(dl.len() as int, ps.last()) =~= ps);
    }
}

/// Components are all kept.
proof fn lemma_resolve_kept_all(ps: Seq<Seq<char>>)
    requires
        forall|i: int| 0 <= i < ps.len() ==> is_component(#[trigger] ps[i]),
    ensures
        resolve_kept(ps) == ps,
    decreases ps.len(),
{
    if ps.len() > 0 {
        let dl = ps.drop_last();
        assert forall|i: int| 0 <= i < dl.len() implies is_component(#[trigger] dl[i]) by {
            assert(dl[i] == ps[i]);
        }
        lemma_resolve_kept_all(dl);
        assert(is_component(ps.last()));
        assert(dl.push(ps.last()) =~= ps);
    }
}

/// The names on the way down to a node are components.
proof fn lemma_ancestry_components(ns: Seq<Node>, id: int)
    requires
        nodes_linked(ns),
        0 <= id < ns.len(),
    ensures
        forall|i: int| 0 <= i < ancestry(ns, id).len() ==> is_component(#[trigger] ancestry(ns, id)[i]),
    decreases id,
{
    if id > 0 {
        let p = ns[id].parent as int;
        lemma_ancestry_components(ns, p);
        let a = ancestry(ns, p);
        assert(ancestry(ns, id) == a.push(ns[id].name@));
        assert forall|i: int| 0 <= i < a.len() + 1 implies is_component(#[trigger] a.push(ns[id].name@)[i]) by {
            if i < a.len() {
                assert(a.push(ns[id].name@)[i] == a[i]);
            }
        }
    }
}

/// Walking down by a node's ancestry from the root finds the node.
proof fn lemma_walk_ancestry(ns: Seq<Node>, id: int)
    requires
        nodes_linked(ns),
        children_sorted(ns),
        0 <= id < ns.len(),
    ensures
        walk_down(ns, 0, ancestry(ns, id)) == Some(id as u32),
    decreases id,
{
    if id > 0 {
        let p = ns[id].parent as int;
        lemma_walk_ancestry(ns, p);
        let a = ancestry(ns, id);
        assert(a.drop_last() =~= ancestry(ns, p));
        assert(ns[p].children@.contains(id as u32));
        let j = choose|j: int| 0 <= j < ns[p].children@.len() && ns[p].children@[j] == id as u32;
        assert(sorted_at(ns, p));
        lemma_child_keyed_unique(ns, p, j);
    }
}

/// A node's path, as `path_of` gives it, resolves back to the node.
pub proof fn path_of_round_trips(t: &Tree, id: u32)
    requires
        t.wf(),
        id < t@.len(),
    ensures
        walk_down(t@, ROOT as int, resolve_parts(join_path(ancestry(t@, id as int)))) == Some(id),
{
    let ns = t@;
    let a = ancestry(ns, id as int);
    lemma_ancestry_components(ns, id as int);
    if a.len() == 0 {
        assert(join_path(a) =~= Seq::<char>::empty());
        assert(segments(Seq::<char>::empty()) == seq![Seq::<char>::empty()]);
        assert(seq![Seq::<char>::empty()].drop_last() =~= Seq::<Seq<char>>::empty());
    } else {
        lemma_segments_join(a);
    }
    lemma_resolve_kept_all(a);
    lemma_walk_ancestry(ns, id as int);
}

/// A path with each component lower-cased: two paths with the same keys
/// name the same place.
pub open spec fn path_keys(parts: Seq<Seq<char>>) -> Seq<Seq<char>> {
    parts.map_values(|p: Seq<char>| lower_key(p))
}

/// Walking down looks at the components' keys only.
proof fn lemma_walk_keys(ns: Seq<Node>, from: int, p: Seq<Seq<char>>, q: Seq<Seq<char>>)
    requires
        path_keys(p) == path_keys(q),
    ensures
        walk_down(ns, from, p) == walk_down(ns, from, q),
    decreases p.len(),
{
    assert(p.len() == path_keys(p).len() && q.len() == path_keys(q).len());
    if p.len() > 0 {
        assert(path_keys(p.drop_last()) =~= path_keys(q.drop_last())) by {
            assert forall|i: int| 0 <= i < p.len() - 1 implies lower_key(p[i]) == lower_key(q[i]) by {
                assert(path_keys(p)[i] == path_keys(q)[i]);
            }
        }
        assert(path_keys(p)[p.len() - 1] == path_keys(q)[q.len() - 1]);
        lemma_walk_keys(ns, from, p.drop_last(), q.drop_last());
    }
}

/// No two nodes of a tree lie at the same path, ignoring case: one node,
/// and so one directory, per path of the archive.
pub proof fn one_node_per_path(t: &Tree, a: u32, b: u32)
    requires
        t.wf(),
        a < t@.len(),
        b < t@.len(),
        path_keys(ancestry(t@, a as int)) == path_keys(ancestry(t@, b as int)),
    ensures
        a == b,
{
    t.lemma_wf_linked();
    lemma_walk_ancestry(t@, a as int);
    lemma_walk_ancestry(t@, b as int);
    lemma_walk_keys(t@, 0, ancestry(t@, a as int), ancestry(t@, b as int));
}

/// Every node's id is bounded by the arena.
proof fn lemma_child_keyed_bounded(ns: Seq<Node>, dir: int, key: Seq<char>)
    requires
        nodes_linked(ns),
        0 <= dir < ns.len(),
    ensures
        child_keyed(ns, dir, key) matches Some(c) ==> 0 < c < ns.len(),
{
    if has_child_keyed(ns, dir, key) {
        let j = choose|j: int|
            0 <= j < ns[dir].children@.len() && node_key(ns[#[trigger] ns[dir].children@[j] as int])
                == key;
        assert(0 < ns[dir].children@[j] < ns.len());
    }
}

/// Flushes a piece into the list `resolve` walks.
fn flush_piece(out: &mut Vec<String>, cur: &Vec<char>)
    ensures
        string_views(final(out)@) == (if cur@.len() > 0 && cur@ != seq!['.'] {
            string_views(old(out)@).push(cur@)
        } else {
            string_views(old(out)@)
        }),
{
    let keep = if cur.len() == 0 {
        false
    } else if cur.len() == 1 && cur[0] == '.' {
        false
    } else {
        true
    };
    assert(cur.len() == 1 && cur@[0] == '.' ==> cur@ =~= seq!['.']);
    assert(cur@ == seq!['.'] ==> cur.len() == 1 && cur@[0] == '.');
    if keep {
        let piece = string_from_chars(cur.as_slice());
        let ghost before = old(out)@;
        out.push(piece);
        assert(string_views(out@) =~= string_views(before).push(cur@));
    }
}

/// The pieces of a path that `resolve` walks.
pub fn resolve_pieces(path: &str) -> (res: Vec<String>)
    ensures
        string_views(res@) == resolve_parts(path@),
{
    let chars = chars_of(path);
    let mut out: Vec<String> = Vec::new();
    let mut cur: Vec<char> = Vec::new();
    let mut i: usize = 0;
    while i < chars.len()
        invariant
            i <= chars.len(),
            chars@ == path@,
            segments(chars@.take(i as int)).last() == cur@,
            string_views(out@) == resolve_kept(segments(chars@.take(i as int)).drop_last()),
        decreases chars.len() - i,
    {
        let c = chars[i];
        let ghost prev = chars@.take(i as int);
        proof {
            lemma_segments_len(prev);
            assert(chars@.take(i + 1).drop_last() =~= prev);
        }
        if c == '/' || c == '\\' {
            flush_piece(&mut out, &cur);
            cur = Vec::new();
            proof {
                let segs = segments(prev);
                assert(segments(chars@.take(i + 1)) == segs.push(Seq::<char>::empty()));
                assert(segs.push(Seq::<char>::empty()).drop_last() =~= segs);
                assert(segs =~= segs.drop_last().push(segs.last()));
            }
        } else {
            cur.push(c);
            proof {
                let segs = segments(prev);
                let segs2 = segs.update(segs.len() - 1, segs.last().push(c));
                assert(segments(chars@.take(i + 1)) == segs2);
                assert(segs2.drop_last() =~= segs.drop_last());
            }
        }
        i = i + 1;
    }
    assert(chars@.take(i as int) =~= chars@);
    proof {
        lemma_segments_len(chars@);
        let segs = segments(chars@);
        assert(segs =~= segs.drop_last().push(segs.last()));
    }
    flush_piece(&mut out, &cur);
    out
}

impl Tree {
    /// Resolves a path like `\docs\report.txt` (or with forward slashes) to a
    /// node.
    pub fn resolve(&self, path: &str) -> (res: Option<u32>)
        requires
            self.wf(),
        ensures
            res == walk_down(self@, ROOT as int, resolve_parts(path@)),
    {
        let ghost ns = self.nodes@;
        let parts = resolve_pieces(path);
        let ghost ps = string_views(parts@);
        let mut cur: u32 = ROOT;
        for k in 0..parts.len()
            invariant
                self.wf(),
                ns == self.nodes@,
                ps == string_views(parts@),
                ps == resolve_parts(path@),
                cur < ns.len(),
                walk_down(ns, 0, ps.take(k as int)) == Some(cur),
        {
            proof {
                assert(ps.take(k + 1).drop_last() =~= ps.take(k as int));
                assert(ps.take(k + 1).last() == parts@[k as int]@);
            }
            if !self.nodes[cur as usize].is_dir {
                proof {
                    lemma_walk_down_stuck(ns, 0, ps, k + 1);
                }
                return None;
            }
            match self.lookup_child(cur, parts[k].as_str()) {
                Some(c) => {
                    proof {
                        lemma_child_keyed_bounded(ns, cur as int, parts@[k as int]@);
                    }
                    cur = c;
                },
                None => {
                    proof {
                        lemma_walk_down_stuck(ns, 0, ps, k + 1);
                    }
                    return None;
                },
            }
        }
        proof {
            assert(ps.take(parts@.len() as int) =~= ps);
        }
        Some(cur)
    }

    /// The names from the root down to `id`.
    fn ancestry_names(&self, id: u32) -> (res: Vec<Vec<char>>)
        requires
            self.wf(),
            id < self@.len(),
        ensures
            res@.map_values(|v: Vec<char>| v@) == ancestry(self@, id as int),
        decreases id,
    {
        if id == ROOT {
            let v: Vec<Vec<char>> = Vec::new();
            assert(v@.map_values(|v: Vec<char>| v@) =~= Seq::<Seq<char>>::empty());
            return v;
        }
        let parent = self.nodes[id as usize].parent;
        let mut v = self.ancestry_names(parent);
        let ghost before = v@;
        v.push(chars_of(self.nodes[id as usize].name.as_str()));
        assert(v@.map_values(|v: Vec<char>| v@) =~= before.map_values(|v: Vec<char>| v@).push(
            self@[id as int].name@,
        ));
        v
    }

    /// A node's full path from the root, with backslashes — fit for printing
    /// next to the mounted drive's letter.
    pub fn path_of(&self, id: u32) -> (res: String)
        requires
            self.wf(),
            id < self@.len(),
        ensures
            res@ == join_path(ancestry(self@, id as int)),
    {
        let names = self.ancestry_names(id);
        let ghost ps = names@.map_values(|v: Vec<char>| v@);
        let mut out: Vec<char> = Vec::new();
        for k in 0..names.len()
            invariant
                ps == names@.map_values(|v: Vec<char>| v@),
                out@ == join_path(ps.take(k as int)),
        {
            let ghost before = out@;
            if k > 0 {
                out.push('\\');
            }
            let part = &names[k];
            for j in 0..part.len()
                invariant
                    out@ == (if k > 0 {
                        before + seq!['\\']
                    } else {
                        before
                    }) + part@.take(j as int),
            {
                out.push(part[j]);
                proof {
                    assert(part@.take(j + 1) =~= part@.take(j as int).push(part@[j as int]));
                }
            }
            proof {
                assert(part@.take(part@.len() as int) =~= part@);
                assert(ps.take(k + 1).drop_last() =~= ps.take(k as int));
                assert(ps.take(k + 1).last() == part@);
                if k == 0 {
                    assert(before =~= Seq::<char>::empty());
                    assert(Seq::<char>::empty() + part@ =~= part@);
                }
            }
        }
        proof {
            assert(ps.take(names@.len() as int) =~= ps);
        }
        string_from_chars(out.as_slice())
    }
}

// ---------------------------------------------------------------------------
// Subtrees and walks
// ---------------------------------------------------------------------------

/// Whether node `n` lies in the subtree of `a`: `a` is `n` or one of its
/// ancestors.
pub open spec fn is_desc(ns: Seq<Node>, n: int, a: int) -> bool
    decreases n,
{
    if n == a {
        true
    } else if n <= 0 || n >= ns.len() || ns[n].parent >= n {
        false
    } else {
        is_desc(ns, ns[n].parent as int, a)
    }
}

/// Ancestors have smaller ids.
pub proof fn lemma_desc_le(ns: Seq<Node>, n: int, a: int)
    requires
        is_desc(ns, n, a),
    ensures
        a <= n,
    decreases n,
{
    if n != a {
        lemma_desc_le(ns, ns[n].parent as int, a);
    }
}

/// Being in a subtree is transitive.
pub proof fn lemma_desc_trans(ns: Seq<Node>, a: int, b: int, c: int)
    requires
        is_desc(ns, a, b),
        is_desc(ns, b, c),
    ensures
        is_desc(ns, a, c),
    decreases a,
{
    if a != b {
        lemma_desc_trans(ns, ns[a].parent as int, b, c);
    }
}

/// Every node lies in the root's subtree.
pub proof fn lemma_desc_root(ns: Seq<Node>, n: int)
    requires
        nodes_linked(ns),
        0 <= n < ns.len(),
    ensures
        is_desc(ns, n, 0),
    decreases n,
{
    if n > 0 {
        lemma_desc_root(ns, ns[n].parent as int);
    }
}

/// A node strictly inside the subtree of `p` lies in the subtree of one of
/// `p`'s children.
pub proof fn lemma_desc_child(ns: Seq<Node>, n: int, p: int)
    requires
        nodes_linked(ns),
        0 <= n < ns.len(),
        is_desc(ns, n, p),
        n != p,
    ensures
        exists|j: int|
            0 <= j < ns[p].children@.len() && is_desc(ns, n, #[trigger] ns[p].children@[j] as int),
    decreases n,
{
    let q = ns[n].parent as int;
    if q == p {
        assert(ns[ns[n].parent as int].children@.contains(n as u32));
        let j = choose|j: int| 0 <= j < ns[p].children@.len() && ns[p].children@[j] == n as u32;
        assert(is_desc(ns, n, ns[p].children@[j] as int));
    } else {
        lemma_desc_child(ns, q, p);
        let j = choose|j: int|
            0 <= j < ns[p].children@.len() && is_desc(ns, q, #[trigger] ns[p].children@[j] as int);
        assert(is_desc(ns, n, ns[p].children@[j] as int));
    }
}

/// Distinct ids below a bound are no more than the bound.
proof fn lemma_distinct_bound(s: Seq<u32>, bound: int)
    requires
        s.no_duplicates(),
        forall|i: int| 0 <= i < s.len() ==> (#[trigger] s[i]) < bound,
        bound >= 0,
    ensures
        s.len() <= bound,
{
    let m = s.map_values(|c: u32| c as int);
    assert forall|i: int, j: int| 0 <= i < m.len() && 0 <= j < m.len() && i != j implies m[i] != m[j] by {
        assert(s[i] != s[j]);
    }
    m.unique_seq_to_set();
    vstd::set_lib::lemma_int_range(0, bound);
    assert forall|x: int| m.to_set().contains(x) implies vstd::set_lib::set_int_range(0, bound).contains(x) by {
        let j = choose|j: int| 0 <= j < m.len() && m[j] == x;
        assert(s[j] < bound);
    }
    vstd::set_lib::lemma_len_subset(m.to_set(), vstd::set_lib::set_int_range(0, bound));
}

/// The state of a depth-first walk of the subtree of `start`: what was
/// visited and what waits on the stack lie in the subtree; the waiting nodes'
/// subtrees are disjoint from each other and from what was visited; and
/// together they cover the whole subtree.
#[verifier::opaque]
pub open spec fn walk_state(ns: Seq<Node>, start: int, out: Seq<u32>, stack: Seq<u32>) -> bool {
    &&& out.no_duplicates()
    &&& forall|i: int| 0 <= i < out.len() ==> (#[trigger] out[i]) < ns.len() && is_desc(ns, out[i] as int, start)
    &&& forall|j: int| 0 <= j < stack.len() ==> (#[trigger] stack[j]) < ns.len() && is_desc(ns, stack[j] as int, start)
    &&& forall|j: int, k: int|
        0 <= j < stack.len() && 0 <= k < stack.len() && j != k ==> !is_desc(ns, #[trigger] stack[j] as int, #[trigger] stack[k] as int)
    &&& forall|i: int, j: int|
        0 <= i < out.len() && 0 <= j < stack.len() ==> !is_desc(ns, #[trigger] out[i] as int, #[trigger] stack[j] as int)
    &&& forall|n: int|
        0 <= n < ns.len() && #[trigger] is_desc(ns, n, start) ==> out.contains(n as u32) || exists|j: int|
            0 <= j < stack.len() && is_desc(ns, n, #[trigger] stack[j] as int)
}

/// One step of the walk: the top of the stack is visited and its children
/// wait in its place.
#[verifier::rlimit(40)]
proof fn lemma_walk_step(ns: Seq<Node>, start: int, out: Seq<u32>, stack: Seq<u32>)
    requires
        nodes_linked(ns),
        children_sorted(ns),
        walk_state(ns, start, out, stack),
        stack.len() > 0,
    ensures
        !out.contains(stack.last()),
        walk_state(ns, start, out.push(stack.last()), stack.drop_last() + ns[stack.last() as int].children@),
{
    reveal(walk_state);
    let id = stack.last() as int;
    let rest = stack.drop_last();
    let ch = ns[id].children@;
    let ns2 = rest + ch;
    let out2 = out.push(id as u32);
    assert(is_desc(ns, id, id));
    // Children are strictly sorted, hence distinct.
    assert forall|a: int, b: int| 0 <= a < ch.len() && 0 <= b < ch.len() && a != b implies ch[a] != ch[b] by {
        assert(sorted_at(ns, id));
        if a < b {
            assert(lex_lt(node_key(ns[ch[a] as int]), node_key(ns[ch[b] as int])));
        } else {
            assert(lex_lt(node_key(ns[ch[b] as int]), node_key(ns[ch[a] as int])));
        }
        if ch[a] == ch[b] {
            lemma_lex_irreflexive(node_key(ns[ch[a] as int]));
        }
    }
    // The children lie below `id`.
    assert forall|a: int| 0 <= a < ch.len() implies #[trigger] is_desc(ns, ch[a] as int, id) && id < ch[a]
        && ch[a] < ns.len() by {
        assert(0 < ch[a] < ns.len() && ns[ch[a] as int].parent == id);
    }
    // `id` was not visited.
    if out.contains(id as u32) {
        let i = choose|i: int| 0 <= i < out.len() && out[i] == id as u32;
        assert(!is_desc(ns, out[i] as int, stack[stack.len() - 1] as int));
    }
    assert(out2.no_duplicates());
    assert forall|i: int| 0 <= i < out2.len() implies (#[trigger] out2[i]) < ns.len() && is_desc(ns, out2[i] as int, start) by {
        if i < out.len() {
            assert(out2[i] == out[i]);
        } else {
            assert(stack[stack.len() - 1] == id as u32);
        }
    }
    assert forall|j: int| 0 <= j < ns2.len() implies (#[trigger] ns2[j]) < ns.len() && is_desc(ns, ns2[j] as int, start) by {
        if j < rest.len() {
            assert(ns2[j] == stack[j]);
        } else {
            let a = j - rest.len();
            assert(ns2[j] == ch[a]);
            assert(is_desc(ns, ch[a] as int, id));
            assert(is_desc(ns, id, start));
            lemma_desc_trans(ns, ch[a] as int, id, start);
        }
    }
    assert forall|j: int, k: int|
        0 <= j < ns2.len() && 0 <= k < ns2.len() && j != k implies !is_desc(ns, #[trigger] ns2[j] as int, #[trigger] ns2[k] as int) by {
        if j < rest.len() && k < rest.len() {
            assert(ns2[j] == stack[j] && ns2[k] == stack[k]);
        } else if j >= rest.len() && k >= rest.len() {
            let a = j - rest.len();
            let b = k - rest.len();
            assert(ns2[j] == ch[a] && ns2[k] == ch[b]);
            if is_desc(ns, ch[a] as int, ch[b] as int) {
                assert(ch[a] != ch[b]);
                assert(is_desc(ns, id, ch[b] as int));
                lemma_desc_le(ns, id, ch[b] as int);
            }
        } else if j < rest.len() {
            let b = k - rest.len();
            let r = stack[j] as int;
            assert(ns2[j] == stack[j] && ns2[k] == ch[b]);
            assert(!is_desc(ns, r, id) && !is_desc(ns, id, r));
            if is_desc(ns, r, ch[b] as int) {
                lemma_desc_trans(ns, r, ch[b] as int, id);
            }
        } else {
            let a = j - rest.len();
            let r = stack[k] as int;
            assert(ns2[j] == ch[a] && ns2[k] == stack[k]);
            assert(!is_desc(ns, r, id) && !is_desc(ns, id, r));
            if is_desc(ns, ch[a] as int, r) {
                if ch[a] as int == r {
                    assert(is_desc(ns, r, id));
                } else {
                    assert(is_desc(ns, id, r));
                }
            }
        }
    }
    assert forall|i: int, j: int|
        0 <= i < out2.len() && 0 <= j < ns2.len() implies !is_desc(ns, #[trigger] out2[i] as int, #[trigger] ns2[j] as int) by {
        if i < out.len() {
            assert(out2[i] == out[i]);
            if j < rest.len() {
                assert(ns2[j] == stack[j]);
            } else {
                let a = j - rest.len();
                assert(ns2[j] == ch[a]);
                if is_desc(ns, out[i] as int, ch[a] as int) {
                    lemma_desc_trans(ns, out[i] as int, ch[a] as int, id);
                    assert(!is_desc(ns, out[i] as int, stack[stack.len() - 1] as int));
                }
            }
        } else {
            assert(out2[i] == id as u32);
            if j < rest.len() {
                assert(ns2[j] == stack[j]);
                assert(!is_desc(ns, stack[stack.len() - 1] as int, stack[j] as int));
            } else {
                let a = j - rest.len();
                assert(ns2[j] == ch[a]);
                if is_desc(ns, id, ch[a] as int) {
                    lemma_desc_le(ns, id, ch[a] as int);
                }
            }
        }
    }
    assert forall|n: int|
        0 <= n < ns.len() && #[trigger] is_desc(ns, n, start) implies out2.contains(n as u32) || exists|j: int|
            0 <= j < ns2.len() && is_desc(ns, n, #[trigger] ns2[j] as int) by {
        if out.contains(n as u32) {
            let i = choose|i: int| 0 <= i < out.len() && out[i] == n as u32;
            assert(out2[i] == n as u32);
        } else {
            let j = choose|j: int| 0 <= j < stack.len() && is_desc(ns, n, #[trigger] stack[j] as int);
            if j < rest.len() {
                assert(ns2[j] == stack[j]);
            } else if n == id {
                assert(out2[out.len() as int] == n as u32);
            } else {
                lemma_desc_child(ns, n, id);
                let a = choose|a: int| 0 <= a < ch.len() && is_desc(ns, n, #[trigger] ch[a] as int);
                assert(ns2[rest.len() + a] == ch[a]);
            }
        }
    }
}

impl Tree {
    /// Walk over a subtree, depth first, starting at a given node: every node
    /// of the subtree exactly once.
    pub fn walk_from(&self, start: u32) -> (res: Vec<u32>)
        requires
            self.wf(),
            start < self@.len(),
        ensures
            res@.no_duplicates(),
            forall|n: u32| #[trigger] res@.contains(n) <==> n < self@.len() && is_desc(self@, n as int, start as int),
            res@.len() > 0,
            res@[0] == start,
    {
        let ghost ns = self.nodes@;
        let mut out: Vec<u32> = Vec::new();
        let mut stack: Vec<u32> = Vec::new();
        stack.push(start);
        proof {
            reveal(walk_state);
            assert(is_desc(ns, start as int, start as int));
            assert forall|n: int| 0 <= n < ns.len() && #[trigger] is_desc(ns, n, start as int) implies out@.contains(n as u32) || exists|j: int|
                0 <= j < stack@.len() && is_desc(ns, n, #[trigger] stack@[j] as int) by {
                assert(stack@[0] == start);
            }
            assert(walk_state(ns, start as int, out@, stack@));
        }
        while stack.len() > 0
            invariant
                self.wf(),
                ns == self.nodes@,
                nodes_linked(ns),
                children_sorted(ns),
                start < ns.len(),
                walk_state(ns, start as int, out@, stack@),
                out@.len() <= ns.len(),
                out@.len() == 0 ==> stack@ == seq![start],
                out@.len() > 0 ==> out@[0] == start,
            decreases ns.len() - out@.len(),
        {
            let ghost before_out = out@;
            let ghost before_stack = stack@;
            let id = stack.pop().unwrap();
            proof {
                assert(before_stack.last() == id);
                assert(stack@ == before_stack.drop_last());
                lemma_walk_step(ns, start as int, before_out, before_stack);
                reveal(walk_state);
            }
            let ghost was_empty = out@.len() == 0;
            out.push(id);
            assert(out@.len() > 0 && out@[0] == start) by {
                if was_empty {
                    assert(before_stack == seq![start]);
                }
            }
            let children = &self.nodes[id as usize].children;
            let ghost rest = stack@;
            for j in 0..children.len()
                invariant
                    stack@ == rest + children@.take(j as int),
            {
                stack.push(children[j]);
                proof {
                    assert(rest + children@.take(j + 1) =~= (rest + children@.take(j as int)).push(children@[j as int]));
                }
            }
            proof {
                assert(children@.take(children@.len() as int) =~= children@);
                reveal(walk_state);
                lemma_distinct_bound(out@, ns.len() as int);
            }
        }
        proof {
            reveal(walk_state);
            assert(out@.contains(start));
            assert forall|n: u32| #[trigger] out@.contains(n) <==> n < ns.len() && is_desc(ns, n as int, start as int) by {
                if out@.contains(n) {
                    let i = choose|i: int| 0 <= i < out@.len() && out@[i] == n;
                    assert(out@[i] < ns.len());
                }
                if n < ns.len() && is_desc(ns, n as int, start as int) {
                    assert(out@.contains(n as int as u32));
                }
            }
        }
        out
    }

    /// Depth-first walk over all nodes. Used by search and statistics.
    pub fn walk(&self) -> (res: Vec<u32>)
        requires
            self.wf(),
        ensures
            res@.no_duplicates(),
            forall|n: u32| #[trigger] res@.contains(n) <==> n < self@.len(),
            res@.len() > 0,
            res@[0] == ROOT,
    {
        proof {
            self.lemma_wf_linked();
        }
        let res = self.walk_from(ROOT);
        proof {
            assert forall|n: u32| #[trigger] res@.contains(n) <==> n < self@.len() by {
                if n < self@.len() {
                    lemma_desc_root(self@, n as int);
                }
            }
        }
        res
    }

    /// Whether a node lies inside the subtree of `ancestor`.
    ///
    /// Walks up through parents rather than down through children: the tree is
    /// tens of levels deep, while a subtree can hold tens of thousands of
    /// nodes.
    pub fn is_under(&self, node: u32, ancestor: u32) -> (res: bool)
        requires
            self.wf(),
            node < self@.len(),
        ensures
            res == is_desc(self@, node as int, ancestor as int),
    {
        let ghost ns = self.nodes@;
        if ancestor == ROOT {
            proof {
                lemma_desc_root(ns, node as int);
            }
            return true;
        }
        let mut cur = node;
        loop
            invariant
                self.wf(),
                ns == self.nodes@,
                nodes_linked(ns),
                cur < ns.len(),
                ancestor != ROOT,
                is_desc(ns, node as int, ancestor as int) == is_desc(ns, cur as int, ancestor as int),
            decreases cur,
        {
            if cur == ancestor {
                return true;
            }
            if cur == ROOT {
                return false;
            }
            cur = self.nodes[cur as usize].parent;
        }
    }
}

/// A file node: not a directory, and naming an entry.
pub open spec fn is_file_node(n: Node) -> bool {
    !n.is_dir && n.entry is Some
}

/// The number of files among the first `k` nodes.
pub open spec fn count_files(ns: Seq<Node>, k: int) -> nat
    decreases k,
{
    if k <= 0 {
        0
    } else {
        count_files(ns, k - 1) + if ns[k - 1].is_dir {
            0nat
        } else {
            1nat
        }
    }
}

/// The number of directories among the first `k` nodes.
pub open spec fn count_dirs(ns: Seq<Node>, k: int) -> nat
    decreases k,
{
    if k <= 0 {
        0
    } else {
        count_dirs(ns, k - 1) + if ns[k - 1].is_dir {
            1nat
        } else {
            0nat
        }
    }
}

/// The total size of the files among the first `k` nodes.
pub open spec fn total_size(ns: Seq<Node>, k: int) -> nat
    decreases k,
{
    if k <= 0 {
        0
    } else {
        total_size(ns, k - 1) + if ns[k - 1].is_dir {
            0nat
        } else {
            ns[k - 1].size as nat
        }
    }
}

proof fn lemma_total_mono(ns: Seq<Node>, j: int, k: int)
    requires
        0 <= j <= k,
    ensures
        total_size(ns, j) <= total_size(ns, k),
    decreases k - j,
{
    if j < k {
        lemma_total_mono(ns, j, k - 1);
    }
}

proof fn lemma_counts_bounded(ns: Seq<Node>, k: int)
    requires
        0 <= k,
    ensures
        count_files(ns, k) <= k,
        count_dirs(ns, k) <= k,
    decreases k,
{
    if k > 0 {
        lemma_counts_bounded(ns, k - 1);
    }
}

/// Counts of a tree: files, directories (the root not counted), and the
/// files' total size.
#[derive(Debug, Default, Clone, Copy)]
pub struct TreeStats {
    pub files: u64,
    pub dirs: u64,
    pub total_uncompressed: u64,
}

/// Whether a node is the file of entry `e`.
pub open spec fn names_entry(n: Node, e: int) -> bool {
    !n.is_dir && n.entry is Some && n.entry->0 as int == e
}

/// Records node `id` in the map under its entry, if it is a file whose
/// entry is in range.
fn note_entry(map: &mut Vec<Option<u32>>, node: &Node, id: u32)
    ensures
        final(map)@ == (if !node.is_dir && node.entry is Some && (node.entry->0 as int) < old(map)@.len() {
            old(map)@.update(node.entry->0 as int, Some(id))
        } else {
            old(map)@
        }),
{
    if !node.is_dir {
        if let Some(e) = node.entry {
            if (e as usize) < map.len() {
                map.set(e as usize, Some(id));
            }
        }
    }
}

impl Tree {
    /// File nodes inside a subtree.
    pub fn file_ids_under(&self, start: u32) -> (res: Vec<u32>)
        requires
            self.wf(),
            start < self@.len(),
        ensures
            res@.no_duplicates(),
            forall|n: u32| #[trigger] res@.contains(n) <==> n < self@.len() && is_desc(self@, n as int, start as int)
                && is_file_node(self@[n as int]),
    {
        let ghost ns = self.nodes@;
        let order = self.walk_from(start);
        let mut out: Vec<u32> = Vec::new();
        for k in 0..order.len()
            invariant
                ns == self.nodes@,
                order@.no_duplicates(),
                forall|n: u32| #[trigger] order@.contains(n) <==> n < ns.len() && is_desc(ns, n as int, start as int),
                out@.no_duplicates(),
                forall|i: int|
                    0 <= i < out@.len() ==> #[trigger] out@[i] < ns.len() && is_file_node(ns[out@[i] as int])
                        && exists|j: int| 0 <= j < k && order@[j] == out@[i],
                forall|j: int|
                    0 <= j < k && is_file_node(ns[#[trigger] order@[j] as int]) ==> out@.contains(order@[j]),
        {
            let id = order[k];
            proof {
                assert(order@.contains(id));
            }
            let node = &self.nodes[id as usize];
            if !node.is_dir && node.entry.is_some() {
                let ghost before = out@;
                proof {
                    if before.contains(id) {
                        let i = choose|i: int| 0 <= i < before.len() && before[i] == id;
                        let j = choose|j: int| 0 <= j < k && order@[j] == before[i];
                        assert(order@[j] == order@[k as int]);
                    }
                }
                out.push(id);
                proof {
                    assert forall|i: int| 0 <= i < out@.len() implies #[trigger] out@[i] < ns.len()
                        && is_file_node(ns[out@[i] as int]) && exists|j: int| 0 <= j < k + 1 && order@[j] == out@[i] by {
                        if i < before.len() {
                            assert(out@[i] == before[i]);
                        } else {
                            assert(order@[k as int] == out@[i]);
                        }
                    }
                    assert forall|j: int| 0 <= j < k + 1 && is_file_node(ns[#[trigger] order@[j] as int]) implies out@.contains(order@[j]) by {
                        if j < k {
                            let m = choose|m: int| 0 <= m < before.len() && before[m] == order@[j];
                            assert(out@[m] == order@[j]);
                        } else {
                            assert(out@[before.len() as int] == id);
                        }
                    }
                }
            }
        }
        proof {
            assert forall|n: u32| #[trigger] out@.contains(n) <==> n < ns.len() && is_desc(ns, n as int, start as int)
                && is_file_node(ns[n as int]) by {
                if out@.contains(n) {
                    let i = choose|i: int| 0 <= i < out@.len() && out@[i] == n;
                    let j = choose|j: int| 0 <= j < order@.len() && order@[j] == out@[i];
                    assert(order@.contains(n));
                }
                if n < ns.len() && is_desc(ns, n as int, start as int) && is_file_node(ns[n as int]) {
                    assert(order@.contains(n));
                    let j = choose|j: int| 0 <= j < order@.len() && order@[j] == n;
                }
            }
        }
        out
    }

    /// Indices of all file nodes. The basis for search and verification.
    pub fn file_ids(&self) -> (res: Vec<u32>)
        requires
            self.wf(),
        ensures
            res@.no_duplicates(),
            forall|n: u32| #[trigger] res@.contains(n) <==> n < self@.len() && is_file_node(self@[n as int]),
    {
        let res = self.file_ids_under(ROOT);
        proof {
            assert forall|n: u32| #[trigger] res@.contains(n) <==> n < self@.len() && is_file_node(self@[n as int]) by {
                if n < self@.len() {
                    lemma_desc_root(self@, n as int);
                }
            }
        }
        res
    }

    /// The reverse map "backend entry index -> tree node" for the first
    /// `entry_count` entries.
    ///
    /// Needed by the block-wise 7z walk: entries arrive in block order, not
    /// tree order, and searching for the node by brute force for each of
    /// hundreds of thousands of entries will not do.
    pub fn entry_node_map(&self, entry_count: usize) -> (res: Vec<Option<u32>>)
        requires
            self.wf(),
        ensures
            res@.len() == entry_count,
            forall|e: int|
                0 <= e < entry_count && (#[trigger] res@[e]) is Some ==> res@[e]->0 < self@.len()
                    && names_entry(self@[res@[e]->0 as int], e),
            forall|e: int, n: int|
                0 <= e < entry_count && 0 <= n < self@.len() && (#[trigger] res@[e]) is None ==> !names_entry(
                    #[trigger] self@[n],
                    e,
                ),
    {
        let ghost ns = self.nodes@;
        let mut map: Vec<Option<u32>> = Vec::new();
        for i in 0..entry_count
            invariant
                map@.len() == i,
                forall|e: int| 0 <= e < i ==> #[trigger] map@[e] is None,
        {
            map.push(None);
        }
        let order = self.walk();
        for k in 0..order.len()
            invariant
                ns == self.nodes@,
                map@.len() == entry_count,
                forall|n: u32| #[trigger] order@.contains(n) <==> n < ns.len(),
                forall|e: int|
                    0 <= e < entry_count && (#[trigger] map@[e]) is Some ==> map@[e]->0 < ns.len()
                        && names_entry(ns[map@[e]->0 as int], e),
                forall|e: int, j: int|
                    0 <= e < entry_count && 0 <= j < k && (#[trigger] map@[e]) is None ==> !names_entry(
                        ns[#[trigger] order@[j] as int],
                        e,
                    ),
        {
            let id = order[k];
            proof {
                assert(order@.contains(id));
            }
            let ghost before = map@;
            note_entry(&mut map, &self.nodes[id as usize], id);
            proof {
                let nd = ns[id as int];
                assert forall|e: int, j: int|
                    0 <= e < entry_count && 0 <= j < k + 1 && (#[trigger] map@[e]) is None implies !names_entry(
                        ns[#[trigger] order@[j] as int],
                        e,
                    ) by {
                    if j < k {
                        assert(before[e] is None);
                    }
                }
                assert forall|e: int| 0 <= e < entry_count && (#[trigger] map@[e]) is Some implies map@[e]->0
                    < ns.len() && names_entry(ns[map@[e]->0 as int], e) by {
                    if before[e] is None {
                        assert(map@[e] == Some(id));
                    }
                }
            }
        }
        proof {
            assert forall|e: int, n: int|
                0 <= e < entry_count && 0 <= n < ns.len() && (#[trigger] map@[e]) is None implies !names_entry(
                #[trigger] ns[n],
                e,
            ) by {
                assert(order@.contains(n as u32));
                let j = choose|j: int| 0 <= j < order@.len() && order@[j] == n as u32;
                assert(ns[order@[j] as int] == ns[n]);
            }
        }
        map
    }

    /// The file node of the backend entry with the given index.
    pub fn node_of_entry(&self, entry: u32) -> (res: Option<u32>)
        requires
            self.wf(),
        ensures
            match res {
                Some(n) => n < self@.len() && names_entry(self@[n as int], entry as int),
                None => forall|n: int| 0 <= n < self@.len() ==> !names_entry(#[trigger] self@[n], entry as int),
            },
    {
        let ghost ns = self.nodes@;
        let order = self.walk();
        let mut found: Option<u32> = None;
        for k in 0..order.len()
            invariant
                ns == self.nodes@,
                forall|n: u32| #[trigger] order@.contains(n) <==> n < ns.len(),
                match found {
                    Some(n) => n < ns.len() && names_entry(ns[n as int], entry as int),
                    None => forall|j: int| 0 <= j < k ==> !names_entry(ns[#[trigger] order@[j] as int], entry as int),
                },
        {
            let id = order[k];
            proof {
                assert(order@.contains(id));
            }
            let node = &self.nodes[id as usize];
            if node.entry == Some(entry) && !node.is_dir {
                found = Some(id);
            }
        }
        proof {
            if found is None {
                assert forall|n: int| 0 <= n < ns.len() implies !names_entry(#[trigger] ns[n], entry as int) by {
                    assert(order@.contains(n as u32));
                    let j = choose|j: int| 0 <= j < order@.len() && order@[j] == n as u32;
                    assert(ns[order@[j] as int] == ns[n]);
                }
            }
        }
        found
    }

    /// Counts files and directories, and adds up the files' sizes. The root
    /// does not count as a directory.
    pub fn stats(&self) -> (res: TreeStats)
        requires
            self.wf(),
            total_size(self@, self@.len() as int) <= u64::MAX,
        ensures
            res.files == count_files(self@, self@.len() as int),
            res.dirs == count_dirs(self@, self@.len() as int) - 1,
            res.total_uncompressed == total_size(self@, self@.len() as int),
    {
        let ghost ns = self.nodes@;
        let mut files: u64 = 0;
        let mut dirs: u64 = 0;
        let mut total: u64 = 0;
        for k in 0..self.nodes.len()
            invariant
                ns == self.nodes@,
                nodes_linked(ns),
                total_size(ns, ns.len() as int) <= u64::MAX,
                files == count_files(ns, k as int),
                dirs == count_dirs(ns, k as int),
                total == total_size(ns, k as int),
                k > 0 ==> dirs >= 1,
        {
            proof {
                lemma_counts_bounded(ns, k + 1);
                lemma_total_mono(ns, k + 1, ns.len() as int);
            }
            let node = &self.nodes[k];
            if node.is_dir {
                dirs = dirs + 1;
            } else {
                files = files + 1;
                total = total + node.size;
            }
        }
        TreeStats { files, dirs: dirs - 1, total_uncompressed: total }
    }
}

} // verus!
