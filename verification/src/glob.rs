//! File name patterns: command-line wildcards (`*` any run, `?` one
//! character, case ignored) and the patterns Windows passes when it lists a
//! directory.

use vstd::prelude::*;
use vstd::multiset::Multiset;

use crate::text::{chars_of, string_from_chars};
use crate::tree::{ancestry, join_path, lex_lt, lower_key, lower_key_of, Tree, ROOT};

verus! {

// ---------------------------------------------------------------------------
// What a pattern means
// ---------------------------------------------------------------------------

/// Wildcard matching: `*` stands for any run of characters, `?` for one,
/// anything else for itself.
pub open spec fn wild(p: Seq<char>, n: Seq<char>) -> bool
    decreases p.len(), n.len(),
{
    if p.len() == 0 {
        n.len() == 0
    } else if p[0] == '*' {
        wild(p.drop_first(), n) || (n.len() > 0 && wild(p, n.drop_first()))
    } else {
        n.len() > 0 && (p[0] == '?' || p[0] == n[0]) && wild(p.drop_first(), n.drop_first())
    }
}

pub open spec fn star_free(s: Seq<char>) -> bool {
    forall|i: int| 0 <= i < s.len() ==> s[i] != '*'
}

pub open spec fn all_stars(s: Seq<char>) -> bool {
    forall|i: int| 0 <= i < s.len() ==> s[i] == '*'
}

/// `a` matches `b` character by character, `?` matching anything.
pub open spec fn lit_match(a: Seq<char>, b: Seq<char>) -> bool {
    a.len() == b.len() && forall|i: int| 0 <= i < a.len() ==> a[i] == '?' || a[i] == b[i]
}

// ---------------------------------------------------------------------------
// How the matcher runs
// ---------------------------------------------------------------------------

/// The matcher's run from state (`pi`, `ni`, `star`, `bt`): the classic
/// two-pointer algorithm that goes back to the last star, with no recursion
/// and no exponential time on patterns like `*a*a*a*`. A `*` in the pattern
/// is always a star, whatever the name holds.
pub open spec fn glob_run(p: Seq<char>, n: Seq<char>, pi: int, ni: int, star: Option<int>, bt: int) -> bool
    decreases (if star is Some {
        n.len() - bt
    } else {
        n.len() + 1int
    }), n.len() - ni, p.len() - pi,
    when 0 <= bt <= ni <= n.len() && 0 <= pi <= p.len() && (star matches Some(s) ==> 0 <= s < pi)
{
    if ni < n.len() {
        if pi < p.len() && p[pi as int] == '*' {
            glob_run(p, n, pi + 1, ni, Some(pi), ni)
        } else if pi < p.len() && (p[pi as int] == '?' || p[pi as int] == n[ni as int]) {
            glob_run(p, n, pi + 1, ni + 1, star, bt)
        } else {
            match star {
                Some(s) => glob_run(p, n, s + 1, bt + 1, star, bt + 1),
                None => false,
            }
        }
    } else {
        all_stars(p.skip(pi as int))
    }
}

/// What the matcher answers for pattern `p` and name `n`, both lower-cased.
pub open spec fn glob_result(p: Seq<char>, n: Seq<char>) -> bool {
    glob_run(p, n, 0, 0, None, 0)
}

// ---------------------------------------------------------------------------
// Why it answers right
// ---------------------------------------------------------------------------

proof fn lemma_empty_name(q: Seq<char>)
    ensures
        wild(q, Seq::empty()) == all_stars(q),
    decreases q.len(),
{
    if q.len() > 0 {
        lemma_empty_name(q.drop_first());
        if q[0] == '*' {
            assert(all_stars(q) == all_stars(q.drop_first())) by {
                if all_stars(q.drop_first()) {
                    assert forall|i: int| 0 <= i < q.len() implies q[i] == '*' by {
                        if i > 0 {
                            assert(q[i] == q.drop_first()[i - 1]);
                        }
                    }
                }
            }
        } else {
            assert(!all_stars(q));
        }
    } else {
        assert(all_stars(q));
    }
}

/// A star-free prefix that matches literally can be dropped from both.
proof fn lemma_literal_prefix(a: Seq<char>, b: Seq<char>, q: Seq<char>, t: Seq<char>)
    requires
        star_free(a),
        lit_match(a, b),
    ensures
        wild(a + q, b + t) == wild(q, t),
    decreases a.len(),
{
    if a.len() > 0 {
        assert((a + q)[0] == a[0]);
        assert((b + t)[0] == b[0]);
        assert((a + q).drop_first() =~= a.drop_first() + q);
        assert((b + t).drop_first() =~= b.drop_first() + t);
        assert(star_free(a.drop_first())) by {
            assert forall|i: int| 0 <= i < a.drop_first().len() implies a.drop_first()[i] != '*' by {
                assert(a.drop_first()[i] == a[i + 1]);
            }
        }
        assert(lit_match(a.drop_first(), b.drop_first())) by {
            assert forall|i: int| 0 <= i < a.drop_first().len() implies a.drop_first()[i] == '?'
                || a.drop_first()[i] == b.drop_first()[i] by {
                assert(a.drop_first()[i] == a[i + 1]);
                assert(b.drop_first()[i] == b[i + 1]);
            }
        }
        lemma_literal_prefix(a.drop_first(), b.drop_first(), q, t);
    } else {
        assert(a + q =~= q);
        assert(b + t =~= t);
    }
}

/// A star-free prefix of the pattern takes as many characters of the name.
proof fn lemma_star_free_prefix(a: Seq<char>, q: Seq<char>, t: Seq<char>)
    requires
        star_free(a),
        wild(a + q, t),
    ensures
        t.len() >= a.len(),
        wild(q, t.skip(a.len() as int)),
    decreases a.len(),
{
    if a.len() > 0 {
        assert((a + q)[0] == a[0]);
        assert((a + q).drop_first() =~= a.drop_first() + q);
        assert(star_free(a.drop_first())) by {
            assert forall|i: int| 0 <= i < a.drop_first().len() implies a.drop_first()[i] != '*' by {
                assert(a.drop_first()[i] == a[i + 1]);
            }
        }
        lemma_star_free_prefix(a.drop_first(), q, t.drop_first());
        assert(t.drop_first().skip(a.drop_first().len() as int) =~= t.skip(a.len() as int));
    } else {
        assert(a + q =~= q);
        assert(t.skip(0) =~= t);
    }
}

/// A leading star that matches a suffix matches every longer suffix.
proof fn lemma_star_widens(q: Seq<char>, t: Seq<char>, k: int, k2: int)
    requires
        q.len() > 0,
        q[0] == '*',
        0 <= k2 <= k <= t.len(),
        wild(q, t.skip(k)),
    ensures
        wild(q, t.skip(k2)),
    decreases k - k2,
{
    if k2 < k {
        lemma_star_widens(q, t, k, k2 + 1);
        assert(t.skip(k2).drop_first() =~= t.skip(k2 + 1));
    }
}

/// A leading star skips some run of the name.
proof fn lemma_star_splits(q: Seq<char>, t: Seq<char>) -> (j: int)
    requires
        q.len() > 0,
        q[0] == '*',
        wild(q, t),
    ensures
        0 <= j <= t.len(),
        wild(q.drop_first(), t.skip(j)),
    decreases t.len(),
{
    if wild(q.drop_first(), t) {
        assert(t.skip(0) =~= t);
        0
    } else {
        let j = lemma_star_splits(q, t.drop_first());
        assert(t.drop_first().skip(j) =~= t.skip(j + 1));
        j + 1
    }
}

/// Where the run stands: without a star, what is left of the pattern must
/// match what is left of the name; with one, the pattern from that star must
/// match the name from where the star started, and what came after the star
/// has matched literally up to here.
pub open spec fn run_state(p: Seq<char>, n: Seq<char>, pi: int, ni: int, star: Option<int>, bt: int) -> bool {
    &&& 0 <= bt <= ni <= n.len()
    &&& 0 <= pi <= p.len()
    &&& match star {
        Some(s) => 0 <= s < pi && p[s as int] == '*' && star_free(p.subrange(s + 1, pi as int))
            && lit_match(p.subrange(s + 1, pi as int), n.subrange(bt as int, ni as int)),
        None => true,
    }
}

pub open spec fn run_target(p: Seq<char>, n: Seq<char>, pi: int, ni: int, star: Option<int>, bt: int) -> bool {
    match star {
        Some(s) => wild(p.skip(s as int), n.skip(bt as int)),
        None => wild(p.skip(pi as int), n.skip(ni as int)),
    }
}

proof fn lemma_split_at(p: Seq<char>, s: int, pi: int)
    requires
        0 <= s < pi <= p.len(),
    ensures
        p.skip(s + 1) =~= p.subrange(s + 1, pi) + p.skip(pi),
        p.skip(s).drop_first() =~= p.skip(s + 1),
        p.skip(s)[0] == p[s],
{
}

proof fn lemma_run(p: Seq<char>, n: Seq<char>, pi: int, ni: int, star: Option<int>, bt: int)
    requires
        run_state(p, n, pi, ni, star, bt),
    ensures
        glob_run(p, n, pi, ni, star, bt) == run_target(p, n, pi, ni, star, bt),
    decreases (if star is Some {
        n.len() - bt
    } else {
        n.len() + 1int
    }), n.len() - ni, p.len() - pi,
{
    let q = p.skip(pi as int);
    let t = n.skip(ni as int);
    if let Some(s) = star {
        lemma_split_at(p, s as int, pi as int);
        assert(n.skip(bt as int) =~= n.subrange(bt as int, ni as int) + t);
        // Both sides of the star's target, tied to what is left here.
        lemma_literal_prefix(p.subrange(s + 1, pi as int), n.subrange(bt as int, ni as int), q, t);
    }
    if ni < n.len() {
        assert(t[0] == n[ni as int]);
        assert(t.drop_first() =~= n.skip(ni + 1));
        if pi < p.len() && p[pi as int] != '*' && (p[pi as int] == '?' || p[pi as int] == n[ni as int]) {
            assert(q[0] == p[pi as int]);
            assert(q.drop_first() =~= p.skip(pi + 1));
            if let Some(s) = star {
                assert(p.subrange(s + 1, pi + 1) =~= p.subrange(s + 1, pi as int).push(p[pi as int]));
                assert(n.subrange(bt as int, ni + 1) =~= n.subrange(bt as int, ni as int).push(
                    n[ni as int],
                ));
            }
            lemma_run(p, n, pi + 1, ni + 1, star, bt);
        } else if pi < p.len() && p[pi as int] == '*' {
            assert(q[0] == '*');
            assert(p.subrange(pi + 1, pi + 1) =~= Seq::<char>::empty());
            assert(n.subrange(ni as int, ni as int) =~= Seq::<char>::empty());
            lemma_run(p, n, pi + 1, ni, Some(pi), ni);
            if let Some(s) = star {
                // The earlier star's target equals the new one's.
                let a = p.subrange(s + 1, pi as int);
                if wild(p.skip(s as int), n.skip(bt as int)) {
                    let j = lemma_star_splits(p.skip(s as int), n.skip(bt as int));
                    assert(n.skip(bt as int).skip(j) =~= n.skip(bt + j));
                    lemma_star_free_prefix(a, q, n.skip(bt + j));
                    assert(n.skip(bt + j).skip(a.len() as int) =~= n.skip(bt + j + a.len()));
                    lemma_star_widens(q, n, bt + j + a.len(), ni as int);
                }
                if wild(q, t) {
                    assert(wild(p.skip(s + 1), n.skip(bt as int)));
                }
            }
        } else {
            // A mismatch: nothing is left to match here.
            assert(!wild(q, t));
            if let Some(s) = star {
                assert(p.subrange(s + 1, s + 1) =~= Seq::<char>::empty());
                assert(n.subrange(bt + 1, bt + 1) =~= Seq::<char>::empty());
                assert(n.skip(bt as int).drop_first() =~= n.skip(bt + 1));
                assert(n.skip(bt as int).len() > 0);
                lemma_run(p, n, s + 1, bt + 1, star, bt + 1);
            }
        }
    } else {
        assert(t =~= Seq::<char>::empty());
        lemma_empty_name(q);
        if let Some(s) = star {
            if wild(p.skip(s as int), n.skip(bt as int)) {
                let a = p.subrange(s + 1, pi as int);
                let j = lemma_star_splits(p.skip(s as int), n.skip(bt as int));
                assert(n.skip(bt as int).skip(j) =~= n.skip(bt + j));
                lemma_star_free_prefix(a, q, n.skip(bt + j));
                assert(n.skip(bt + j).skip(a.len() as int) =~= Seq::<char>::empty());
            }
            if all_stars(q) {
                assert(wild(p.skip(s + 1), n.skip(bt as int)));
            }
        }
    }
}

/// The matcher answers exactly whether the pattern matches the name as
/// wildcards: `*` any run of characters, `?` one, anything else itself.
pub proof fn glob_is_wildcard_matching(p: Seq<char>, n: Seq<char>)
    ensures
        glob_result(p, n) == wild(p, n),
{
    lemma_run(p, n, 0, 0, None, 0);
    assert(p.skip(0) =~= p);
    assert(n.skip(0) =~= n);
}

// ---------------------------------------------------------------------------
// The matchers
// ---------------------------------------------------------------------------

/// Command-line style pattern matching: `*` is any sequence, `?` one
/// character. Case is ignored: both sides are lower-cased first.
pub fn glob_match(pattern: &str, name: &str) -> (res: bool)
    ensures
        res == wild(lower_key(pattern@), lower_key(name@)),
        res == glob_result(lower_key(pattern@), lower_key(name@)),
{
    let p = lower_key_of(pattern);
    let n = lower_key_of(name);
    let ghost pv = p@;
    let ghost nv = n@;
    let mut pi: usize = 0;
    let mut ni: usize = 0;
    let mut star: usize = usize::MAX;
    let mut bt: usize = 0;
    while ni < n.len()
        invariant
            pv == p@,
            nv == n@,
            pv == lower_key(pattern@),
            nv == lower_key(name@),
            ni <= n@.len(),
            pi <= p@.len(),
            bt <= ni,
            star != usize::MAX ==> star < pi,
            glob_run(
                pv,
                nv,
                pi as int,
                ni as int,
                if star == usize::MAX { None } else { Some(star as int) },
                bt as int,
            ) == glob_result(pv, nv),
        decreases (if star != usize::MAX {
            n@.len() - bt
        } else {
            n@.len() + 1int
        }), n@.len() - ni, p@.len() - pi,
    {
        if pi < p.len() && p[pi] == '*' {
            star = pi;
            bt = ni;
            pi = pi + 1;
        } else if pi < p.len() && (p[pi] == '?' || p[pi] == n[ni]) {
            pi = pi + 1;
            ni = ni + 1;
        } else if star != usize::MAX {
            pi = star + 1;
            bt = bt + 1;
            ni = bt;
        } else {
            proof {
                glob_is_wildcard_matching(pv, nv);
            }
            return false;
        }
    }
    while pi < p.len() && p[pi] == '*'
        invariant
            pv == p@,
            pi <= p@.len(),
            all_stars(pv.skip(pi as int)) == glob_result(pv, nv),
        decreases p@.len() - pi,
    {
        proof {
            if all_stars(pv.skip(pi as int)) {
                assert forall|i: int| 0 <= i < pv.skip(pi + 1).len() implies #[trigger] pv.skip(
                    pi + 1,
                )[i] == '*' by {
                    assert(pv.skip(pi + 1)[i] == pv.skip(pi as int)[i + 1]);
                }
            }
            if all_stars(pv.skip(pi + 1)) {
                assert forall|i: int| 0 <= i < pv.skip(pi as int).len() implies pv.skip(
                    pi as int,
                )[i] == '*' by {
                    if i > 0 {
                        assert(pv.skip(pi as int)[i] == pv.skip(pi + 1)[i - 1]);
                    }
                }
            }
        }
        pi = pi + 1;
    }
    proof {
        if pi < p@.len() {
            assert(pv.skip(pi as int)[0] != '*');
        } else {
            assert(pv.skip(pi as int).len() == 0);
        }
        glob_is_wildcard_matching(pv, nv);
    }
    pi == p.len()
}

/// A pattern as Windows passes it when listing a directory, read as a
/// command-line pattern: `<` (DOS_STAR) is `*`, `>` (DOS_QM) is `?`, `"`
/// (DOS_DOT) is `.`.
pub open spec fn dos_char(c: char) -> char {
    if c == '<' {
        '*'
    } else if c == '>' {
        '?'
    } else if c == '"' {
        '.'
    } else {
        c
    }
}

/// Whether a pattern means "everything": empty, `*` or `*.*` — names without
/// a dot included.
pub open spec fn matches_all(p: Seq<char>) -> bool {
    p.len() == 0 || p == seq!['*'] || p == seq!['*', '.', '*']
}

/// Pattern matching the way Windows passes patterns when enumerating a
/// directory.
pub fn dos_pattern_match(pattern: &str, name: &str) -> (res: bool)
    ensures
        res == (matches_all(pattern@) || wild(
            lower_key(pattern@.map_values(|c: char| dos_char(c))),
            lower_key(name@),
        )),
{
    let chars = chars_of(pattern);
    let len = chars.len();
    if len == 0 || (len == 1 && chars[0] == '*') || (len == 3 && chars[0] == '*' && chars[1] == '.'
        && chars[2] == '*') {
        proof {
            if len == 1 {
                assert(pattern@ =~= seq!['*']);
            } else if len == 3 {
                assert(pattern@ =~= seq!['*', '.', '*']);
            }
        }
        return true;
    }
    proof {
        if pattern@ == seq!['*'] {
            assert(chars@[0] == '*');
        }
        if pattern@ == seq!['*', '.', '*'] {
            assert(chars@[0] == '*' && chars@[1] == '.' && chars@[2] == '*');
        }
    }
    let mut translated: Vec<char> = Vec::new();
    let mut i: usize = 0;
    while i < len
        invariant
            i <= len,
            len == chars@.len(),
            chars@ == pattern@,
            translated@ == pattern@.take(i as int).map_values(|c: char| dos_char(c)),
        decreases len - i,
    {
        let c = chars[i];
        let d = if c == '<' {
            '*'
        } else if c == '>' {
            '?'
        } else if c == '"' {
            '.'
        } else {
            c
        };
        translated.push(d);
        i = i + 1;
        assert(translated@ =~= pattern@.take(i as int).map_values(|c: char| dos_char(c)));
    }
    assert(pattern@.take(i as int) =~= pattern@);
    let text = crate::text::string_from_chars(translated.as_slice());
    glob_match(text.as_str(), name)
}

// ---------------------------------------------------------------------------
// Search by name
// ---------------------------------------------------------------------------

/// `slice::sort` on strings. Strings are ordered lexicographically by their
/// bytes, which orders the code points of UTF-8 text by their positions in
/// the code charts: the result is a permutation, in non-decreasing order of
/// the character sequences.
#[verifier::external_body]
fn sort_strings(v: &mut Vec<String>)
    ensures
        final(v)@.map_values(|s: String| s@).to_multiset() == old(v)@.map_values(
            |s: String| s@,
        ).to_multiset(),
        forall|i: int, j: int|
            0 <= i < j < final(v)@.len() ==> !lex_lt(
                (#[trigger] final(v)@[j])@,
                (#[trigger] final(v)@[i])@,
            ),
{
    v.sort();
}

/// The path reported for node `id`: its path in the archive, after the
/// prefix (a mounted drive's letter, say).
pub open spec fn found_path(tree: Seq<crate::tree::Node>, id: int, prefix: Seq<char>) -> Seq<char> {
    prefix + join_path(ancestry(tree, id))
}

/// Whether node `id` is reported for `pattern`: any node but the root whose
/// name the pattern matches.
pub open spec fn found(tree: Seq<crate::tree::Node>, id: int, pattern: Seq<char>) -> bool {
    0 < id < tree.len() && wild(lower_key(pattern), lower_key(tree[id].name@))
}

/// Search by name: walks the tree in memory without touching file bodies,
/// and returns the paths of the nodes whose names the pattern matches, after
/// `prefix`, sorted.
pub fn find_by_name(tree: &Tree, pattern: &str, prefix: Option<&str>) -> (res: Vec<String>)
    requires
        tree.wf(),
    ensures
        res@.map_values(|s: String| s@).to_multiset() == tree_matches(tree, pattern@, prefix_of(prefix)),
        forall|i: int, j: int|
            0 <= i < j < res@.len() ==> !lex_lt((#[trigger] res@[j])@, (#[trigger] res@[i])@),
{
    let ids = tree.walk();
    let ghost pre = prefix_of(prefix);
    let pre_chars: Vec<char> = match prefix {
        Some(p) => chars_of(p),
        None => Vec::new(),
    };
    let mut out: Vec<String> = Vec::new();
    let mut k: usize = 0;
    proof {
        assert(ids@.take(0) =~= Seq::<u32>::empty());
        assert(out@.map_values(|s: String| s@) =~= Seq::<Seq<char>>::empty());
        Seq::<Seq<char>>::empty().to_multiset_ensures();
    }
    while k < ids.len()
        invariant
            k <= ids@.len(),
            tree.wf(),
            pre_chars@ == pre,
            ids@.no_duplicates(),
            forall|n: u32| #[trigger] ids@.contains(n) <==> n < tree@.len(),
            out@.map_values(|s: String| s@).to_multiset() == matches_among(
                tree@,
                ids@.take(k as int),
                pattern@,
                pre,
            ),
        decreases ids.len() - k,
    {
        let id = ids[k];
        assert(ids@.contains(id));
        let ghost before = out@;
        if id != ROOT && glob_match(pattern, tree.node(id).name.as_str()) {
            let path = tree.path_of(id);
            let mut line = pre_chars.clone();
            let pc = chars_of(path.as_str());
            let mut j: usize = 0;
            while j < pc.len()
                invariant
                    j <= pc@.len(),
                    line@ == pre + pc@.take(j as int),
                decreases pc.len() - j,
            {
                line.push(pc[j]);
                j = j + 1;
                assert(line@ =~= pre + pc@.take(j as int));
            }
            assert(pc@.take(j as int) =~= pc@);
            out.push(string_from_chars(line.as_slice()));
            proof {
                assert(out@.map_values(|s: String| s@) =~= before.map_values(|s: String| s@).push(
                    found_path(tree@, id as int, pre),
                ));
                before.map_values(|s: String| s@).to_multiset_ensures();
                assert(hit(tree@, id, pattern@, pre) =~= Multiset::singleton(found_path(tree@, id as int, pre)));
            }
        } else {
            assert(out@ == before);
            assert(hit(tree@, id, pattern@, pre) =~= Multiset::<Seq<char>>::empty());
        }
        proof {
            assert(ids@.take(k + 1).drop_last() =~= ids@.take(k as int));
            assert(ids@.take(k + 1).last() == id);
        }
        k = k + 1;
    }
    assert(ids@.take(k as int) =~= ids@);
    proof {
        tree.lemma_wf_linked();
        lemma_matches_all(tree@, ids@, pattern@, pre);
    }
    sort_strings(&mut out);
    out
}

/// The prefix a search reports paths after.
pub open spec fn prefix_of(prefix: Option<&str>) -> Seq<char> {
    match prefix {
        Some(p) => p@,
        None => Seq::empty(),
    }
}

/// What node `id` adds to the result: its path, if it is found.
pub open spec fn hit(tree: Seq<crate::tree::Node>, id: u32, pattern: Seq<char>, prefix: Seq<char>) -> Multiset<Seq<char>> {
    if found(tree, id as int, pattern) {
        Multiset::singleton(found_path(tree, id as int, prefix))
    } else {
        Multiset::empty()
    }
}

/// The reported paths of the matching nodes among `ids`.
pub open spec fn matches_among(
    tree: Seq<crate::tree::Node>,
    ids: Seq<u32>,
    pattern: Seq<char>,
    prefix: Seq<char>,
) -> Multiset<Seq<char>>
    decreases ids.len(),
{
    if ids.len() == 0 {
        Multiset::empty()
    } else {
        matches_among(tree, ids.drop_last(), pattern, prefix).add(hit(tree, ids.last(), pattern, prefix))
    }
}

/// The reported paths of every matching node, each once.
pub open spec fn tree_matches(tree: &Tree, pattern: Seq<char>, prefix: Seq<char>) -> Multiset<Seq<char>> {
    matches_among(tree@, Seq::new(tree@.len(), |i: int| i as u32), pattern, prefix)
}

proof fn lemma_matches_remove(
    tree: Seq<crate::tree::Node>,
    ids: Seq<u32>,
    i: int,
    pattern: Seq<char>,
    prefix: Seq<char>,
)
    requires
        0 <= i < ids.len(),
    ensures
        matches_among(tree, ids, pattern, prefix) == matches_among(
            tree,
            ids.remove(i),
            pattern,
            prefix,
        ).add(hit(tree, ids[i], pattern, prefix)),
    decreases ids.len(),
{
    if i == ids.len() - 1 {
        assert(ids.remove(i) =~= ids.drop_last());
    } else {
        lemma_matches_remove(tree, ids.drop_last(), i, pattern, prefix);
        assert(ids.remove(i).drop_last() =~= ids.drop_last().remove(i));
        assert(ids.remove(i).last() == ids.last());
        let m = matches_among(tree, ids.drop_last().remove(i), pattern, prefix);
        let hx = hit(tree, ids[i], pattern, prefix);
        let hy = hit(tree, ids.last(), pattern, prefix);
        assert(m.add(hx).add(hy) =~= m.add(hy).add(hx));
    }
}

proof fn lemma_matches_permuted(
    tree: Seq<crate::tree::Node>,
    a: Seq<u32>,
    b: Seq<u32>,
    pattern: Seq<char>,
    prefix: Seq<char>,
)
    requires
        a.no_duplicates(),
        b.no_duplicates(),
        forall|n: u32| #[trigger] a.contains(n) <==> b.contains(n),
    ensures
        matches_among(tree, a, pattern, prefix) == matches_among(tree, b, pattern, prefix),
    decreases a.len(),
{
    if a.len() == 0 {
        if b.len() > 0 {
            assert(b.contains(b[0]));
            assert(a.contains(b[0]));
            assert(false);
        }
        assert(b =~= Seq::<u32>::empty());
    } else {
        let x = a.last();
        assert(a.contains(x));
        let i = choose|i: int| 0 <= i < b.len() && b[i] == x;
        let a2 = a.drop_last();
        let b2 = b.remove(i);
        assert forall|n: u32| #[trigger] a2.contains(n) <==> b2.contains(n) by {
            if a2.contains(n) {
                let k = choose|k: int| 0 <= k < a2.len() && a2[k] == n;
                assert(a[k] == n && k != a.len() - 1);
                assert(n != x);
                assert(a.contains(n));
                let m = choose|m: int| 0 <= m < b.len() && b[m] == n;
                assert(m != i);
                if m < i {
                    assert(b2[m] == n);
                } else {
                    assert(b2[m - 1] == n);
                }
            }
            if b2.contains(n) {
                let k = choose|k: int| 0 <= k < b2.len() && b2[k] == n;
                let m = if k < i { k } else { k + 1 };
                assert(b[m] == n && m != i);
                assert(n != x);
                assert(b.contains(n));
                assert(a.contains(n));
                let j = choose|j: int| 0 <= j < a.len() && a[j] == n;
                assert(j != a.len() - 1);
                assert(a2[j] == n);
            }
        }
        assert(a2.no_duplicates());
        assert(b2.no_duplicates()) by {
            assert forall|p: int, q: int| 0 <= p < q < b2.len() implies b2[p] != b2[q] by {
                let pp = if p < i { p } else { p + 1 };
                let qq = if q < i { q } else { q + 1 };
                assert(b2[p] == b[pp] && b2[q] == b[qq] && pp != qq);
            }
        }
        lemma_matches_permuted(tree, a2, b2, pattern, prefix);
        lemma_matches_remove(tree, b, i, pattern, prefix);
    }
}

proof fn lemma_matches_all(tree: Seq<crate::tree::Node>, ids: Seq<u32>, pattern: Seq<char>, prefix: Seq<char>)
    requires
        ids.no_duplicates(),
        tree.len() <= u32::MAX,
        forall|n: u32| #[trigger] ids.contains(n) <==> n < tree.len(),
    ensures
        matches_among(tree, ids, pattern, prefix) == matches_among(
            tree,
            Seq::new(tree.len(), |i: int| i as u32),
            pattern,
            prefix,
        ),
{
    let all = Seq::new(tree.len(), |i: int| i as u32);
    assert forall|n: u32| #[trigger] ids.contains(n) <==> all.contains(n) by {
        if n < tree.len() {
            assert(all[n as int] == n);
        }
    }
    lemma_matches_permuted(tree, ids, all, pattern, prefix);
}

} // verus!
