//! Searching the contents of an archive.
//!
//! The search itself (a `grep_searcher::Searcher` run over each entry's
//! bytes) reports every matching line and every context line as it goes;
//! this module decides what is kept of them, which entries are searched at
//! all, and how the results of a whole pass are ordered and cut.
//!
//! **The pattern is a substring by default, not a regular expression.** A
//! deliberate choice: strings like `[ERROR]` or `app.config` come up in logs
//! all the time, and as regexes they mean something else entirely.

use vstd::prelude::*;

use grep_regex::{RegexMatcher, RegexMatcherBuilder};

use crate::glob::{found_path, glob_match, wild};
use crate::text::{chars_of, lossy_text, string_from_chars, utf8_lossy};
use crate::tree::{
    is_desc, is_file_node, lex_lt, lower_key, resolve_parts, walk_down, Tree, ROOT,
};

verus! {

broadcast use vstd::seq_lib::group_seq_properties;

/// Entries above this size are skipped by search: every worker holds its own
/// expanded file, and without a ceiling peak memory would be "number of
/// cores × size of the largest file".
pub const DEFAULT_MAX_FILE_BYTES: u64 = 67108864;

#[derive(Debug, Clone)]
pub struct GrepOptions {
    pub pattern: String,
    /// Treat the pattern as a plain substring. That is the default.
    pub literal: bool,
    pub case_insensitive: bool,
    /// File name pattern, for example `*.log`.
    pub glob: Option<String>,
    /// Search only inside this branch of the tree.
    pub subpath: Option<String>,
    /// Stop at the first match in a file ("paths only" mode).
    pub files_only: bool,
    /// Count matches rather than show lines.
    pub count_only: bool,
    /// How many lines to show before and after a match.
    pub context_before: usize,
    pub context_after: usize,
    /// Ceilings on matches per file and for the whole search.
    pub max_per_file: Option<usize>,
    pub max_total: Option<usize>,
    pub max_file_bytes: u64,
    /// A prefix for printed paths: the mounted drive's letter, so that what
    /// was found can be opened right away.
    pub path_prefix: Option<String>,
}

impl Default for GrepOptions {
    fn default() -> (res: Self)
        ensures
            res.pattern@ == Seq::<char>::empty(),
            res.literal,
            !res.case_insensitive,
            res.glob is None,
            res.subpath is None,
            !res.files_only,
            !res.count_only,
            res.context_before == 0,
            res.context_after == 0,
            res.max_per_file is None,
            res.max_total is None,
            res.max_file_bytes == DEFAULT_MAX_FILE_BYTES,
            res.path_prefix is None,
    {
        GrepOptions {
            pattern: String::new(),
            literal: true,
            case_insensitive: false,
            glob: None,
            subpath: None,
            files_only: false,
            count_only: false,
            context_before: 0,
            context_after: 0,
            max_per_file: None,
            max_total: None,
            max_file_bytes: DEFAULT_MAX_FILE_BYTES,
            path_prefix: None,
        }
    }
}

/// Whether `c` means something in a regular expression: the characters that
/// `regex::escape` puts a backslash before.
pub open spec fn is_meta(c: char) -> bool {
    c == '\\' || c == '.' || c == '+' || c == '*' || c == '?' || c == '(' || c == ')' || c == '|'
        || c == '[' || c == ']' || c == '{' || c == '}' || c == '^' || c == '$' || c == '#'
        || c == '&' || c == '-' || c == '~'
}

/// `text` with a backslash before every meta character: a regular
/// expression that matches exactly `text`.
pub open spec fn escaped(text: Seq<char>) -> Seq<char>
    decreases text.len(),
{
    if text.len() == 0 {
        Seq::empty()
    } else {
        let c = text.last();
        escaped(text.drop_last()) + if is_meta(c) {
            seq!['\\', c]
        } else {
            seq![c]
        }
    }
}

/// `regex::escape`: each character of `text` in turn, a backslash before it
/// where it is a meta character.
#[verifier::external_body]
fn escape(text: &str) -> (res: String)
    ensures
        res@ == escaped(text@),
{
    regex::escape(text)
}

/// The expression a search runs: in substring mode the whole pattern is
/// escaped, so that exactly what the user typed matches.
pub open spec fn expression(opts: GrepOptions) -> Seq<char> {
    if opts.literal {
        escaped(opts.pattern@)
    } else {
        opts.pattern@
    }
}

/// The expression a search runs for `opts`.
pub fn search_expression(opts: &GrepOptions) -> (res: String)
    ensures
        res@ == expression(*opts),
{
    if opts.literal {
        escape(opts.pattern.as_str())
    } else {
        opts.pattern.clone()
    }
}

#[verifier::external_type_specification]
#[verifier::external_body]
pub struct ExRegexMatcher(RegexMatcher);

#[verifier::external_type_specification]
#[verifier::external_body]
pub struct ExRegexError(grep_regex::Error);

/// Whether `grep_regex` accepts `expression` as a line-oriented regular
/// expression (with `\n` as the line terminator), case folded or not.
pub uninterp spec fn compiles(expression: Seq<char>, case_insensitive: bool) -> bool;

/// `grep_regex::RegexMatcherBuilder`, with case folding as asked and `\n` as
/// the line terminator, built on `expression`. Which expressions it accepts
/// is named by `compiles`, a function of the two arguments; which lines the
/// matcher then finds is not stated here.
#[verifier::external_body]
fn build_matcher(expression: &str, case_insensitive: bool) -> (res: Result<RegexMatcher, grep_regex::Error>)
    ensures
        res is Ok <==> compiles(expression@, case_insensitive),
{
    RegexMatcherBuilder::new()
        .case_insensitive(case_insensitive)
        .line_terminator(Some(10))
        .build(expression)
}

/// Why a search cannot start.
pub enum GrepError {
    /// The pattern does not compile: as a substring (`literal`) or as a
    /// regular expression.
    Pattern { literal: bool, pattern: String, cause: grep_regex::Error },
    /// The branch to search in is not in the archive.
    PathNotFound(String),
}

/// What a search pass needs besides the archive: the matcher, and the node
/// to search below (`None`: the whole archive).
pub struct GrepPlan {
    pub matcher: RegexMatcher,
    pub root: Option<u32>,
}

/// Prepares a search: compiles the expression, then finds the branch to
/// search in.
pub fn prepare(tree: &Tree, opts: &GrepOptions) -> (res: Result<GrepPlan, GrepError>)
    requires
        tree.wf(),
    ensures
        match res {
            Ok(plan) => compiles(expression(*opts), opts.case_insensitive) && match opts.subpath {
                Some(p) => walk_down(tree@, ROOT as int, resolve_parts(p@)) == Some(plan.root->0)
                    && plan.root is Some,
                None => plan.root is None,
            },
            Err(GrepError::Pattern { literal, pattern, cause }) => !compiles(
                expression(*opts),
                opts.case_insensitive,
            ) && literal == opts.literal && pattern@ == opts.pattern@,
            Err(GrepError::PathNotFound(p)) => {
                &&& compiles(expression(*opts), opts.case_insensitive)
                &&& opts.subpath matches Some(s)
                &&& p@ == s@
                &&& walk_down(tree@, ROOT as int, resolve_parts(s@)) is None
            },
        },
{
    let expression = search_expression(opts);
    let matcher = match build_matcher(expression.as_str(), opts.case_insensitive) {
        Ok(m) => m,
        Err(cause) => {
            return Err(
                GrepError::Pattern { literal: opts.literal, pattern: opts.pattern.clone(), cause },
            );
        },
    };
    let root = match &opts.subpath {
        Some(p) => match tree.resolve(p.as_str()) {
            Some(id) => Some(id),
            None => {
                return Err(GrepError::PathNotFound(p.clone()));
            },
        },
        None => None,
    };
    Ok(GrepPlan { matcher, root })
}

// ---------------------------------------------------------------------------
// What is kept of one file
// ---------------------------------------------------------------------------

#[derive(Debug, Clone)]
pub struct Match {
    pub path: String,
    pub line_number: u64,
    pub line: String,
    /// A context line rather than the match itself.
    pub is_context: bool,
}

impl View for Match {
    type V = (Seq<char>, u64, Seq<char>, bool);

    open spec fn view(&self) -> (Seq<char>, u64, Seq<char>, bool) {
        (self.path@, self.line_number, self.line@, self.is_context)
    }
}

/// The views of a run of lines.
pub open spec fn match_views(v: Seq<Match>) -> Seq<(Seq<char>, u64, Seq<char>, bool)> {
    v.map_values(|m: Match| m@)
}

#[derive(Debug, Clone)]
pub struct FileCount {
    pub path: String,
    pub matches: u64,
}

impl View for FileCount {
    type V = (Seq<char>, u64);

    open spec fn view(&self) -> (Seq<char>, u64) {
        (self.path@, self.matches)
    }
}

/// The views of a run of counts.
pub open spec fn count_views(v: Seq<FileCount>) -> Seq<(Seq<char>, u64)> {
    v.map_values(|c: FileCount| c@)
}

/// `s` without the line breaks (`\r`, `\n`) at its end.
pub open spec fn trim_line_end(s: Seq<char>) -> Seq<char>
    decreases s.len(),
{
    if s.len() > 0 && (s.last() == '\r' || s.last() == '\n') {
        trim_line_end(s.drop_last())
    } else {
        s
    }
}

/// The text kept of a line's bytes: decoded (invalid UTF-8 replaced), line
/// break dropped.
pub open spec fn line_text(bytes: Seq<u8>) -> Seq<char> {
    trim_line_end(lossy_text(bytes))
}

fn text_of_line(bytes: &[u8]) -> (res: String)
    ensures
        res@ == line_text(bytes@),
{
    let decoded = utf8_lossy(bytes);
    let mut cs = chars_of(decoded.as_str());
    while cs.len() > 0 && (cs[cs.len() - 1] == '\r' || cs[cs.len() - 1] == '\n')
        invariant
            trim_line_end(cs@) == trim_line_end(lossy_text(bytes@)),
        decreases cs.len(),
    {
        cs.pop();
    }
    string_from_chars(cs.as_slice())
}

/// The number a line is reported under: its line number, or 0 where the
/// searcher gave none.
pub open spec fn reported_line(line_number: Option<u64>) -> u64 {
    match line_number {
        Some(n) => n,
        None => 0,
    }
}

/// Collects the matches and context lines of one file.
pub struct Collector {
    path: String,
    lines: Vec<Match>,
    match_count: u64,
}

impl Collector {
    /// The path the file is reported under.
    pub closed spec fn path_view(&self) -> Seq<char> {
        self.path@
    }

    /// The lines kept so far.
    pub closed spec fn lines_view(&self) -> Seq<(Seq<char>, u64, Seq<char>, bool)> {
        match_views(self.lines@)
    }

    /// The matches seen so far.
    pub closed spec fn count(&self) -> u64 {
        self.match_count
    }

    pub fn new(path: String) -> (res: Self)
        ensures
            res.path_view() == path@,
            res.lines_view() == Seq::<(Seq<char>, u64, Seq<char>, bool)>::empty(),
            res.count() == 0,
    {
        let res = Collector { path, lines: Vec::new(), match_count: 0 };
        assert(res.lines_view() =~= Seq::<(Seq<char>, u64, Seq<char>, bool)>::empty());
        res
    }

    pub fn match_count(&self) -> (res: u64)
        ensures
            res == self.count(),
    {
        self.match_count
    }

    fn push(&mut self, line_number: u64, bytes: &[u8], is_context: bool)
        ensures
            final(self).path_view() == old(self).path_view(),
            final(self).count() == old(self).count(),
            final(self).lines_view() == old(self).lines_view().push(
                (old(self).path_view(), line_number, line_text(bytes@), is_context),
            ),
    {
        let line = text_of_line(bytes);
        let m = Match { path: self.path.clone(), line_number, line, is_context };
        self.lines.push(m);
        assert(self.lines_view() =~= old(self).lines_view().push(
            (old(self).path_view(), line_number, line_text(bytes@), is_context),
        ));
    }

    /// A matching line. Returns whether the search of this file goes on:
    /// "paths only" stops at the first match, and the per-file ceiling stops
    /// a file once that many matches are kept. Counting and "paths only" keep
    /// no lines.
    pub fn matched(&mut self, opts: &GrepOptions, line_number: Option<u64>, bytes: &[u8]) -> (go_on: bool)
        requires
            old(self).count() < u64::MAX,
        ensures
            final(self).count() == old(self).count() + 1,
            final(self).path_view() == old(self).path_view(),
            final(self).lines_view() == (if opts.files_only || opts.count_only {
                old(self).lines_view()
            } else {
                old(self).lines_view().push(
                    (old(self).path_view(), reported_line(line_number), line_text(bytes@), false),
                )
            }),
            go_on == (!opts.files_only && (opts.count_only || match opts.max_per_file {
                Some(max) => (final(self).count() as usize) < max,
                None => true,
            })),
    {
        self.match_count = self.match_count + 1;
        if opts.files_only {
            return false;
        }
        if !opts.count_only {
            let n = match line_number {
                Some(n) => n,
                None => 0,
            };
            self.push(n, bytes, false);
            if let Some(max) = opts.max_per_file {
                if self.match_count as usize >= max {
                    return false;
                }
            }
        }
        true
    }

    /// A context line around a match: kept unless only paths or counts are
    /// wanted. The search always goes on.
    pub fn context(&mut self, opts: &GrepOptions, line_number: Option<u64>, bytes: &[u8]) -> (go_on: bool)
        ensures
            go_on,
            final(self).count() == old(self).count(),
            final(self).path_view() == old(self).path_view(),
            final(self).lines_view() == (if opts.files_only || opts.count_only {
                old(self).lines_view()
            } else {
                old(self).lines_view().push(
                    (old(self).path_view(), reported_line(line_number), line_text(bytes@), true),
                )
            }),
    {
        if opts.files_only || opts.count_only {
            return true;
        }
        let n = match line_number {
            Some(n) => n,
            None => 0,
        };
        self.push(n, bytes, true);
        true
    }
}

// ---------------------------------------------------------------------------
// Which entries are searched
// ---------------------------------------------------------------------------

/// Whether node `n`'s name passes the file name pattern, if one is given.
pub open spec fn accepted(tree: Seq<crate::tree::Node>, opts: GrepOptions, n: int) -> bool {
    match opts.glob {
        Some(g) => wild(lower_key(g@), lower_key(tree[n].name@)),
        None => true,
    }
}

/// Whether node `n` lies in the branch searched (`None`: the whole archive).
pub open spec fn in_branch(tree: Seq<crate::tree::Node>, root: Option<u32>, n: int) -> bool {
    match root {
        Some(r) => is_desc(tree, n, r as int),
        None => true,
    }
}

/// Whether node `node`'s name passes the file name pattern.
pub fn accepts(tree: &Tree, opts: &GrepOptions, node: u32) -> (res: bool)
    requires
        tree.wf(),
        node < tree@.len(),
    ensures
        res == accepted(tree@, *opts, node as int),
{
    match &opts.glob {
        Some(g) => glob_match(g.as_str(), tree.node(node).name.as_str()),
        None => true,
    }
}

/// Whether node `node` lies in the branch searched.
pub fn in_scope(tree: &Tree, root: Option<u32>, node: u32) -> (res: bool)
    requires
        tree.wf(),
        node < tree@.len(),
    ensures
        res == in_branch(tree@, root, node as int),
{
    match root {
        Some(r) => tree.is_under(node, r),
        None => true,
    }
}

/// The files a search over independent entries (zip, tar) looks at: those
/// in the branch whose names pass the pattern.
pub fn candidates(tree: &Tree, opts: &GrepOptions, root: Option<u32>) -> (res: Vec<u32>)
    requires
        tree.wf(),
        root matches Some(r) ==> r < tree@.len(),
    ensures
        res@.no_duplicates(),
        forall|n: u32|
            #[trigger] res@.contains(n) <==> n < tree@.len() && is_file_node(tree@[n as int])
                && in_branch(tree@, root, n as int) && accepted(tree@, *opts, n as int),
{
    let ids = match root {
        Some(r) => tree.file_ids_under(r),
        None => tree.file_ids(),
    };
    let mut out: Vec<u32> = Vec::new();
    for k in 0..ids.len()
        invariant
            tree.wf(),
            ids@.no_duplicates(),
            forall|n: u32|
                #[trigger] ids@.contains(n) <==> n < tree@.len() && is_file_node(tree@[n as int])
                    && in_branch(tree@, root, n as int),
            out@.no_duplicates(),
            forall|n: u32|
                #[trigger] out@.contains(n) <==> ids@.take(k as int).contains(n) && accepted(
                    tree@,
                    *opts,
                    n as int,
                ),
    {
        let id = ids[k];
        proof {
            assert(ids@.contains(id));
            assert(ids@.take(k + 1) =~= ids@.take(k as int).push(id));
            assert(!ids@.take(k as int).contains(id)) by {
                if ids@.take(k as int).contains(id) {
                    let j = choose|j: int| 0 <= j < k && ids@.take(k as int)[j] == id;
                    assert(ids@[j] == ids@[k as int]);
                }
            }
        }
        if accepts(tree, opts, id) {
            let ghost before = out@;
            assert(!before.contains(id));
            out.push(id);
            proof {
                assert forall|a: int, b: int| 0 <= a < b < out@.len() implies out@[a] != out@[b] by {
                    if b == before.len() {
                        assert(before.contains(out@[a]));
                    } else {
                        assert(before[a] != before[b]);
                    }
                }
            }
        }
    }
    assert(ids@.take(ids@.len() as int) =~= ids@);
    out
}

/// The text a search reports before a path (empty where none is set).
pub open spec fn prefix_text(opts: GrepOptions) -> Seq<char> {
    match opts.path_prefix {
        Some(p) => p@,
        None => Seq::empty(),
    }
}

/// The path a search reports for node `node`: its path in the archive,
/// after the prefix.
pub fn reported_path(tree: &Tree, opts: &GrepOptions, node: u32) -> (res: String)
    requires
        tree.wf(),
        node < tree@.len(),
    ensures
        res@ == found_path(tree@, node as int, prefix_text(*opts)),
{
    let path = tree.path_of(node);
    let mut line: Vec<char> = match &opts.path_prefix {
        Some(p) => chars_of(p.as_str()),
        None => Vec::new(),
    };
    let ghost pre = line@;
    let pc = chars_of(path.as_str());
    for j in 0..pc.len()
        invariant
            line@ == pre + pc@.take(j as int),
    {
        line.push(pc[j]);
        assert(line@ =~= pre + pc@.take(j + 1));
    }
    assert(pc@.take(pc@.len() as int) =~= pc@);
    string_from_chars(line.as_slice())
}

/// Whether entry `e`, whose node is `node_of[e]`, is wanted: a node in the
/// branch whose name passes the pattern.
pub open spec fn entry_wanted(
    tree: Seq<crate::tree::Node>,
    opts: GrepOptions,
    root: Option<u32>,
    node_of: Seq<Option<u32>>,
    e: int,
) -> bool {
    &&& 0 <= e < node_of.len()
    &&& node_of[e] matches Some(n)
    &&& n < tree.len()
    &&& in_branch(tree, root, n as int)
    &&& accepted(tree, opts, n as int)
}

/// Whether block `b` holds a wanted entry; `block_of[e]` is the solid block
/// of entry `e`, if it has one.
pub open spec fn block_needed(
    tree: Seq<crate::tree::Node>,
    opts: GrepOptions,
    root: Option<u32>,
    node_of: Seq<Option<u32>>,
    block_of: Seq<Option<usize>>,
    b: usize,
) -> bool {
    exists|e: int|
        #![trigger block_of[e]]
        entry_wanted(tree, opts, root, node_of, e) && e < block_of.len() && block_of[e] == Some(b)
}

/// The solid blocks a search over a 7z archive expands: in increasing order,
/// those holding an entry of interest. Without that, restricting by branch
/// or pattern would save only the scanning, not the decompression — that
/// is, almost nothing.
pub fn needed_blocks(
    tree: &Tree,
    opts: &GrepOptions,
    root: Option<u32>,
    node_of: &Vec<Option<u32>>,
    block_of: &Vec<Option<usize>>,
    block_count: usize,
) -> (res: Vec<usize>)
    requires
        tree.wf(),
        root matches Some(r) ==> r < tree@.len(),
        forall|e: int| 0 <= e < block_of@.len() && (#[trigger] block_of@[e]) is Some ==> block_of@[e]->0 < block_count,
    ensures
        forall|i: int, j: int| 0 <= i < j < res@.len() ==> res@[i] < res@[j],
        forall|b: usize|
            #[trigger] res@.contains(b) <==> b < block_count && block_needed(
                tree@,
                *opts,
                root,
                node_of@,
                block_of@,
                b,
            ),
{
    let mut needed: Vec<bool> = vec![false; block_count];
    for e in 0..node_of.len()
        invariant
            tree.wf(),
            root matches Some(r) ==> r < tree@.len(),
            forall|e: int| 0 <= e < block_of@.len() && (#[trigger] block_of@[e]) is Some ==> block_of@[e]->0 < block_count,
            needed@.len() == block_count,
            forall|b: int|
                0 <= b < block_count ==> (#[trigger] needed@[b] <==> exists|x: int|
                    #![trigger block_of@[x]]
                    0 <= x < e && entry_wanted(tree@, *opts, root, node_of@, x) && x < block_of@.len()
                        && block_of@[x] == Some(b as usize)),
    {
        if let Some(node) = node_of[e] {
            if (node as usize) < tree.node_count() && e < block_of.len() {
                if in_scope(tree, root, node) && accepts(tree, opts, node) {
                    if let Some(block) = block_of[e] {
                        needed.set(block, true);
                    }
                }
            }
        }
        proof {
            assert forall|b: int| 0 <= b < block_count implies (#[trigger] needed@[b] <==> exists|x: int|
                #![trigger block_of@[x]]
                0 <= x < e + 1 && entry_wanted(tree@, *opts, root, node_of@, x) && x < block_of@.len()
                    && block_of@[x] == Some(b as usize)) by {
                if entry_wanted(tree@, *opts, root, node_of@, e as int) && e < block_of@.len()
                    && block_of@[e as int] == Some(b as usize) {
                    assert(needed@[b]);
                }
            }
        }
    }
    let mut out: Vec<usize> = Vec::new();
    for b in 0..block_count
        invariant
            needed@.len() == block_count,
            forall|i: int, j: int| 0 <= i < j < out@.len() ==> out@[i] < out@[j],
            forall|i: int| 0 <= i < out@.len() ==> out@[i] < b,
            forall|c: usize| #[trigger] out@.contains(c) <==> c < b && needed@[c as int],
    {
        if needed[b] {
            out.push(b);
        }
    }
    proof {
        assert forall|b: usize| #[trigger] out@.contains(b) <==> b < block_count && block_needed(
            tree@,
            *opts,
            root,
            node_of@,
            block_of@,
            b,
        ) by {
            if b < block_count {
                assert(needed@[b as int] == block_needed(tree@, *opts, root, node_of@, block_of@, b));
            }
        }
    }
    out
}

// ---------------------------------------------------------------------------
// A whole pass
// ---------------------------------------------------------------------------

/// `a + b` as an atomic counter adds: wrapping past `u64::MAX`.
pub open spec fn bumped(a: u64, b: u64) -> u64 {
    vstd::wrapping::u64_specs::wrapping_add(a, b)
}

/// What a search pass has gathered so far.
pub struct RunState {
    pub files_matched: u64,
    pub files_scanned: u64,
    pub files_skipped: u64,
    pub bytes_scanned: u64,
    /// Lines handed to the result so far, for the overall ceiling.
    pub emitted: u64,
    /// Output was cut because a ceiling was reached.
    pub truncated: bool,
    pub results: Seq<(Seq<char>, u64, Seq<char>, bool)>,
    pub counts: Seq<(Seq<char>, u64)>,
}

/// Shared state of one search pass: the tallies, and what is to be printed.
pub struct GrepRun {
    files_matched: u64,
    files_scanned: u64,
    files_skipped: u64,
    bytes_scanned: u64,
    emitted: u64,
    truncated: bool,
    results: Vec<Match>,
    counts: Vec<FileCount>,
}

impl View for GrepRun {
    type V = RunState;

    closed spec fn view(&self) -> RunState {
        RunState {
            files_matched: self.files_matched,
            files_scanned: self.files_scanned,
            files_skipped: self.files_skipped,
            bytes_scanned: self.bytes_scanned,
            emitted: self.emitted,
            truncated: self.truncated,
            results: match_views(self.results@),
            counts: count_views(self.counts@),
        }
    }
}

/// The state after `lines` are offered to the result: refused, and the
/// output marked cut, once the overall ceiling is reached; else added.
pub open spec fn after_emit(
    st: RunState,
    opts: GrepOptions,
    lines: Seq<(Seq<char>, u64, Seq<char>, bool)>,
) -> RunState {
    if opts.max_total matches Some(max) && (st.emitted as usize) >= max {
        RunState { truncated: true, ..st }
    } else {
        RunState {
            emitted: bumped(st.emitted, lines.len() as u64),
            results: st.results + lines,
            ..st
        }
    }
}

/// The state after one file of `scanned` bytes was searched, with `count`
/// matches and `lines` kept, reported under `path`.
pub open spec fn after_scan(
    st: RunState,
    opts: GrepOptions,
    scanned: usize,
    path: Seq<char>,
    count: u64,
    lines: Seq<(Seq<char>, u64, Seq<char>, bool)>,
) -> RunState {
    let st1 = RunState {
        files_scanned: bumped(st.files_scanned, 1),
        bytes_scanned: bumped(st.bytes_scanned, scanned as u64),
        ..st
    };
    if count == 0 {
        st1
    } else {
        let st2 = RunState { files_matched: bumped(st1.files_matched, 1), ..st1 };
        if opts.count_only {
            RunState { counts: st2.counts.push((path, count)), ..st2 }
        } else if opts.files_only {
            after_emit(st2, opts, seq![(path, 0u64, Seq::<char>::empty(), false)])
        } else {
            after_emit(st2, opts, lines)
        }
    }
}

/// Whether line `a` is printed before line `b`: by path (characters by code
/// point), then by line number.
pub open spec fn line_before(
    a: (Seq<char>, u64, Seq<char>, bool),
    b: (Seq<char>, u64, Seq<char>, bool),
) -> bool {
    lex_lt(a.0, b.0) || (a.0 == b.0 && a.1 < b.1)
}

/// Lines in print order.
pub open spec fn lines_ordered(s: Seq<(Seq<char>, u64, Seq<char>, bool)>) -> bool {
    forall|i: int, j: int| 0 <= i < j < s.len() ==> !line_before(#[trigger] s[j], #[trigger] s[i])
}

/// Counts in print order: by path.
pub open spec fn counts_ordered(s: Seq<(Seq<char>, u64)>) -> bool {
    forall|i: int, j: int| 0 <= i < j < s.len() ==> !lex_lt((#[trigger] s[j]).0, (#[trigger] s[i]).0)
}

/// At most `max` items of `s`, from the front.
pub open spec fn cut<A>(s: Seq<A>, max: Option<usize>) -> Seq<A> {
    match max {
        Some(m) => if s.len() > m {
            s.take(m as int)
        } else {
            s
        },
        None => s,
    }
}

/// `slice::sort_by_cached_key` keyed by (path, line number): a stable sort
/// by that key. std orders the tuple field by field, and strings by their
/// bytes, which for UTF-8 is the order of code points.
#[verifier::external_body]
fn sort_lines(v: &mut Vec<Match>)
    ensures
        final(v)@.len() == old(v)@.len(),
        match_views(final(v)@).to_multiset() == match_views(old(v)@).to_multiset(),
        lines_ordered(match_views(final(v)@)),
{
    v.sort_by_cached_key(|m| (m.path.clone(), m.line_number));
}

/// `slice::sort_by_cached_key` keyed by path: a stable sort by path, in the
/// order of std's strings (bytes, which for UTF-8 is the order of code
/// points).
#[verifier::external_body]
fn sort_counts(v: &mut Vec<FileCount>)
    ensures
        final(v)@.len() == old(v)@.len(),
        count_views(final(v)@).to_multiset() == count_views(old(v)@).to_multiset(),
        counts_ordered(count_views(final(v)@)),
{
    v.sort_by_cached_key(|c| c.path.clone());
}

#[derive(Debug, Default)]
pub struct GrepOutcome {
    pub matches: Vec<Match>,
    /// Filled in count mode.
    pub counts: Vec<FileCount>,
    pub files_matched: u64,
    pub files_scanned: u64,
    pub files_skipped: u64,
    pub bytes_scanned: u64,
    /// Output was cut because a ceiling was reached.
    pub truncated: bool,
}

impl GrepRun {
    pub fn new() -> (res: Self)
        ensures
            res@ == (RunState {
                files_matched: 0,
                files_scanned: 0,
                files_skipped: 0,
                bytes_scanned: 0,
                emitted: 0,
                truncated: false,
                results: Seq::empty(),
                counts: Seq::empty(),
            }),
    {
        let res = GrepRun {
            files_matched: 0,
            files_scanned: 0,
            files_skipped: 0,
            bytes_scanned: 0,
            emitted: 0,
            truncated: false,
            results: Vec::new(),
            counts: Vec::new(),
        };
        assert(match_views(res.results@) =~= Seq::<(Seq<char>, u64, Seq<char>, bool)>::empty());
        assert(count_views(res.counts@) =~= Seq::<(Seq<char>, u64)>::empty());
        res
    }

    /// A file that could not be searched (unreadable, or too large).
    pub fn skip(&mut self)
        ensures
            final(self)@ == (RunState { files_skipped: bumped(old(self)@.files_skipped, 1), ..old(self)@ }),
    {
        self.files_skipped = self.files_skipped.wrapping_add(1);
    }

    /// Whether a file of `size` bytes is searched: those above the ceiling
    /// are skipped, and counted so.
    pub fn searchable(&mut self, opts: &GrepOptions, size: u64) -> (res: bool)
        ensures
            res == (size <= opts.max_file_bytes),
            final(self)@ == (if res {
                old(self)@
            } else {
                RunState { files_skipped: bumped(old(self)@.files_skipped, 1), ..old(self)@ }
            }),
    {
        if size > opts.max_file_bytes {
            self.skip();
            false
        } else {
            true
        }
    }

    /// Adds lines to the result, honouring the overall output ceiling.
    fn emit(&mut self, opts: &GrepOptions, lines: Vec<Match>)
        ensures
            final(self)@ == after_emit(old(self)@, *opts, match_views(lines@)),
    {
        if let Some(max) = opts.max_total {
            let already = self.emitted as usize;
            if already >= max {
                self.truncated = true;
                return;
            }
        }
        self.emitted = self.emitted.wrapping_add(lines.len() as u64);
        let ghost before = self.results@;
        let ghost added = lines@;
        let mut lines = lines;
        self.results.append(&mut lines);
        assert(match_views(self.results@) =~= match_views(before) + match_views(added));
    }

    /// Takes in what the search of one file of `scanned` bytes found.
    pub fn record(&mut self, opts: &GrepOptions, scanned: usize, collector: Collector)
        ensures
            final(self)@ == after_scan(
                old(self)@,
                *opts,
                scanned,
                collector.path_view(),
                collector.count(),
                collector.lines_view(),
            ),
    {
        self.files_scanned = self.files_scanned.wrapping_add(1);
        self.bytes_scanned = self.bytes_scanned.wrapping_add(scanned as u64);
        let Collector { path, lines, match_count } = collector;
        if match_count == 0 {
            return;
        }
        self.files_matched = self.files_matched.wrapping_add(1);
        if opts.count_only {
            let ghost before = self.counts@;
            self.counts.push(FileCount { path, matches: match_count });
            assert(count_views(self.counts@) =~= count_views(before).push((collector.path_view(), match_count)));
            return;
        }
        if opts.files_only {
            let one = vec![Match { path, line_number: 0, line: String::new(), is_context: false }];
            assert(match_views(one@) =~= seq![(collector.path_view(), 0u64, Seq::<char>::empty(), false)]);
            self.emit(opts, one);
            return;
        }
        self.emit(opts, lines);
    }

    /// The result of the pass, in print order: a parallel walk yields an
    /// arbitrary order, so lines are sorted by path and line number, counts
    /// by path. The overall ceiling applies to the ordered result, or the cut
    /// would depend on which worker came first.
    pub fn finish(self, opts: &GrepOptions) -> (res: GrepOutcome)
        ensures
            exists|s: Seq<(Seq<char>, u64, Seq<char>, bool)>|
                #![trigger lines_ordered(s)]
                s.to_multiset() == self@.results.to_multiset() && lines_ordered(s)
                    && match_views(res.matches@) == cut(s, opts.max_total),
            exists|s: Seq<(Seq<char>, u64)>|
                #![trigger counts_ordered(s)]
                s.to_multiset() == self@.counts.to_multiset() && counts_ordered(s)
                    && count_views(res.counts@) == cut(s, opts.max_total),
            res.truncated == (self@.truncated || match opts.max_total {
                Some(m) => self@.results.len() > m || self@.counts.len() > m,
                None => false,
            }),
            res.files_matched == self@.files_matched,
            res.files_scanned == self@.files_scanned,
            res.files_skipped == self@.files_skipped,
            res.bytes_scanned == self@.bytes_scanned,
    {
        let ghost results = self@.results;
        let ghost counts0 = self@.counts;
        let GrepRun {
            files_matched,
            files_scanned,
            files_skipped,
            bytes_scanned,
            emitted,
            truncated,
            results: mut matches,
            counts: mut counts,
        } = self;
        sort_lines(&mut matches);
        sort_counts(&mut counts);
        let ghost sorted_lines = match_views(matches@);
        let ghost sorted_counts = count_views(counts@);
        let mut truncated = truncated;
        if let Some(max) = opts.max_total {
            if matches.len() > max {
                matches.truncate(max);
                truncated = true;
            }
            if counts.len() > max {
                counts.truncate(max);
                truncated = true;
            }
        }
        assert(match_views(matches@) =~= cut(sorted_lines, opts.max_total));
        assert(count_views(counts@) =~= cut(sorted_counts, opts.max_total));
        assert(lines_ordered(sorted_lines));
        assert(counts_ordered(sorted_counts));
        GrepOutcome {
            matches,
            counts,
            files_matched,
            files_scanned,
            files_skipped,
            bytes_scanned,
            truncated,
        }
    }
}

} // verus!
