use grep_regex::RegexMatcherBuilder;
use grep_searcher::{Searcher, SearcherBuilder, Sink, SinkContext, SinkMatch};

use zipmount::entry::EntryMeta;
use zipmount::search::{
    accepts, candidates, needed_blocks, prepare, reported_path, search_expression, Collector,
    GrepError, GrepOptions, GrepRun, DEFAULT_MAX_FILE_BYTES,
};
use zipmount::tree::Tree;

fn meta(path: &str, size: u64) -> EntryMeta {
    EntryMeta {
        path: path.to_string(),
        is_dir: false,
        size,
        mtime: 0,
    }
}

fn tree_of(paths: &[&str]) -> Tree {
    let entries: Vec<EntryMeta> = paths.iter().map(|p| meta(p, 10)).collect();
    Tree::build(&entries)
}

fn literal(pattern: &str) -> GrepOptions {
    GrepOptions {
        pattern: pattern.to_string(),
        ..GrepOptions::default()
    }
}

/// Feeds what a searcher reports into a library collector.
struct Feed<'a> {
    collector: &'a mut Collector,
    opts: &'a GrepOptions,
}

impl Sink for Feed<'_> {
    type Error = std::io::Error;

    fn matched(&mut self, _s: &Searcher, m: &SinkMatch<'_>) -> Result<bool, std::io::Error> {
        Ok(self.collector.matched(self.opts, m.line_number(), m.bytes()))
    }

    fn context(&mut self, _s: &Searcher, c: &SinkContext<'_>) -> Result<bool, std::io::Error> {
        Ok(self.collector.context(self.opts, c.line_number(), c.bytes()))
    }
}

fn count_hits(expression: &str, haystack: &[u8]) -> u64 {
    let matcher = RegexMatcherBuilder::new()
        .line_terminator(Some(10))
        .build(expression)
        .unwrap();
    let opts = GrepOptions::default();
    let mut collector = Collector::new("f".to_string());
    let mut searcher = SearcherBuilder::new().line_number(true).build();
    searcher
        .search_slice(
            &matcher,
            haystack,
            Feed {
                collector: &mut collector,
                opts: &opts,
            },
        )
        .unwrap();
    collector.match_count()
}

/// Exactly the case that made substring the default: as a regex, `[ERROR]`
/// means "any of the letters E, R, O".
#[test]
fn literal_pattern_escapes_regex_metacharacters() {
    let escaped = search_expression(&literal("[ERROR]"));
    let haystack = b"Operation failed without brackets\n";
    assert_eq!(
        count_hits(&escaped, haystack),
        0,
        "the substring [ERROR] is not in the line"
    );
    assert_eq!(
        count_hits("[ERROR]", haystack),
        1,
        "but as a regex it matches the line because of the letter O"
    );
}

#[test]
fn literal_escape_covers_common_log_patterns() {
    for pattern in ["[ERROR]", "app.config", "GET /api/v1", "a+b", "x(y)z", "*"] {
        let escaped = search_expression(&literal(pattern));
        let haystack = format!("prefix {pattern} suffix\n");
        assert_eq!(
            count_hits(&escaped, haystack.as_bytes()),
            1,
            "the substring {pattern:?} must be found literally"
        );
    }
}

#[test]
fn escaping_puts_a_backslash_before_each_meta_character() {
    assert_eq!(search_expression(&literal("a.b*c")), "a\\.b\\*c");
    assert_eq!(search_expression(&literal("plain text")), "plain text");
    let regex = GrepOptions {
        literal: false,
        ..literal("a.b")
    };
    assert_eq!(search_expression(&regex), "a.b");
}

#[test]
fn defaults_are_a_plain_substring_search() {
    let o = GrepOptions::default();
    assert!(o.literal);
    assert!(!o.case_insensitive);
    assert_eq!(o.max_file_bytes, DEFAULT_MAX_FILE_BYTES);
    assert_eq!(DEFAULT_MAX_FILE_BYTES, 64 * 1024 * 1024);
    assert!(o.max_total.is_none() && o.max_per_file.is_none());
}

#[test]
fn prepare_reports_a_bad_expression_and_a_missing_branch() {
    let tree = tree_of(&["logs/a.log"]);
    let bad = GrepOptions {
        literal: false,
        ..literal("(")
    };
    assert!(matches!(
        prepare(&tree, &bad),
        Err(GrepError::Pattern { literal: false, .. })
    ));
    // The same text as a substring compiles.
    assert!(prepare(&tree, &literal("(")).is_ok());

    let missing = GrepOptions {
        subpath: Some("nowhere".to_string()),
        ..literal("x")
    };
    match prepare(&tree, &missing) {
        Err(GrepError::PathNotFound(p)) => assert_eq!(p, "nowhere"),
        _ => panic!("expected a missing branch"),
    }

    let inside = GrepOptions {
        subpath: Some("logs".to_string()),
        ..literal("x")
    };
    let plan = prepare(&tree, &inside).ok().unwrap();
    assert_eq!(plan.root, tree.resolve("logs"));
    assert!(prepare(&tree, &literal("x")).ok().unwrap().root.is_none());
}

#[test]
fn collector_keeps_lines_without_their_line_breaks() {
    let opts = GrepOptions::default();
    let mut c = Collector::new("a.log".to_string());
    assert!(c.matched(&opts, Some(3), b"an error here\r\n"));
    assert!(c.context(&opts, Some(4), b"after\n"));
    assert_eq!(c.match_count(), 1);

    let mut run = GrepRun::new();
    run.record(&opts, 100, c);
    let out = run.finish(&opts);
    assert_eq!(out.matches.len(), 2);
    assert_eq!(out.matches[0].path, "a.log");
    assert_eq!(out.matches[0].line_number, 3);
    assert_eq!(out.matches[0].line, "an error here");
    assert!(!out.matches[0].is_context);
    assert_eq!(out.matches[1].line, "after");
    assert!(out.matches[1].is_context);
    assert_eq!(out.files_matched, 1);
    assert_eq!(out.files_scanned, 1);
    assert_eq!(out.bytes_scanned, 100);
    assert!(!out.truncated);
}

#[test]
fn per_file_ceiling_stops_the_file() {
    let opts = GrepOptions {
        max_per_file: Some(2),
        ..literal("x")
    };
    let mut c = Collector::new("f".to_string());
    assert!(c.matched(&opts, Some(1), b"x\n"));
    assert!(!c.matched(&opts, Some(2), b"x\n"));
}

#[test]
fn paths_only_stops_at_the_first_match_and_reports_the_path_once() {
    let opts = GrepOptions {
        files_only: true,
        ..literal("x")
    };
    let mut c = Collector::new("p".to_string());
    assert!(!c.matched(&opts, Some(7), b"x\n"));
    let mut run = GrepRun::new();
    run.record(&opts, 2, c);
    let out = run.finish(&opts);
    assert_eq!(out.matches.len(), 1);
    assert_eq!(out.matches[0].path, "p");
    assert_eq!(out.matches[0].line_number, 0);
    assert_eq!(out.matches[0].line, "");
}

#[test]
fn count_mode_keeps_counts_sorted_by_path() {
    let opts = GrepOptions {
        count_only: true,
        ..literal("x")
    };
    let mut run = GrepRun::new();
    for (path, n) in [("b", 2u64), ("a", 1), ("c", 0)] {
        let mut c = Collector::new(path.to_string());
        for _ in 0..n {
            assert!(c.matched(&opts, Some(1), b"x\n"));
        }
        run.record(&opts, 5, c);
    }
    let out = run.finish(&opts);
    assert!(out.matches.is_empty());
    let counts: Vec<(String, u64)> = out.counts.iter().map(|c| (c.path.clone(), c.matches)).collect();
    assert_eq!(counts, vec![("a".to_string(), 1), ("b".to_string(), 2)]);
    assert_eq!(out.files_matched, 2);
    assert_eq!(out.files_scanned, 3);
}

#[test]
fn results_come_out_sorted_by_path_then_line() {
    let opts = GrepOptions::default();
    let mut run = GrepRun::new();
    for (path, lines) in [("z.txt", [5u64, 1]), ("a.txt", [9, 2])] {
        let mut c = Collector::new(path.to_string());
        for n in lines {
            c.matched(&opts, Some(n), b"hit\n");
        }
        run.record(&opts, 10, c);
    }
    let out = run.finish(&opts);
    let order: Vec<(String, u64)> = out
        .matches
        .iter()
        .map(|m| (m.path.clone(), m.line_number))
        .collect();
    assert_eq!(
        order,
        vec![
            ("a.txt".to_string(), 2),
            ("a.txt".to_string(), 9),
            ("z.txt".to_string(), 1),
            ("z.txt".to_string(), 5),
        ]
    );
}

#[test]
fn overall_ceiling_cuts_the_ordered_result() {
    let opts = GrepOptions {
        max_total: Some(3),
        ..literal("x")
    };
    let mut run = GrepRun::new();
    for path in ["d", "c", "b", "a"] {
        let mut c = Collector::new(path.to_string());
        c.matched(&opts, Some(1), b"x\n");
        c.matched(&opts, Some(2), b"x\n");
        run.record(&opts, 1, c);
    }
    let out = run.finish(&opts);
    assert!(out.truncated);
    let order: Vec<(String, u64)> = out
        .matches
        .iter()
        .map(|m| (m.path.clone(), m.line_number))
        .collect();
    // Two files fit under the ceiling before it is reached; of the four
    // lines kept, the first three in print order remain.
    assert_eq!(
        order,
        vec![
            ("c".to_string(), 1),
            ("c".to_string(), 2),
            ("d".to_string(), 1),
        ]
    );
}

#[test]
fn oversized_and_unreadable_files_are_counted_as_skipped() {
    let opts = GrepOptions {
        max_file_bytes: 10,
        ..literal("x")
    };
    let mut run = GrepRun::new();
    assert!(run.searchable(&opts, 10));
    assert!(!run.searchable(&opts, 11));
    run.skip();
    let out = run.finish(&opts);
    assert_eq!(out.files_skipped, 2);
    assert_eq!(out.files_scanned, 0);
}

#[test]
fn candidates_follow_branch_and_name_pattern() {
    let tree = tree_of(&["logs/a.log", "logs/b.txt", "other/c.log"]);
    let opts = GrepOptions {
        glob: Some("*.LOG".to_string()),
        ..literal("x")
    };
    let logs = tree.resolve("logs").unwrap();
    let mut picked: Vec<String> = candidates(&tree, &opts, Some(logs))
        .into_iter()
        .map(|id| tree.path_of(id))
        .collect();
    picked.sort();
    assert_eq!(picked, vec!["logs\\a.log".to_string()]);

    let mut everywhere: Vec<String> = candidates(&tree, &opts, None)
        .into_iter()
        .map(|id| tree.path_of(id))
        .collect();
    everywhere.sort();
    assert_eq!(
        everywhere,
        vec!["logs\\a.log".to_string(), "other\\c.log".to_string()]
    );

    let b = tree.resolve("logs/b.txt").unwrap();
    assert!(!accepts(&tree, &opts, b));
    assert!(accepts(&tree, &literal("x"), b));
}

#[test]
fn reported_paths_carry_the_prefix() {
    let tree = tree_of(&["docs/r.txt"]);
    let id = tree.resolve("docs/r.txt").unwrap();
    let opts = GrepOptions {
        path_prefix: Some("Z:\\".to_string()),
        ..literal("x")
    };
    assert_eq!(reported_path(&tree, &opts, id), "Z:\\docs\\r.txt");
    assert_eq!(reported_path(&tree, &literal("x"), id), "docs\\r.txt");
}

#[test]
fn only_blocks_with_wanted_entries_are_expanded() {
    let tree = tree_of(&["a.log", "b.txt", "c.log"]);
    let node_of = tree.entry_node_map(3);
    let opts = GrepOptions {
        glob: Some("*.log".to_string()),
        ..literal("x")
    };
    // Entry 0 and 1 share block 0; entry 2 sits in block 2; block 1 holds
    // nothing wanted.
    let block_of = vec![Some(0usize), Some(1), Some(2)];
    assert_eq!(needed_blocks(&tree, &opts, None, &node_of, &block_of, 3), vec![0, 2]);
    let all = vec![Some(1usize), Some(1), None];
    assert_eq!(needed_blocks(&tree, &literal("x"), None, &node_of, &all, 3), vec![1]);
}
