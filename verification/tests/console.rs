use zipmount::console::{display_width, table_lines};

#[test]
fn widths_count_cjk_twice() {
    assert_eq!(display_width("files:"), 6);
    assert_eq!(display_width("文件："), 6);
    assert_eq!(display_width("파일"), 4);
}

#[test]
fn widths_of_the_block_edges() {
    assert_eq!(display_width(""), 0);
    assert_eq!(display_width("\u{1100}\u{115F}\u{1160}"), 5);
    assert_eq!(display_width("\u{FFE6}\u{FFE7}"), 3);
}

#[test]
fn values_line_up_after_the_widest_label() {
    let rows = vec![
        ("files:".to_string(), "12".to_string()),
        ("文件：".to_string(), "3".to_string()),
        ("a".to_string(), "x".to_string()),
    ];
    let lines = table_lines(&rows);
    assert_eq!(lines, vec!["files:  12", "文件：  3", "a       x"]);
    assert!(table_lines(&Vec::new()).is_empty());
}
