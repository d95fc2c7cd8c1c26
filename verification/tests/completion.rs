use rustline::completion::{expand_tilde_with, join_path, split_path_word};
use rustline::{
    display_width, format_columns, word_start, CommandCompleter, CompletionProvider, Completions,
    FileCompleter, NoCompleter,
};

#[test]
fn word_start_stops_at_whitespace_only() {
    assert_eq!(word_start("cat src/buf", 11), 4);
    assert_eq!(word_start("cat", 3), 0);
    assert_eq!(word_start("", 0), 0);
    assert_eq!(word_start("a  b", 4), 3);
    assert_eq!(word_start("échó xy", 9), 7);
}

#[test]
fn split_path_word_keeps_the_directory() {
    assert_eq!(split_path_word("src/buf"), ("src/", "buf"));
    assert_eq!(split_path_word("buf"), ("", "buf"));
    assert_eq!(split_path_word("/etc/pa"), ("/etc/", "pa"));
    assert_eq!(split_path_word("src/"), ("src/", ""));
}

#[test]
fn common_prefix_is_a_char_boundary() {
    let mut c = Completions::new(0);
    c.add("日本.txt");
    c.add("日月.txt");
    let len = c.common_prefix_len();
    assert_eq!(len, "日".len());
    assert!(c.candidates()[0].is_char_boundary(len));

    let mut c = Completions::new(0);
    c.add("abc");
    c.add("abd");
    assert_eq!(c.common_prefix_len(), 2);

    let mut c = Completions::new(0);
    c.add("only");
    assert_eq!(c.common_prefix_len(), 4);

    let c = Completions::new(0);
    assert_eq!(c.common_prefix_len(), 0);

    let mut c = Completions::new(0);
    c.add("abc");
    c.add("xyz");
    assert_eq!(c.common_prefix_len(), 0);
}

#[test]
fn file_completer_on_unreadable_directory_is_empty() {
    let c = FileCompleter.complete_from("cat /nonexistent-xyz/f", 22, None);
    assert!(c.is_empty());
}

#[test]
fn file_completer_keeps_the_directory_part_and_marks_directories() {
    let entries = vec![
        ("buffer.rs".to_string(), false),
        ("butter.rs".to_string(), false),
        ("bin".to_string(), true),
        ("decoy.rs".to_string(), false),
    ];
    let line = "cat src/bu";
    let c = FileCompleter.complete_from(line, line.len(), Some(&entries));
    assert_eq!(c.start(), 4);
    assert_eq!(c.candidates(), ["src/buffer.rs", "src/butter.rs"]);

    let line = "cat src/b";
    let c = FileCompleter.complete_from(line, line.len(), Some(&entries));
    assert_eq!(c.candidates(), ["src/bin/", "src/buffer.rs", "src/butter.rs"]);
}

#[test]
fn file_completer_reads_the_directory_in_the_word() {
    let f = FileCompleter::new();
    assert_eq!(f.directory("cat src/buf", 11), b"src/");
    assert_eq!(f.directory("cat buf", 7), b".");
    assert_eq!(f.directory("ls /etc/pa", 10), b"/etc/");
}

#[test]
fn tilde_expands_to_the_home_directory() {
    let home: &[u8] = b"/home/u";
    assert_eq!(expand_tilde_with("~/src/", Some(home)), Some(b"/home/u/src/".to_vec()));
    assert_eq!(expand_tilde_with("~", Some(home)), Some(b"/home/u/".to_vec()));
    assert_eq!(expand_tilde_with("~//x/", Some(&b"/home/u/"[..])), Some(b"/home/u/x/".to_vec()));
    assert_eq!(expand_tilde_with("~user/", Some(home)), None);
    assert_eq!(expand_tilde_with("src/", Some(home)), None);
    assert_eq!(expand_tilde_with("~/", None), None);
}

#[test]
fn tilde_expansion_keeps_a_home_that_is_not_utf8() {
    let home: &[u8] = b"/home/\xff\xfe";
    assert_eq!(expand_tilde_with("~/docs", Some(home)), Some(b"/home/\xff\xfe/docs".to_vec()));
    assert_eq!(join_path(home, "\u{e9}".as_bytes()), b"/home/\xff\xfe/\xc3\xa9");
}

#[test]
fn paths_join_with_one_separator() {
    assert_eq!(join_path(b"/home/u", b"x"), b"/home/u/x");
    assert_eq!(join_path(b"/home/u/", b"x"), b"/home/u/x");
    assert_eq!(join_path(b"", b"x"), b"x");
}

#[test]
fn command_completer_only_fires_in_first_position() {
    let completer = CommandCompleter::new(&["help", "history", "exit"], NoCompleter);

    let c = completer.complete("hi", 2);
    assert_eq!(c.candidates(), ["history"]);
    assert_eq!(c.start(), 0);

    let c = completer.complete("h", 1);
    assert_eq!(c.candidates(), ["help", "history"]);

    let c = completer.complete("echo h", 6);
    assert!(c.is_empty());
}

#[test]
fn command_completer_offers_commands_in_sorted_order() {
    let completer = CommandCompleter::new(&["zed", "alpha", "mid", "alpha"], NoCompleter);
    let c = completer.complete("", 0);
    assert_eq!(c.candidates(), ["alpha", "alpha", "mid", "zed"]);
    let c = completer.complete("  m", 3);
    assert_eq!(c.start(), 2);
    assert_eq!(c.candidates(), ["mid"]);
}

#[test]
fn sort_dedup_sorts_by_code_point_and_drops_repeats() {
    let mut c = Completions::new(3);
    for s in ["pear", "apple", "pear", "Zebra", "äpfel", "apple"] {
        c.add(s);
    }
    c.sort_dedup();
    assert_eq!(c.candidates(), ["Zebra", "apple", "pear", "äpfel"]);
    assert_eq!(c.start(), 3);
    assert_eq!(c.len(), 4);
}

#[test]
fn no_completer_offers_nothing_at_the_cursor() {
    let c = NoCompleter.complete("abc", 2);
    assert!(c.is_empty());
    assert_eq!(c.start(), 2);
}

#[test]
fn columns_fit_the_width() {
    let items: Vec<String> = (0..6).map(|i| format!("item{i}")).collect();
    let lines = format_columns(&items, 40);
    assert!(!lines.is_empty());
    for line in &lines {
        assert!(display_width(line) <= 40);
    }
    let joined = lines.join(" ");
    for item in &items {
        assert_eq!(joined.matches(item.as_str()).count(), 1);
    }
}

#[test]
fn columns_handle_a_narrow_terminal() {
    let items = vec!["a-very-long-candidate-name".to_string(), "b".to_string()];
    let lines = format_columns(&items, 10);
    assert_eq!(lines.len(), 2);
}

#[test]
fn columns_run_down_then_across() {
    let items: Vec<String> = ["a", "bb", "c", "dd", "e"].iter().map(|s| s.to_string()).collect();
    // Widest is 2, so each column is 4 wide and 10 columns fit in 40.
    let lines = format_columns(&items, 40);
    assert_eq!(lines, ["a   bb  c   dd  e"]);
    // 9 columns wide fits two columns of three rows.
    let lines = format_columns(&items, 9);
    assert_eq!(lines, ["a   dd", "bb  e", "c"]);
    assert!(format_columns(&[], 80).is_empty());
}
