use rustline::History;

fn entries(h: &History) -> Vec<String> {
    h.iter().into_iter().map(|s| s.to_string()).collect()
}

#[test]
fn add_skips_empty_and_consecutive_duplicates() {
    let mut h = History::new(10);
    assert!(h.add("one"));
    assert!(!h.add("one"));
    assert!(!h.add(""));
    assert!(h.add("two"));
    assert!(h.add("one"));
    assert_eq!(h.iter(), ["one", "two", "one"]);
}

#[test]
fn capacity_is_exactly_max_size() {
    let mut h = History::new(3);
    for i in 0..10 {
        h.add(&format!("line{i}"));
    }
    assert_eq!(h.len(), 3);
    assert_eq!(h.iter(), ["line7", "line8", "line9"]);
}

#[test]
fn a_zero_capacity_history_holds_one_entry() {
    let mut h = History::new(0);
    assert_eq!(h.max_size(), 1);
    h.add("a");
    h.add("b");
    assert_eq!(h.iter(), ["b"]);
}

#[test]
fn push_keeps_empty_lines_and_duplicates() {
    let mut h = History::new(5);
    h.push(String::new());
    h.push("x".to_string());
    h.push("x".to_string());
    assert_eq!(h.iter(), ["", "x", "x"]);
    assert_eq!(h.pop(), Some("x".to_string()));
    assert_eq!(h.len(), 2);
    h.clear();
    assert!(h.is_empty());
    assert_eq!(h.pop(), None);
}

#[test]
fn search_finds_the_most_recent_match() {
    let mut h = History::new(10);
    h.add("git status");
    h.add("cargo build");
    h.add("git commit");

    let (index, offset) = h.search_backward("git", 2, usize::MAX).unwrap();
    assert_eq!(index, 2);
    assert_eq!(offset, 0);

    let (index, _) = h.search_backward("git", 1, usize::MAX).unwrap();
    assert_eq!(index, 0);

    assert_eq!(h.search_backward("nope", 2, usize::MAX), None);
    assert_eq!(h.search_backward("", 2, usize::MAX), None);
}

#[test]
fn search_respects_the_byte_limit() {
    let mut h = History::new(10);
    h.add("abcabc");
    assert_eq!(h.search_backward("abc", 0, 4), Some((0, 0)));
    assert_eq!(h.search_backward("abc", 0, usize::MAX), Some((0, 3)));
}

#[test]
fn search_limit_inside_a_character_keeps_the_bytes_before_it() {
    let mut h = History::new(10);
    h.add("a\u{e9}");
    assert_eq!(h.search_backward("a", 0, 2), Some((0, 0)));
    assert_eq!(h.search_backward("\u{e9}", 0, 2), None);
    assert_eq!(h.search_backward("\u{e9}", 0, 3), Some((0, 1)));
    h.add("zz");
    assert_eq!(h.search_backward("a", 1, 1), Some((0, 0)));
}

#[test]
fn search_on_empty_history_is_none() {
    let h = History::new(10);
    assert_eq!(h.search_backward("x", 0, usize::MAX), None);
}

#[test]
fn set_replaces_in_place() {
    let mut h = History::new(10);
    h.add("one");
    h.add("two");
    h.set(0, "ONE");
    assert_eq!(h.get(0), Some("ONE"));
    h.set(99, "ignored");
    assert_eq!(h.len(), 2);
}

#[test]
fn load_keeps_the_newest_entries_and_matches_add_capacity() {
    let mut h = History::new(3);
    h.load_bytes(b"a\nb\nc\nd\ne\n");
    assert_eq!(h.len(), 3);
    assert_eq!(h.iter(), ["c", "d", "e"]);
}

#[test]
fn load_skips_lines_that_are_not_utf8() {
    let mut h = History::new(10);
    h.load_bytes(b"good one\n\xff\xfe bad\ngood two\n");
    assert_eq!(h.iter(), ["good one", "good two"]);
}

#[test]
fn load_reads_a_final_line_without_a_newline() {
    let mut h = History::new(10);
    h.load_bytes(b"a\nb");
    assert_eq!(h.iter(), ["a", "b"]);
}

#[test]
fn load_replaces_what_was_there_and_skips_blank_lines() {
    let mut h = History::new(10);
    h.add("old");
    h.load_bytes(b"\n\nx\n\ny\n");
    assert_eq!(h.iter(), ["x", "y"]);
}

#[test]
fn save_round_trips() {
    let mut h = History::new(10);
    h.add("first");
    h.add("second");
    h.add("é中😀");
    let bytes = h.to_bytes();
    assert_eq!(bytes, "first\nsecond\né中😀\n".as_bytes());

    let mut loaded = History::new(10);
    loaded.load_bytes(&bytes);
    assert_eq!(entries(&loaded), entries(&h));

    let mut small = History::new(2);
    small.load_bytes(&bytes);
    assert_eq!(small.iter(), ["second", "é中😀"]);
}
