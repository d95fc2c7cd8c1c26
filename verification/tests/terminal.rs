use rustline::display::{Display, DisplayBuffer};
use rustline::terminal::{
    fill_unknown, is_unsupported_term_name, parse_dimension, parse_size_reply, DEFAULT_COLS,
    DEFAULT_ROWS,
};
use rustline::unicode::Rune;
use rustline::WinSize;

#[test]
fn winsize_never_reports_zero() {
    let clamped = WinSize { rows: 0, cols: 0 }.clamped();
    assert_eq!(clamped.rows, DEFAULT_ROWS);
    assert_eq!(clamped.cols, DEFAULT_COLS);
    assert!(clamped.cols() > 0);
    assert!(clamped.rows() > 0);

    let partial = WinSize { rows: 0, cols: 100 }.clamped();
    assert_eq!(partial.rows, DEFAULT_ROWS);
    assert_eq!(partial.cols, 100);
}

#[test]
fn winsize_getters_never_answer_zero() {
    let raw = WinSize { rows: 0, cols: 0 };
    assert_eq!(raw.cols(), DEFAULT_COLS as usize);
    assert_eq!(raw.rows(), DEFAULT_ROWS as usize);
    let set = WinSize { rows: 50, cols: 132 };
    assert_eq!(set.cols(), 132);
    assert_eq!(set.rows(), 50);
}

#[test]
fn default_winsize_is_usable() {
    let d = WinSize::default();
    assert_eq!((d.rows, d.cols), (DEFAULT_ROWS, DEFAULT_COLS));
}

#[test]
fn unsupported_terminals_are_recognized() {
    assert!(is_unsupported_term_name("dumb"));
    assert!(is_unsupported_term_name("DUMB"));
    assert!(is_unsupported_term_name("cons25"));
    assert!(is_unsupported_term_name("emacs"));

    assert!(!is_unsupported_term_name("xterm-256color"));
    assert!(!is_unsupported_term_name("dumb-but-not-really"));
    assert!(!is_unsupported_term_name(""));
}

#[test]
fn dimensions_from_the_environment() {
    assert_eq!(parse_dimension("80"), Some(80));
    assert_eq!(parse_dimension("  132\n"), Some(132));
    assert_eq!(parse_dimension("+24"), Some(24));
    assert_eq!(parse_dimension("0"), None);
    assert_eq!(parse_dimension("65535"), Some(65535));
    assert_eq!(parse_dimension("65536"), None);
    assert_eq!(parse_dimension("-5"), None);
    assert_eq!(parse_dimension("12x"), None);
    assert_eq!(parse_dimension(""), None);
}

#[test]
fn size_query_replies_are_read() {
    assert_eq!(parse_size_reply(b"\x1b[24;80R"), Some(WinSize { rows: 24, cols: 80 }));
    assert_eq!(parse_size_reply(b"\x1b[ 50 ; 132 R junk"), Some(WinSize { rows: 50, cols: 132 }));
    assert_eq!(parse_size_reply(b"\x1b[24R"), None);
    assert_eq!(parse_size_reply(b"24;80R"), None);
    assert_eq!(parse_size_reply(b"\x1b[24;80;1R"), Some(WinSize { rows: 24, cols: 80 }));
    assert_eq!(parse_size_reply(b"\x1b[\xff;80R"), None);
}

#[test]
fn unknown_dimensions_are_filled_in() {
    let s = fill_unknown(WinSize { rows: 0, cols: 100 }, Some(30), Some(40));
    assert_eq!(s, WinSize { rows: 30, cols: 100 });
    let s = fill_unknown(WinSize { rows: 0, cols: 0 }, None, Some(40));
    assert_eq!(s, WinSize { rows: 0, cols: 40 });
}

#[test]
fn display_buffer_writes_cursor_movements() {
    let mut b = DisplayBuffer::new();
    b.push_str("ab");
    b.move_to_col(0);
    b.move_to_col(12);
    b.clear_to_eos();
    b.move_up(0);
    b.move_up(3);
    b.push_esc("[0m");
    b.push_byte(b'!');
    assert_eq!(b.as_bytes(), b"ab\r\r\x1b[12C\x1b[J\x1b[3A\x1b[0m!");
    b.clear();
    assert!(b.as_bytes().is_empty());
}

#[test]
fn metrics_count_wrapped_rows() {
    let mut d = Display::new(WinSize { rows: 24, cols: 10 });
    assert_eq!((d.rows_used, d.cursor_row), (1, 0));
    assert!(d.update_metrics("> ", "abcdefghijkl", 3));
    assert_eq!(d.rows_used, 2);
    assert_eq!(d.cursor_row, 1);
    assert!(d.update_metrics("> ", "abc", 3));
    assert_eq!((d.rows_used, d.cursor_row), (1, 0));
    assert!(!d.update_metrics("> ", "é", 1));
    let mut z = Display::new(WinSize { rows: 0, cols: 0 });
    assert!(!z.update_metrics("> ", "abc", 0));
}

#[test]
fn runes_decode_one_character() {
    let r = Rune::decode("é".as_bytes()).unwrap();
    assert_eq!(r.codepoint, 0xe9);
    assert_eq!(r.len, 2);
    assert_eq!(r.bytes, [0xc3, 0xa9, 0, 0]);
    assert_eq!(r.width(), 1);
    let r = Rune::decode("中x".as_bytes()).unwrap();
    assert_eq!(r.codepoint, 0x4e2d);
    assert_eq!(r.width(), 2);
    assert!(Rune::decode(b"").is_none());
    assert!(Rune::decode(&[0xff]).is_none());
    let bogus = Rune { codepoint: 0xd800, bytes: [0; 4], len: 0 };
    assert_eq!(bogus.width(), 0);
}
