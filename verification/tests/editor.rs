use rustline::editor::{history_path_in, plain_line};
use rustline::{history_path, Config, Rustline};

#[test]
fn default_config_is_sane() {
    let c = Config::default();
    assert_eq!(c.history_max_size, 1024);
    assert!(c.enable_completion);
    assert!(!c.balance_pairs);
    assert_eq!(c.continuation_prompt, "... ");
}

#[test]
fn config_history_size_is_honoured() {
    let rl = Rustline::with_config(Config {
        history_max_size: 7,
        ..Config::default()
    });
    assert_eq!(rl.history().max_size(), 7);
}

#[test]
fn resizing_history_keeps_the_newest_entries() {
    let mut rl = Rustline::new();
    for i in 0..10 {
        rl.add_history_entry(&format!("line{i}"));
    }
    rl.set_config(Config {
        history_max_size: 3,
        ..Config::default()
    });
    assert_eq!(rl.history().len(), 3);
    assert_eq!(rl.history().get(2), Some("line9"));
}

#[test]
fn growing_history_keeps_every_entry() {
    let mut rl = Rustline::with_config(Config { history_max_size: 2, ..Config::default() });
    rl.add_history_entry("a");
    rl.add_history_entry("b");
    rl.set_config(Config { history_max_size: 5, ..Config::default() });
    assert_eq!(rl.history().iter(), ["a", "b"]);
    assert_eq!(rl.history().max_size(), 5);
    assert_eq!(rl.config().history_max_size, 5);
}

#[test]
fn history_entries_round_trip_through_the_api() {
    let mut rl = Rustline::new();
    assert!(rl.add_history_entry("one"));
    assert!(!rl.add_history_entry("one"));
    assert!(rl.add_history_entry("two"));
    assert_eq!(rl.history().iter(), ["one", "two"]);

    let bytes = rl.history().to_bytes();
    let mut other = Rustline::new();
    other.history_mut().load_bytes(&bytes);
    assert_eq!(other.history().iter(), ["one", "two"]);
}

#[test]
fn history_path_rules() {
    assert_eq!(history_path("/tmp/h"), b"/tmp/h");
    assert_eq!(history_path("h.txt"), b"h.txt");
    let derived = history_path("foo");
    assert!(derived.ends_with(b".foo_history"));
}

#[test]
fn history_path_goes_under_the_home_directory() {
    assert_eq!(history_path_in("foo", Some(&b"/home/u"[..])), b"/home/u/.foo_history");
    assert_eq!(history_path_in("foo", Some(&b"/"[..])), b"/.foo_history");
    assert_eq!(history_path_in("foo", None), b".foo_history");
    assert_eq!(history_path_in("a/b", Some(&b"/home/u"[..])), b"a/b");
    assert_eq!(history_path_in("foo", Some(&b"/home/\xff"[..])), b"/home/\xff/.foo_history");
}

#[test]
fn xlat_is_installed_and_cleared() {
    let mut rl = Rustline::new();
    rl.set_xlat(Box::new(|c: char| c.to_ascii_uppercase()));
    assert!(rl.has_xlat());
    rl.clear_xlat();
    assert!(!rl.has_xlat());
}

#[test]
fn plain_lines_strip_crlf_and_report_end_of_input() {
    assert_eq!(plain_line(b"hello", true), Some("hello".to_string()));
    assert_eq!(plain_line(b"windows\r", true), Some("windows".to_string()));
    assert_eq!(plain_line(b"no-newline", false), Some("no-newline".to_string()));
    assert_eq!(plain_line(b"", true), Some(String::new()));
    assert_eq!(plain_line(b"", false), None);
    assert_eq!(plain_line(b"\r", false), None);
    assert_eq!(plain_line(b"a\xffb", true), Some("a\u{fffd}b".to_string()));
}

#[test]
fn keys_are_queued_in_order() {
    let mut rl = Rustline::new();
    assert!(!rl.feed(b"\x1b["));
    assert!(!rl.parser_is_idle());
    assert!(rl.feed(b"Ax"));
    assert_eq!(rl.next_pending(), Some(rustline::parser::KeySeq::Up));
    rl.push_front_pending(rustline::parser::KeySeq::Tab);
    assert_eq!(rl.next_pending(), Some(rustline::parser::KeySeq::Tab));
    assert_eq!(rl.next_pending(), Some(rustline::parser::KeySeq::Char('x')));
    assert_eq!(rl.next_pending(), None);
}
