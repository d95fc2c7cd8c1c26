use rustline::edit::{escape_key, is_balanced, search_prompt, Command, SearchStep};
use rustline::parser::KeySeq;
use rustline::state::EditorState;
use rustline::{CommandCompleter, Config, NoCompleter, Rustline, WinSize};

/// How a session ended.
#[derive(Debug, PartialEq)]
enum Outcome {
    Line(String),
    Eof,
    Interrupted,
    /// The input ran out with the line still open.
    Open(String),
}

/// Runs one editing session over the keys already fed to `rl`, performing
/// the commands the way an interactive caller would, minus the drawing.
fn session(rl: &mut Rustline) -> (Outcome, Vec<Vec<String>>) {
    let mut state: EditorState = rl.new_session("> ", "", 0, 1, WinSize::default());
    let mut listed = Vec::new();
    while let Some(key) = rl.next_pending() {
        match rl.dispatch(&mut state, key) {
            Command::Accept(text) => return (Outcome::Line(text), listed),
            Command::Eof => return (Outcome::Eof, listed),
            Command::Interrupted => return (Outcome::Interrupted, listed),
            Command::ContinueLine => state.begin_continuation(),
            Command::ListCompletions(c) => listed.push(c),
            Command::Search => {
                if let Some(mut search) = rl.search_begin(&mut state) {
                    let mut terminator = None;
                    while let Some(k) = rl.next_pending() {
                        match rl.search_key(&mut state, &mut search, k) {
                            SearchStep::Continue => {}
                            SearchStep::Done(t) => {
                                terminator = t;
                                break;
                            }
                        }
                    }
                    rl.search_end(&mut state, search, terminator);
                }
            }
            _ => {}
        }
    }
    (Outcome::Open(state.full_text()), listed)
}

fn type_line(rl: &mut Rustline, input: &[u8]) -> Outcome {
    rl.feed(input);
    session(rl).0
}

fn line(s: &str) -> Outcome {
    Outcome::Line(s.to_string())
}

#[test]
fn balance_matches_bestline() {
    assert!(is_balanced(""));
    assert!(is_balanced("(a)"));
    assert!(is_balanced("((a))"));
    assert!(!is_balanced("(a"));
    assert!(is_balanced("a)"));
    assert!(!is_balanced(")("));
    assert!(is_balanced("(a\nb)"));
}

#[test]
fn escaped_keys_are_readable() {
    assert_eq!(escape_key(&KeySeq::Char('a')), "a");
    assert_eq!(escape_key(&KeySeq::Ctrl('a')), "\\x01");
    assert_eq!(escape_key(&KeySeq::Ctrl('@')), "\\x00");
    assert_eq!(escape_key(&KeySeq::Tab), "\\t");
    assert_eq!(escape_key(&KeySeq::Enter), "\\r");
    assert_eq!(escape_key(&KeySeq::Backspace), "\\x7f");
    assert_eq!(escape_key(&KeySeq::Alt('x')), "\\ex");
    assert_eq!(escape_key(&KeySeq::Up), "\\e[A");
}

#[test]
fn escaped_keys_cover_the_rest_of_the_map() {
    assert_eq!(escape_key(&KeySeq::LineFeed), "\\n");
    assert_eq!(escape_key(&KeySeq::AltBackspace), "\\e\\x7f");
    assert_eq!(escape_key(&KeySeq::CtrlAlt('b')), "\\e\\x02");
    assert_eq!(escape_key(&KeySeq::Ctrl('\\')), "\\x1c");
    assert_eq!(escape_key(&KeySeq::Delete), "\\e[3~");
    assert_eq!(escape_key(&KeySeq::Home), "\\e[H");
    assert_eq!(escape_key(&KeySeq::End), "\\e[F");
    assert_eq!(escape_key(&KeySeq::PageUp), "PageUp");
    assert_eq!(escape_key(&KeySeq::F(5)), "F(5)");
}

#[test]
fn escaped_keys_without_a_sequence_use_their_debug_text() {
    for key in [
        KeySeq::Insert,
        KeySeq::PageDown,
        KeySeq::AltLeft,
        KeySeq::AltRight,
        KeySeq::BracketedPasteStart,
        KeySeq::BracketedPasteEnd,
        KeySeq::F(12),
        KeySeq::F(255),
        KeySeq::CtrlAlt('X'),
        KeySeq::CtrlAlt('\\'),
        KeySeq::CtrlAlt('\''),
        KeySeq::Unknown(vec![]),
        KeySeq::Unknown(vec![7]),
        KeySeq::Unknown(vec![255, 254, 0, 42]),
    ] {
        assert_eq!(escape_key(&key), format!("{key:?}"));
    }
    assert_eq!(escape_key(&KeySeq::F(12)), "F(12)");
    assert_eq!(escape_key(&KeySeq::F(255)), "F(255)");
    assert_eq!(escape_key(&KeySeq::CtrlAlt('X')), "CtrlAlt('X')");
    assert_eq!(escape_key(&KeySeq::Unknown(vec![255, 254])), "Unknown([255, 254])");
    assert_eq!(escape_key(&KeySeq::Unknown(vec![])), "Unknown([])");
}

#[test]
fn search_prompt_underlines_the_match() {
    let p = search_prompt(false, "git", 3);
    assert!(p.contains("reverse-i-search"));
    assert!(p.contains("\x1b[4mgit\x1b[24m"));
    assert!(!p.contains("failed"));

    let p = search_prompt(true, "gitx", 3);
    assert!(p.contains("failed"));
    assert!(p.contains("\x1b[4mgit\x1b[24mx"));
}

#[test]
fn search_prompt_handles_multibyte_needles() {
    let p = search_prompt(false, "日本", "日".len());
    assert!(p.contains("\x1b[4m日\x1b[24m本"));
}

#[test]
fn search_prompt_is_exact() {
    assert_eq!(
        search_prompt(true, "ab", 1),
        "(failed reverse-i-search `\x1b[4ma\x1b[24mb') "
    );
    assert_eq!(search_prompt(false, "ab", 99), "(reverse-i-search `\x1b[4mab\x1b[24m') ");
}

#[test]
fn control_chords_edit_the_line() {
    let mut rl = Rustline::new();
    let cases: &[(&[u8], &str)] = &[
        (b"abc\x01X\r", "Xabc"),
        (b"abc\x01\x05X\r", "abcX"),
        (b"abc\x02X\r", "abXc"),
        (b"abc\x01\x06X\r", "aXbc"),
        (b"abc\x08\r", "ab"),
        (b"abc\x01\x04\r", "bc"),
        (b"abcdef\x02\x02\x02\x0b\r", "abc"),
        (b"abcdef\x02\x02\x02\x15\r", "def"),
        (b"one two\x17\r", "one "),
        (b"one two\x17\x19\x19\r", "one twotwo"),
        (b"ab\x14\r", "ba"),
        (b"abc\x1b[HQ\x1b[FW\r", "QabcW"),
    ];
    for (input, expected) in cases {
        assert_eq!(type_line(&mut rl, input), line(expected), "{input:?}");
    }
}

#[test]
fn word_and_expression_keys_edit_the_line() {
    let mut rl = Rustline::new();
    let cases: &[(&[u8], &str)] = &[
        (b"one two\x1bb\x1bu\r", "one TWO"),
        (b"ONE TWO\x1bb\x1bl\r", "ONE two"),
        (b"one two\x1bb\x1bc\r", "one Two"),
        (b"one two\x01\x1bd\r", " two"),
        (b"one    two\x01\x06\x06\x06\x1b\\\r", "onetwo"),
        (b"one two\x1bt\r", "two one"),
        (b"(a b c)\x02\x02\x02\x02\x1bB\r", "(a b) c"),
    ];
    for (input, expected) in cases {
        assert_eq!(type_line(&mut rl, input), line(expected), "{input:?}");
    }
}

#[test]
fn ctrl_d_is_eof_only_when_the_line_is_empty() {
    let mut rl = Rustline::new();
    assert_eq!(type_line(&mut rl, b"ab\x01\x04\r"), line("b"));
    assert_eq!(type_line(&mut rl, b"\x04"), Outcome::Eof);
}

#[test]
fn ctrl_c_interrupts_and_the_next_line_is_read_afresh() {
    let mut rl = Rustline::new();
    assert_eq!(type_line(&mut rl, b"discard me\x03"), Outcome::Interrupted);
    assert_eq!(type_line(&mut rl, b"kept\r"), line("kept"));
}

#[test]
fn keys_batched_with_a_submission_are_kept_for_the_next_line() {
    let mut rl = Rustline::new();
    rl.feed(b"first\rsecond\rthird\r");
    assert_eq!(session(&mut rl).0, line("first"));
    assert_eq!(session(&mut rl).0, line("second"));
    assert_eq!(session(&mut rl).0, line("third"));
    assert_eq!(session(&mut rl).0, Outcome::Open(String::new()));
}

#[test]
fn balance_mode_reads_continuation_lines() {
    let mut rl = Rustline::with_config(Config { balance_pairs: true, ..Config::default() });
    assert_eq!(type_line(&mut rl, b"(a\rb)\r"), line("(a\nb)"));
    assert_eq!(type_line(&mut rl, b")(\r)\r"), line(")(\n)"));
}

#[test]
fn linefeed_continues_unless_multiline_is_off() {
    let mut rl = Rustline::new();
    assert_eq!(type_line(&mut rl, b"one\x0atwo\r"), line("one\ntwo"));
    let mut rl = Rustline::with_config(Config { enable_multiline: false, ..Config::default() });
    assert_eq!(type_line(&mut rl, b"one\x0a"), line("one"));
}

#[test]
fn bracketed_paste_inserts_text_and_newlines() {
    let mut rl = Rustline::new();
    assert_eq!(type_line(&mut rl, b"\x1b[200~alpha\rbeta\x1b[201~\r"), line("alpha\nbeta"));
    assert_eq!(type_line(&mut rl, b"\x1b[200~keep\x15me\x1b[201~\r"), line("keepme"));
    let mut rl = Rustline::with_config(Config { enable_multiline: false, ..Config::default() });
    assert_eq!(type_line(&mut rl, b"\x1b[200~a\rb\x1b[201~\r"), line("a b"));
}

#[test]
fn reverse_search_recalls_and_cancels() {
    let mut rl = Rustline::new();
    for entry in ["alpha one", "beta two", "gamma three"] {
        rl.add_history_entry(entry);
    }
    assert_eq!(type_line(&mut rl, b"\x12alpha\r"), line("alpha one"));

    let mut rl = Rustline::new();
    rl.add_history_entry("stored");
    assert_eq!(type_line(&mut rl, b"draft\x12stor\x07\r"), line("draft"));
}

#[test]
fn reverse_search_steps_back_to_older_matches() {
    let mut rl = Rustline::new();
    for entry in ["git status", "cargo build", "git commit"] {
        rl.add_history_entry(entry);
    }
    assert_eq!(type_line(&mut rl, b"\x12git\r"), line("git commit"));
    assert_eq!(type_line(&mut rl, b"\x12git\x12\r"), line("git status"));
    assert_eq!(type_line(&mut rl, b"\x12nope\x01X\r"), line("X"));
}

#[test]
fn history_navigation_preserves_edits() {
    let mut rl = Rustline::new();
    rl.add_history_entry("remembered");
    assert_eq!(type_line(&mut rl, b"typing\x1b[A!\x1b[B\r"), line("typing"));
    assert_eq!(rl.history().get(0), Some("remembered!"));
    assert_eq!(type_line(&mut rl, b"x\x1b[A\x1b[A\r"), line("remembered!"));
}

#[test]
fn alt_angle_brackets_jump_to_the_history_ends() {
    let mut rl = Rustline::new();
    for entry in ["oldest", "middle", "newest"] {
        rl.add_history_entry(entry);
    }
    assert_eq!(type_line(&mut rl, b"\x1b<\r"), line("oldest"));
    assert_eq!(type_line(&mut rl, b"\x1b[A\x1b[A\x1b>done\r"), line("done"));
}

#[test]
fn mark_and_goto_mark_chord() {
    let mut rl = Rustline::new();
    assert_eq!(type_line(&mut rl, b"hello\x01\x00\x05\x18\x18X\r"), line("Xhello"));
}

#[test]
fn alt_y_rotates_the_kill_ring() {
    let mut rl = Rustline::new();
    assert_eq!(type_line(&mut rl, b"one two\x17\x17\x19\x1by\r"), line("two"));
    assert_eq!(type_line(&mut rl, b"one two\x17abc\x1by\r"), line("one abc"));
}

#[test]
fn unbound_and_invalid_keys_are_ignored() {
    let mut rl = Rustline::new();
    assert_eq!(type_line(&mut rl, b"ab\x1b[15~\x1b[5~\x1b[6~\x1b[2~cd\r"), line("abcd"));
    assert_eq!(type_line(&mut rl, b"ab\xff\xfecd\r"), line("abcd"));
}

#[test]
fn ctrl_q_inserts_the_next_key_literally() {
    let mut rl = Rustline::new();
    assert_eq!(type_line(&mut rl, b"a\x11\x01b\r"), line("a\\x01b"));
}

#[test]
fn xlat_transforms_typed_characters() {
    let mut rl = Rustline::new();
    rl.set_xlat(Box::new(|c: char| c.to_ascii_uppercase()));
    assert_eq!(type_line(&mut rl, b"hello\r"), line("HELLO"));
}

#[test]
fn utf8_round_trips_through_the_editor() {
    let mut rl = Rustline::new();
    let text = "héllo 中文 😀";
    let mut input = text.as_bytes().to_vec();
    input.push(b'\r');
    assert_eq!(type_line(&mut rl, &input), line(text));
}

#[test]
fn completions_are_listed_then_cycled() {
    let mut rl = Rustline::new();
    rl.set_completer(Box::new(CommandCompleter::new(&["hello", "history"], NoCompleter)));
    rl.feed(b"h\t\t\r");
    let (outcome, listed) = session(&mut rl);
    assert_eq!(listed, vec![vec!["hello".to_string(), "history".to_string()]]);
    assert_eq!(outcome, line("hello"));

    rl.feed(b"hi\t\r");
    assert_eq!(session(&mut rl).0, line("history"));
}

#[test]
fn tab_inserts_a_tab_when_completion_is_off() {
    let mut rl = Rustline::with_config(Config { enable_completion: false, ..Config::default() });
    assert_eq!(type_line(&mut rl, b"a\tb\r"), line("a\tb"));
}

#[test]
fn control_keys_that_need_the_terminal_are_handed_back() {
    let mut rl = Rustline::new();
    let mut state = rl.new_session("> ", "", 0, 1, WinSize::default());
    assert!(matches!(rl.dispatch(&mut state, KeySeq::Ctrl('l')), Command::ClearScreen));
    assert!(matches!(rl.dispatch(&mut state, KeySeq::Ctrl('z')), Command::Suspend));
    assert!(matches!(rl.dispatch(&mut state, KeySeq::Ctrl('\\')), Command::Quit));
    assert!(matches!(rl.dispatch(&mut state, KeySeq::Ctrl('s')), Command::PauseOutput));
    assert!(state.paused);
    assert!(matches!(rl.dispatch(&mut state, KeySeq::Ctrl('q')), Command::ResumeOutput));
    assert!(!state.paused);
}

#[test]
fn a_new_session_starts_from_the_initial_text() {
    let rl = Rustline::with_config(Config { mask_mode: true, ..Config::default() });
    let state = rl.new_session("pw: ", "abc", 0, 1, WinSize::default());
    assert_eq!(state.buffer.as_str(), "abc");
    assert_eq!(state.buffer.cursor(), 3);
    assert!(state.mask);
    assert_eq!(state.prompt, "pw: ");
}

#[test]
fn frames_carry_hints_and_bracket_highlights() {
    let mut rl = Rustline::new();
    rl.set_hinter(Box::new(|line: &str, _pos: usize| {
        if line == "(ab)" {
            Some(rustline::Hint::new(" ok"))
        } else {
            None
        }
    }));
    let mut state = rl.new_session("> ", "(ab)", 0, 1, WinSize::default());
    let frame = rl.frame(&mut state, false).unwrap();
    assert_eq!(frame.line, "(ab)");
    assert_eq!(frame.cursor, 4);
    assert_eq!(frame.hint.as_deref(), Some("\x1b[90m ok\x1b[39m"));
    assert_eq!(frame.highlight, Some((0, 3)));
    assert!(!state.dirty);

    let frame = rl.frame(&mut state, true).unwrap();
    assert_eq!(frame.hint, None);
    assert_eq!(frame.highlight, None);
}

#[test]
fn masked_input_suppresses_search_and_completion() {
    let mut rl = Rustline::with_config(Config { mask_mode: true, ..Config::default() });
    rl.add_history_entry("secret one");
    assert_eq!(type_line(&mut rl, b"\x12sec\r"), line("sec"));
    assert_eq!(type_line(&mut rl, b"a\tb\r"), line("a\tb"));
}
