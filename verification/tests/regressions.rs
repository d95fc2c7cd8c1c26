//! End-to-end checks of the editor driven by raw terminal bytes: each test
//! feeds what a user would type and reads back the submitted lines, acting on
//! every command the way an interactive caller does, minus the drawing.

use rustline::edit::{Command, Search, SearchStep};
use rustline::render::Renderer;
use rustline::state::EditorState;
use rustline::{
    char_width, format_columns, CommandCompleter, Config, Hint, HintProvider, NoCompleter, Rustline,
    WinSize,
};

const COMMANDS: &[&str] = &["help", "history", "hello", "exit"];

struct Hinter;

impl HintProvider for Hinter {
    fn hint(&self, line: &str, _pos: usize) -> Option<Hint> {
        COMMANDS
            .iter()
            .find(|c| c.starts_with(line) && **c != line && !line.is_empty())
            .map(|c| Hint::new(&c[line.len()..]))
    }
}

/// A terminal session: keys go in, submitted lines, markers and the bytes
/// drawn come out. Each batch of keys is acted on, then the line is drawn
/// once, as the interactive loop does.
struct Term {
    rl: Rustline,
    prompt: String,
    win: WinSize,
    state: Option<EditorState>,
    renderer: Renderer,
    search: Option<Search>,
    lines: Vec<String>,
    markers: Vec<&'static str>,
    output: String,
}

impl Term {
    fn spawn(args: &[&str], rows: u16, cols: u16) -> Term {
        let has = |flag: &str| args.iter().any(|a| *a == flag);
        let config = Config {
            balance_pairs: has("--balance"),
            enable_multiline: !has("--no-multiline"),
            enable_hints: has("--hints"),
            mask_mode: has("--mask"),
            highlight_brackets: !has("--no-highlight"),
            ..Default::default()
        };
        let mut rl = Rustline::with_config(config);
        if has("--commands") {
            rl.set_completer(Box::new(CommandCompleter::new(COMMANDS, NoCompleter)));
        }
        if has("--hints") {
            rl.set_hinter(Box::new(Hinter));
        }
        if has("--upcase") {
            rl.set_xlat(Box::new(|c: char| c.to_ascii_uppercase()));
        }
        let prompt = args
            .iter()
            .find_map(|a| a.strip_prefix("--prompt="))
            .unwrap_or("> ")
            .to_string();
        let win = WinSize { rows, cols };
        let mut term = Term {
            rl,
            prompt,
            win,
            state: None,
            renderer: Renderer::new(win),
            search: None,
            lines: Vec::new(),
            markers: Vec::new(),
            output: String::new(),
        };
        term.open();
        term.draw(false);
        term
    }

    /// Starts the next session, as a new call to read a line does.
    fn open(&mut self) {
        let state = self.rl.new_session(&self.prompt, "", 0, 1, self.win);
        self.state = Some(state);
        self.renderer = Renderer::new(self.win);
    }

    /// Draws the line if anything changed.
    fn draw(&mut self, finished: bool) {
        let Term { rl, state, renderer, output, .. } = self;
        let state = state.as_mut().unwrap();
        if let Some(frame) = rl.frame(state, finished) {
            output.push_str(&renderer.render(&frame));
        }
    }

    /// Ends the session: the line is drawn as submitted and the cursor moves
    /// below it.
    fn close(&mut self, finished: bool) {
        if finished {
            self.draw(true);
        }
        let text = self.renderer.finish();
        self.output.push_str(&text);
        self.state = None;
        self.open();
    }

    fn type_keys(&mut self, bytes: &[u8]) {
        self.rl.feed(bytes);
        self.run();
        if self.state.as_ref().map_or(false, |s| s.dirty) {
            self.draw(false);
        }
    }

    fn send(&mut self, bytes: &[u8]) {
        self.type_keys(bytes);
    }

    fn lines(&self) -> Vec<String> {
        self.lines.clone()
    }

    fn output(&self) -> String {
        self.output.clone()
    }

    fn clear(&mut self) {
        self.output.clear();
    }

    fn screen(&self, rows: usize, cols: usize) -> Screen {
        let mut screen = Screen::new(rows, cols);
        screen.feed(self.output.as_bytes());
        screen
    }

    fn run(&mut self) {
        while let Some(key) = self.rl.next_pending() {
            let state = self.state.as_mut().unwrap();
            if let Some(s) = self.search.as_mut() {
                match self.rl.search_key(state, s, key) {
                    SearchStep::Continue => {}
                    SearchStep::Done(terminator) => {
                        let s = self.search.take().unwrap();
                        self.rl.search_end(state, s, terminator);
                    }
                }
                continue;
            }
            match self.rl.dispatch(state, key) {
                Command::Accept(text) => {
                    self.close(true);
                    self.rl.add_history_entry(&text);
                    self.lines.push(text);
                }
                Command::Eof => {
                    self.close(false);
                    self.markers.push("@@EOF@@");
                }
                Command::Interrupted => {
                    self.close(false);
                    self.markers.push("@@INT@@");
                }
                Command::ContinueLine => {
                    self.draw(true);
                    let text = self.renderer.finish();
                    self.output.push_str(&text);
                    self.state.as_mut().unwrap().begin_continuation();
                }
                Command::Search => {
                    let state = self.state.as_mut().unwrap();
                    self.search = self.rl.search_begin(state);
                }
                Command::ClearScreen => {
                    self.output.push_str("\x1b[H\x1b[2J");
                    self.renderer.reset();
                }
                Command::ListCompletions(candidates) => {
                    let mut text = self.renderer.finish();
                    for row in format_columns(&candidates, self.win.cols as usize) {
                        text.push_str(&row);
                        text.push_str("\r\n");
                    }
                    self.output.push_str(&text);
                    self.draw(false);
                }
                _ => {}
            }
        }
    }
}

/// A minimal VT100 screen, enough to check what the user would see.
///
/// Implements deferred wrap, as real terminals do: a character written into
/// the last column leaves the cursor there with a pending wrap, and a
/// following `\r` cancels it instead of skipping a row.
struct Screen {
    cells: Vec<Vec<char>>,
    row: usize,
    col: usize,
    cols: usize,
    pending_wrap: bool,
}

impl Screen {
    fn new(rows: usize, cols: usize) -> Self {
        Screen {
            cells: vec![vec![' '; cols]; rows.max(1)],
            row: 0,
            col: 0,
            cols,
            pending_wrap: false,
        }
    }

    fn ensure_row(&mut self) {
        while self.row >= self.cells.len() {
            self.cells.push(vec![' '; self.cols]);
        }
    }

    fn wrap_now(&mut self) {
        self.row += 1;
        self.col = 0;
        self.pending_wrap = false;
        self.ensure_row();
    }

    fn put(&mut self, c: char) {
        let w = char_width(c);
        if w == 0 {
            return;
        }
        if self.pending_wrap || self.col + w > self.cols {
            self.wrap_now();
        }
        self.ensure_row();
        self.cells[self.row][self.col] = c;
        for k in 1..w {
            self.cells[self.row][self.col + k] = '\0';
        }
        self.col += w;
        if self.col >= self.cols {
            self.col = self.cols;
            self.pending_wrap = true;
        }
    }

    fn erase_to_end_of_line(&mut self) {
        let col = self.col.min(self.cols);
        for c in self.cells[self.row][col..].iter_mut() {
            *c = ' ';
        }
    }

    fn csi(&mut self, param: &str, final_byte: char) {
        let n: usize = param.parse().unwrap_or(1).max(1);
        self.pending_wrap = false;
        self.ensure_row();
        match final_byte {
            'A' => self.row = self.row.saturating_sub(n),
            'B' => {
                self.row += n;
                self.ensure_row();
            }
            'C' => self.col = (self.col + n).min(self.cols),
            'D' => self.col = self.col.saturating_sub(n),
            'H' => {
                self.row = 0;
                self.col = 0;
            }
            'K' => self.erase_to_end_of_line(),
            'J' => {
                if param == "2" {
                    for row in self.cells.iter_mut() {
                        row.fill(' ');
                    }
                } else {
                    self.erase_to_end_of_line();
                    for row in self.cells[self.row + 1..].iter_mut() {
                        row.fill(' ');
                    }
                }
            }
            _ => {}
        }
    }

    fn feed(&mut self, bytes: &[u8]) {
        let chars: Vec<char> = String::from_utf8_lossy(bytes).chars().collect();
        let mut i = 0;
        while i < chars.len() {
            let c = chars[i];
            i += 1;
            match c {
                '\r' => {
                    self.col = 0;
                    self.pending_wrap = false;
                }
                '\n' => {
                    self.row += 1;
                    self.pending_wrap = false;
                    self.ensure_row();
                }
                '\x1b' if chars.get(i) == Some(&'[') => {
                    i += 1;
                    let start = i;
                    i += chars[i..]
                        .iter()
                        .take_while(|c| c.is_ascii_digit() || **c == ';' || **c == '?')
                        .count();
                    let param: String = chars[start..i].iter().collect();
                    let final_byte = chars.get(i).copied().unwrap_or(' ');
                    i += 1;
                    self.csi(&param, final_byte);
                }
                '\x1b' => {}
                c => self.put(c),
            }
        }
    }

    /// The visible text of one row, trailing blanks removed.
    fn line(&self, row: usize) -> String {
        self.cells
            .get(row)
            .map(|r| {
                r.iter()
                    .filter(|c| **c != '\0')
                    .collect::<String>()
                    .trim_end()
                    .to_string()
            })
            .unwrap_or_default()
    }

    /// Where the next character would be drawn.
    fn cursor(&self) -> (usize, usize) {
        if self.pending_wrap {
            (self.row + 1, 0)
        } else {
            (self.row, self.col)
        }
    }
}

#[test]
fn control_chords_are_bound() {
    let mut pty = Term::spawn(&[], 24, 80);
    pty.type_keys(b"abc\x01X\r");
    assert_eq!(pty.lines(), ["Xabc"]);
}

#[test]
fn the_full_control_key_map_works() {
    let cases: &[(&[u8], &str, &str)] = &[
        (b"abc\x01X\r", "Xabc", "CTRL-A start of line"),
        (b"abc\x01\x05X\r", "abcX", "CTRL-E end of line"),
        (b"abc\x02X\r", "abXc", "CTRL-B back one"),
        (b"abc\x01\x06X\r", "aXbc", "CTRL-F forward one"),
        (b"abc\x08\r", "ab", "CTRL-H backspace"),
        (b"abc\x01\x04\r", "bc", "CTRL-D delete"),
        (b"abcdef\x02\x02\x02\x0b\r", "abc", "CTRL-K kill to end"),
        (b"abcdef\x02\x02\x02\x15\r", "def", "CTRL-U kill to start"),
        (b"one two\x17\r", "one ", "CTRL-W kill word back"),
        (b"one two\x17\x19\x19\r", "one twotwo", "CTRL-Y yank twice"),
        (b"ab\x14\r", "ba", "CTRL-T transpose"),
    ];
    for (keys, expected, what) in cases {
        let mut pty = Term::spawn(&[], 24, 80);
        pty.type_keys(keys);
        assert_eq!(pty.lines(), [*expected], "{what}");
    }
}

#[test]
fn home_and_end_keys_are_bound() {
    let mut pty = Term::spawn(&[], 24, 80);
    pty.type_keys(b"abc\x1b[HQ\x1b[FW\r");
    assert_eq!(pty.lines(), ["Qabc W"].map(|s| s.replace(' ', "")));
}

#[test]
fn keys_batched_with_a_submission_are_not_lost() {
    let mut pty = Term::spawn(&[], 24, 80);
    pty.type_keys(b"first\rsecond\rthird\r");
    assert_eq!(pty.lines(), ["first", "second", "third"]);
}

#[test]
fn a_batch_may_contain_editing_keys() {
    let mut pty = Term::spawn(&[], 24, 80);
    pty.type_keys(b"abc\x01X\rdef\x17ghi\r");
    assert_eq!(pty.lines(), ["Xabc", "ghi"]);
}

#[test]
fn bracketed_paste_preserves_newlines() {
    let mut pty = Term::spawn(&[], 24, 80);
    pty.type_keys(b"\x1b[200~alpha\rbeta\x1b[201~\r");
    assert_eq!(pty.lines(), ["alpha\nbeta"]);
}

#[test]
fn bracketed_paste_does_not_execute_control_characters() {
    let mut pty = Term::spawn(&[], 24, 80);
    pty.type_keys(b"\x1b[200~keep\x15me\x1b[201~\r");
    assert_eq!(pty.lines(), ["keepme"]);
}

#[test]
fn ctrl_c_interrupts_without_exiting() {
    let mut pty = Term::spawn(&[], 24, 80);
    pty.type_keys(b"discard me\x03");
    assert!(pty.markers.contains(&"@@INT@@"));
    pty.type_keys(b"kept\r");
    assert_eq!(pty.lines(), ["kept"]);
}

#[test]
fn balance_mode_clamps_at_zero() {
    let mut pty = Term::spawn(&["--balance"], 24, 80);
    pty.type_keys(b")(\r");
    assert!(pty.lines().is_empty(), "should still be waiting, got {:?}", pty.lines());
    pty.type_keys(b")\r");
    assert_eq!(pty.lines(), [")(\n)"]);
}

#[test]
fn linefeed_always_continues() {
    let mut pty = Term::spawn(&[], 24, 80);
    pty.type_keys(b"one\x0atwo\r");
    assert_eq!(pty.lines(), ["one\ntwo"]);
}

#[test]
fn reverse_search_recalls_an_entry() {
    let mut pty = Term::spawn(&[], 24, 80);
    pty.type_keys(b"alpha one\r");
    pty.type_keys(b"beta two\r");
    pty.type_keys(b"gamma three\r");
    pty.type_keys(b"\x12");
    pty.type_keys(b"alpha");
    pty.type_keys(b"\r");
    assert_eq!(pty.lines()[3], "alpha one");
}

#[test]
fn reverse_search_can_be_cancelled() {
    let mut pty = Term::spawn(&[], 24, 80);
    pty.type_keys(b"stored\r");
    pty.type_keys(b"draft");
    pty.type_keys(b"\x12stor\x07");
    pty.type_keys(b"\r");
    assert_eq!(pty.lines()[1], "draft");
}

#[test]
fn mask_mode_hides_the_input() {
    let mut pty = Term::spawn(&["--mask", "--prompt=pw: "], 24, 40);
    pty.clear();
    pty.type_keys(b"secret");

    let screen = pty.screen(24, 40);
    assert_eq!(screen.line(0), "pw: ******");
    assert!(!pty.output().contains("secret"));

    pty.type_keys(b"\r");
    assert_eq!(pty.lines(), ["secret"]);
}

#[test]
fn hints_are_advisory_only() {
    let mut pty = Term::spawn(&["--hints", "--prompt=> "], 24, 40);
    pty.clear();
    pty.type_keys(b"hel");

    let screen = pty.screen(24, 40);
    assert_eq!(screen.line(0), "> help");

    pty.type_keys(b"\r");
    assert_eq!(pty.lines(), ["hel"]);
}

#[test]
fn utf8_round_trips() {
    let mut pty = Term::spawn(&[], 24, 80);
    pty.type_keys("héllo 中文 😀".as_bytes());
    pty.type_keys(b"\r");
    assert_eq!(pty.lines(), ["héllo 中文 😀"]);
}

#[test]
fn utf8_split_across_reads_is_reassembled() {
    let mut pty = Term::spawn(&[], 24, 80);
    for byte in "中".as_bytes() {
        pty.send(&[*byte]);
    }
    pty.type_keys(b"\r");
    assert_eq!(pty.lines(), ["中"]);
}

#[test]
fn escape_sequences_split_across_reads_are_reassembled() {
    let mut pty = Term::spawn(&[], 24, 80);
    pty.type_keys(b"abc");
    for byte in b"\x1b[H" {
        pty.send(&[*byte]);
    }
    pty.type_keys(b"X\r");
    assert_eq!(pty.lines(), ["Xabc"]);
}

#[test]
fn word_and_expression_editing() {
    let cases: &[(&[u8], &str, &str)] = &[
        (b"one two\x1bb\x1bu\r", "one TWO", "ALT-U uppercase word"),
        (b"ONE TWO\x1bb\x1bl\r", "ONE two", "ALT-L lowercase word"),
        (b"one two\x1bb\x1bc\r", "one Two", "ALT-C capitalize word"),
        (b"one two\x01\x1bd\r", " two", "ALT-D kill word forward"),
        (b"one    two\x01\x06\x06\x06\x1b\\\r", "onetwo", "ALT-\\ squeeze"),
        (b"one two\x1bt\r", "two one", "ALT-T transpose words"),
        (b"(a b c)\x02\x02\x02\x02\x1bB\r", "(a b) c", "ALT-SHIFT-B barf"),
    ];
    for (keys, expected, what) in cases {
        let mut pty = Term::spawn(&[], 24, 80);
        pty.type_keys(keys);
        assert_eq!(pty.lines(), [*expected], "{what}");
    }
}

#[test]
fn mark_and_goto_mark() {
    let mut pty = Term::spawn(&[], 24, 80);
    pty.type_keys(b"hello\x01\x00\x05\x18\x18X\r");
    assert_eq!(pty.lines(), ["Xhello"]);
}

#[test]
fn alt_y_without_a_yank_is_inert() {
    let mut pty = Term::spawn(&[], 24, 80);
    pty.type_keys(b"one two\x17abc\x1by\r");
    assert_eq!(pty.lines(), ["one abc"]);
}

#[test]
fn ctrl_l_clears_and_redraws() {
    let mut pty = Term::spawn(&["--prompt=> "], 24, 40);
    pty.type_keys(b"kept");
    pty.clear();
    pty.type_keys(b"\x0c");

    assert!(pty.output().contains("\x1b[2J"), "no erase-display emitted");
    let screen = pty.screen(24, 40);
    assert_eq!(screen.line(0), "> kept");

    pty.type_keys(b"\r");
    assert_eq!(pty.lines(), ["kept"]);
}

#[test]
fn completions_are_listed_below_the_prompt() {
    let mut pty = Term::spawn(&["--commands", "--prompt=> "], 24, 60);
    pty.clear();
    pty.type_keys(b"h\t");

    let output = pty.output();
    assert!(output.contains("hello"), "candidates not listed: {output}");
    assert!(output.contains("history"), "candidates not listed: {output}");

    pty.type_keys(b"\r");
    assert_eq!(pty.lines(), ["h"]);

    pty.type_keys(b"h\t\t\r");
    assert_eq!(pty.lines()[1], "hello");
}

#[test]
fn suspend_leaves_the_editor_usable() {
    let mut pty = Term::spawn(&[], 24, 80);
    pty.type_keys(b"kept\x1a");
    pty.type_keys(b"!\r");
    assert_eq!(pty.lines(), ["kept!"]);
}

#[test]
fn unbound_keys_are_ignored() {
    let mut pty = Term::spawn(&[], 24, 80);
    pty.type_keys(b"ab\x1b[15~\x1b[5~\x1b[6~\x1b[2~cd\r");
    assert_eq!(pty.lines(), ["abcd"]);
}

#[test]
fn invalid_utf8_input_is_discarded() {
    let mut pty = Term::spawn(&[], 24, 80);
    pty.type_keys(b"ab\xff\xfecd\r");
    assert_eq!(pty.lines(), ["abcd"]);
}

#[test]
fn redrawing_a_wrapped_line_keeps_the_prompt_in_place() {
    let cols = 40;
    let mut pty = Term::spawn(&["--prompt=> "], 24, cols);
    pty.clear();

    let long = "a".repeat(90);
    pty.type_keys(long.as_bytes());
    pty.type_keys(&b"\x1b[D".repeat(60));
    pty.type_keys(b"Z");

    let screen = pty.screen(24, cols as usize);
    assert!(
        screen.line(0).starts_with("> a"),
        "the prompt moved; row 0 is {:?}",
        screen.line(0),
    );

    pty.type_keys(b"\r");
    let submitted = &pty.lines()[0];
    assert_eq!(submitted.len(), 91);
    assert!(submitted.contains('Z'));
}

#[test]
fn wide_characters_wrap_whole() {
    let cols = 12;
    let mut pty = Term::spawn(&["--prompt=> "], 24, cols);
    pty.clear();
    pty.type_keys("中中中中中中".as_bytes());

    let screen = pty.screen(24, cols as usize);
    assert_eq!(screen.line(0), "> 中中中中中");

    pty.type_keys(b"\r");
    assert_eq!(pty.lines(), ["中中中中中中"]);
}

#[test]
fn an_ansi_prompt_does_not_displace_the_cursor() {
    let mut pty = Term::spawn(&["--prompt=\x1b[32m$ \x1b[0m"], 24, 40);
    pty.clear();
    pty.type_keys(b"hi");

    let screen = pty.screen(24, 40);
    assert_eq!(screen.line(0), "$ hi");
    assert_eq!(screen.cursor(), (0, 4));
}

#[test]
fn a_zero_size_terminal_does_not_panic() {
    let mut pty = Term::spawn(&[], 0, 0);
    pty.type_keys(b"abc\r");
    assert_eq!(pty.lines(), ["abc"]);
}

#[test]
fn a_one_column_terminal_does_not_panic() {
    let mut pty = Term::spawn(&[], 1, 1);
    pty.type_keys(b"abc\r");
    assert_eq!(pty.lines(), ["abc"]);
}

#[test]
fn a_batch_of_keys_costs_one_redraw() {
    let mut pty = Term::spawn(&["--prompt=> ", "--no-highlight"], 24, 80);
    pty.clear();
    pty.type_keys(b"abcdef");

    let frames = pty.output().matches('\r').count();
    assert!(
        frames <= 2,
        "expected one frame for the batch, saw {frames}: {:?}",
        pty.output(),
    );

    pty.type_keys(b"\r");
    assert_eq!(pty.lines(), ["abcdef"]);
}
