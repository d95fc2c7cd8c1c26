use rustline::display::Frame;
use rustline::render::Renderer;
use rustline::WinSize;

fn frame(prompt: &str, line: &str, cursor: usize) -> Frame {
    Frame {
        prompt: prompt.to_string(),
        line: line.to_string(),
        cursor,
        hint: None,
        mask: false,
        highlight: None,
        finished: false,
    }
}

#[test]
fn a_short_line_is_drawn_in_place_with_the_cursor_after_it() {
    let mut r = Renderer::new(WinSize { rows: 24, cols: 80 });
    let out = r.render(&frame("> ", "abc", 3));
    assert_eq!(out, "\r> abc\x1b[J\r\x1b[5C");
    // The next frame starts on the same row.
    let out = r.render(&frame("> ", "abcd", 1));
    assert_eq!(out, "\r> abcd\x1b[J\r\x1b[3C");
}

#[test]
fn a_wrapped_line_returns_to_its_first_row() {
    let mut r = Renderer::new(WinSize { rows: 24, cols: 4 });
    let out = r.render(&frame("> ", "abcd", 4));
    // "> ab" fills the first row exactly; "cd" goes on the second.
    assert_eq!(out, "\r> ab\r\ncd\x1b[J\r\x1b[2C");
    let out = r.render(&frame("> ", "abcd", 0));
    assert_eq!(out, "\x1b[1A\r> ab\r\ncd\x1b[J\x1b[1A\r\x1b[2C");
    assert_eq!(r.finish(), "\x1b[1B\r\n");
}

#[test]
fn a_wide_glyph_that_would_straddle_the_edge_starts_the_next_row() {
    let mut r = Renderer::new(WinSize { rows: 24, cols: 5 });
    let out = r.render(&frame("> ", "a中b", "a中b".len()));
    // "> a" leaves two columns; the glyph fits. Then "b" is at column 5.
    assert_eq!(out, "\r> a中\r\nb\x1b[J\r\x1b[1C");
    let mut r = Renderer::new(WinSize { rows: 24, cols: 4 });
    let out = r.render(&frame("> ", "a中", "a中".len()));
    // Only one column is left after "> a": the glyph wraps whole.
    assert_eq!(out, "\r> a\x1b[K\r\n中\x1b[J\r\x1b[2C");
}

#[test]
fn masked_lines_draw_asterisks_and_control_characters_draw_in_caret_form() {
    let mut r = Renderer::new(WinSize { rows: 24, cols: 80 });
    let mut f = frame("pw: ", "secret", 6);
    f.mask = true;
    assert_eq!(r.render(&f), "\rpw: ******\x1b[J\r\x1b[10C");
    let mut r = Renderer::new(WinSize { rows: 24, cols: 80 });
    assert_eq!(r.render(&frame("", "a\tb", 0)), "\ra^Ib\x1b[J\r");
}

#[test]
fn hints_are_drawn_only_when_they_fit_and_bold_marks_the_pair() {
    let mut r = Renderer::new(WinSize { rows: 24, cols: 10 });
    let mut f = frame("> ", "hel", 3);
    f.hint = Some("\x1b[90mp\x1b[39m".to_string());
    assert_eq!(r.render(&f), "\r> hel\x1b[90mp\x1b[39m\x1b[J\r\x1b[5C");
    let mut r = Renderer::new(WinSize { rows: 24, cols: 6 });
    f.hint = Some("pful".to_string());
    assert_eq!(r.render(&f), "\r> hel\x1b[J\r\x1b[5C");
    let mut r = Renderer::new(WinSize { rows: 24, cols: 80 });
    let mut f = frame("", "(a)", 0);
    f.highlight = Some((0, 2));
    assert_eq!(r.render(&f), "\r\x1b[1m(\x1b[22ma\x1b[1m)\x1b[22m\x1b[J\r");
}

#[test]
fn a_zero_width_window_wraps_every_character() {
    let mut r = Renderer::new(WinSize { rows: 0, cols: 0 });
    let out = r.render(&frame("", "ab", 2));
    assert_eq!(out, "\ra\r\nb\r\n\x1b[J\r");
    assert_eq!(r.finish(), "\r\n");
}
