use rustline::buffer::LineBuffer;

fn buf(text: &str, pos: usize) -> LineBuffer {
    let mut b = LineBuffer::new();
    b.set_content(text);
    b.set_cursor(pos);
    b
}

/// Renders the buffer with `|` marking the cursor, for readable assertions.
fn render(b: &LineBuffer) -> String {
    let mut s = b.as_str().to_string();
    s.insert(b.cursor(), '|');
    s
}

#[test]
fn insert_and_delete() {
    let mut b = LineBuffer::new();
    b.insert("hello");
    assert_eq!(render(&b), "hello|");
    b.rubout();
    assert_eq!(render(&b), "hell|");
    b.move_home();
    b.delete();
    assert_eq!(render(&b), "|ell");
}

#[test]
fn utf8_movement_lands_on_boundaries() {
    let mut b = buf("é中😀", 0);
    b.move_right();
    assert_eq!(b.cursor(), 2);
    b.move_right();
    assert_eq!(b.cursor(), 5);
    b.move_right();
    assert_eq!(b.cursor(), 9);
    b.move_right();
    assert_eq!(b.cursor(), 9);
    b.move_left();
    assert_eq!(b.cursor(), 5);
}

#[test]
fn word_movement() {
    let mut b = buf("foo bar  baz", 12);
    b.move_word_left();
    assert_eq!(render(&b), "foo bar  |baz");
    b.move_word_left();
    assert_eq!(render(&b), "foo |bar  baz");
    b.move_word_right();
    assert_eq!(render(&b), "foo bar|  baz");
}

#[test]
fn kill_operations_return_text() {
    let mut b = buf("foo bar", 7);
    assert_eq!(b.rubout_word(), "bar");
    assert_eq!(render(&b), "foo |");

    let mut b = buf("foo bar", 3);
    assert_eq!(b.kill_to_end(), " bar");
    assert_eq!(render(&b), "foo|");

    let mut b = buf("foo bar", 4);
    assert_eq!(b.kill_to_start(), "foo ");
    assert_eq!(render(&b), "|bar");

    let mut b = buf("foo bar", 3);
    assert_eq!(b.delete_word(), " bar");
    assert_eq!(render(&b), "foo|");
}

#[test]
fn transpose_chars() {
    let mut b = buf("abc", 1);
    b.transpose();
    assert_eq!(render(&b), "ba|c");

    let mut b = buf("abc", 3);
    b.transpose();
    assert_eq!(render(&b), "acb|");

    let mut b = buf("aé", 3);
    b.transpose();
    assert_eq!(b.as_str(), "éa");
}

#[test]
fn transpose_word_pair() {
    let mut b = buf("foo bar", 7);
    b.transpose_words();
    assert_eq!(render(&b), "bar foo|");
}

#[test]
fn case_operations() {
    let mut b = buf("hello world", 0);
    b.uppercase_word();
    assert_eq!(render(&b), "HELLO| world");

    let mut b = buf("HELLO world", 0);
    b.lowercase_word();
    assert_eq!(render(&b), "hello| world");

    let mut b = buf("hello world", 0);
    b.capitalize_word();
    assert_eq!(render(&b), "Hello| world");

    let mut b = buf("  hi", 0);
    b.uppercase_word();
    assert_eq!(render(&b), "  HI|");
}

#[test]
fn squeeze_whitespace() {
    let mut b = buf("foo     bar", 5);
    b.squeeze();
    assert_eq!(render(&b), "foo|bar");
}

#[test]
fn mark_and_goto() {
    let mut b = buf("hello", 2);
    b.set_mark();
    b.move_end();
    assert_eq!(b.cursor(), 5);
    b.goto_mark();
    assert_eq!(b.cursor(), 2);
}

#[test]
fn bracket_matching() {
    let b = buf("(a b)", 5);
    assert_eq!(b.mirror_left_match(), Some((0, 4)));

    let b = buf("(a b)", 0);
    assert_eq!(b.mirror_right_match(), Some((0, 4)));

    let b = buf("((a))", 5);
    assert_eq!(b.mirror_left_match(), Some((0, 4)));

    let b = buf("no brackets", 5);
    assert_eq!(b.mirror_match(), None);
}

#[test]
fn expression_movement() {
    let mut b = buf("(a b) c", 7);
    b.move_expr_left();
    assert_eq!(render(&b), "(a b) |c");
    b.move_expr_left();
    assert_eq!(render(&b), "|(a b) c");

    let mut b = buf("(a b) c", 0);
    b.move_expr_right();
    assert_eq!(render(&b), "(a b)| c");
}

#[test]
fn barf_moves_item_out() {
    let mut b = buf("(a b c)", 2);
    b.barf();
    assert_eq!(b.as_str(), "(a b) c");
}

#[test]
fn slurp_moves_item_in() {
    let mut b = buf("(a b) c d", 2);
    b.slurp();
    assert_eq!(b.as_str(), "(a b c) d");
}

#[test]
fn barf_and_slurp_are_inverses() {
    let mut b = buf("(a b c) d", 2);
    b.barf();
    assert_eq!(b.as_str(), "(a b) c d");
    b.slurp();
    assert_eq!(b.as_str(), "(a b c) d");
}

#[test]
fn barf_and_slurp_on_unbalanced_text_do_nothing() {
    for text in ["", "no parens", "(unclosed", "closed)"] {
        let mut b = buf(text, 0);
        b.barf();
        b.slurp();
        assert!(b.as_str().is_char_boundary(b.cursor()));
    }
}

#[test]
fn replace_range_keeps_cursor_valid() {
    let mut b = buf("hello world", 11);
    b.replace_range(0, 5, "goodbye");
    assert_eq!(render(&b), "goodbye world|");

    let mut b = buf("é", 0);
    b.replace_range(0, 1, "x");
    assert_eq!(b.as_str(), "é");
    b.replace_range(5, 9, "x");
    assert_eq!(b.as_str(), "é");
}

#[test]
fn set_cursor_snaps_to_boundary() {
    let mut b = buf("é中", 0);
    b.set_cursor(1);
    assert_eq!(b.cursor(), 0);
    b.set_cursor(3);
    assert_eq!(b.cursor(), 2);
    b.set_cursor(999);
    assert_eq!(b.cursor(), 5);
}

#[test]
fn operations_on_empty_buffer_are_safe() {
    let mut b = LineBuffer::new();
    b.delete();
    b.rubout();
    b.move_left();
    b.move_right();
    b.move_word_left();
    b.move_word_right();
    b.move_expr_left();
    b.move_expr_right();
    b.transpose();
    b.transpose_words();
    b.uppercase_word();
    b.squeeze();
    b.barf();
    b.slurp();
    assert_eq!(b.as_str(), "");
    assert_eq!(b.cursor(), 0);
}

#[test]
fn inserting_then_rubbing_out_restores_the_buffer() {
    let mut b = buf("héllo wörld", 4);
    let before = b.as_str().to_string();
    let cursor = b.cursor();
    b.insert("中x😀");
    for _ in "中x😀".chars() {
        b.rubout();
    }
    assert_eq!(b.as_str(), before);
    assert_eq!(b.cursor(), cursor);
}

#[test]
fn kills_return_exactly_what_they_remove() {
    let mut b = buf("abc def", 3);
    let before = b.as_str().to_string();
    let cursor = b.cursor();
    let killed = b.kill_to_end();
    assert_eq!(killed, &before[cursor..]);
    assert_eq!(b.as_str(), &before[..cursor]);

    let mut b = buf("abc def", 5);
    let killed = b.kill_to_start();
    assert_eq!(format!("{}{}", killed, b.as_str()), "abc def");
}

#[test]
fn movement_leaves_the_text_alone() {
    let mut b = buf("(x y) é中 word", 3);
    b.move_word_right();
    b.move_expr_left();
    b.move_expr_right();
    b.move_word_left();
    b.move_end();
    b.move_home();
    assert_eq!(b.as_str(), "(x y) é中 word");
}

#[test]
fn char_count_counts_characters_not_bytes() {
    let b = buf("é中😀", 0);
    assert_eq!(b.char_count(), 3);
}

#[test]
fn killing_past_the_mark_pulls_the_mark_back_to_the_end() {
    let mut b = buf("hello world", 11);
    b.set_mark();
    b.set_cursor(5);
    assert_eq!(b.kill_to_end(), " world");
    assert_eq!(b.as_str(), "hello");
    b.insert(" there");
    assert_eq!(render(&b), "hello there|");
    b.goto_mark();
    assert_eq!(render(&b), "hello| there");
}

#[test]
fn rubbing_out_past_the_mark_keeps_it_inside() {
    let mut b = buf("abc", 3);
    b.set_mark();
    b.rubout();
    b.rubout();
    b.insert("xyz");
    b.goto_mark();
    assert_eq!(render(&b), "a|xyz");
}

#[test]
fn inserting_several_characters_then_rubbing_them_out_restores_the_buffer() {
    let mut b = buf("h\u{e9}llo w\u{f6}rld", 7);
    let before = (b.as_str().to_string(), b.cursor());
    let inserted = "\u{3b1}\u{3b2} x\u{1f600}";
    b.insert(inserted);
    assert_eq!(b.as_str(), "h\u{e9}llo \u{3b1}\u{3b2} x\u{1f600}w\u{f6}rld");
    for _ in 0..inserted.chars().count() {
        b.rubout();
    }
    assert_eq!((b.as_str().to_string(), b.cursor()), before);
}
