use rustline::state::{EditorState, KillRing, RING_SIZE};
use rustline::terminal::WinSize;

#[test]
fn ring_yanks_the_most_recent_kill() {
    let mut ring = KillRing::new();
    assert_eq!(ring.yank(), None);

    ring.push("one".into());
    assert_eq!(ring.yank(), Some("one"));
    ring.push("two".into());
    assert_eq!(ring.yank(), Some("two"));
}

#[test]
fn ring_ignores_empty_kills() {
    let mut ring = KillRing::new();
    ring.push(String::new());
    assert_eq!(ring.yank(), None);
}

#[test]
fn rotate_walks_backwards_through_kills() {
    let mut ring = KillRing::new();
    for text in ["a", "b", "c"] {
        ring.push(text.into());
    }
    assert_eq!(ring.yank(), Some("c"));
    ring.rotate();
    assert_eq!(ring.yank(), Some("b"));
    ring.rotate();
    assert_eq!(ring.yank(), Some("a"));
    ring.rotate();
    assert_eq!(ring.yank(), Some("c"));
}

#[test]
fn rotate_on_an_empty_ring_is_harmless() {
    let mut ring = KillRing::new();
    ring.rotate();
    assert_eq!(ring.yank(), None);
}

#[test]
fn ring_evicts_after_eight_kills() {
    let mut ring = KillRing::new();
    for i in 0..10 {
        ring.push(format!("kill{i}"));
    }
    assert_eq!(ring.yank(), Some("kill9"));
    for _ in 0..RING_SIZE {
        ring.rotate();
    }
    assert_eq!(ring.yank(), Some("kill9"));
}

#[test]
fn the_oldest_kills_are_evicted() {
    let mut ring = KillRing::new();
    for i in 0..10 {
        ring.push(format!("kill{i}"));
    }
    let mut seen = Vec::new();
    for _ in 0..RING_SIZE {
        seen.push(ring.yank().unwrap().to_string());
        ring.rotate();
    }
    assert!(!seen.contains(&"kill0".to_string()));
    assert!(!seen.contains(&"kill1".to_string()));
    assert!(seen.contains(&"kill2".to_string()));
}

#[test]
fn continuation_accumulates_lines() {
    let mut state = EditorState::new("> ", "... ", 0, 1, WinSize::default());
    state.buffer.insert("first");
    state.begin_continuation();
    assert_eq!(state.prompt, "... ");
    assert_eq!(state.buffer.as_str(), "");

    state.buffer.insert("second");
    assert_eq!(state.full_text(), "first\nsecond");
    assert!(state.dirty, "a new continuation line needs drawing");
}
