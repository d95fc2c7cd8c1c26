use rustline::{Hint, HintProvider, NoHinter};

#[test]
fn default_styling_wraps_the_text() {
    let hint = Hint::new(" (try --help)");
    assert_eq!(hint.render(), "\x1b[90m (try --help)\x1b[39m");
}

#[test]
fn custom_styling_is_used() {
    let hint = Hint::new("x").styled("\x1b[31m", "\x1b[0m");
    assert_eq!(hint.render(), "\x1b[31mx\x1b[0m");
}

#[test]
fn closures_implement_the_trait() {
    let provider = |line: &str, _pos: usize| {
        if line == "git" {
            Some(Hint::new(" status"))
        } else {
            None
        }
    };
    assert!(provider.hint("git", 3).is_some());
    assert!(provider.hint("cargo", 5).is_none());
    assert!(NoHinter.hint("anything", 0).is_none());
}
