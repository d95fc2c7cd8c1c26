//! Inline hints shown after the cursor.
//!
//! A hint is advisory text drawn to the right of the line in a dim colour. It
//! is never part of the buffer and never returned from `readline`.

use crate::text::concat;
use vstd::prelude::*;

verus! {

/// Text to display after the cursor, with the escape sequences that colour it.
#[derive(Debug, Clone)]
pub struct Hint {
    /// The hint text. Must not contain newlines.
    pub text: String,
    /// Escape sequence emitted before the text.
    pub before: String,
    /// Escape sequence emitted after the text.
    pub after: String,
}

/// `ESC [ 9 0 m`: bright black foreground, the default hint colour.
pub open spec fn dim_grey() -> Seq<char> {
    seq!['\x1b', '[', '9', '0', 'm']
}

/// `ESC [ 3 9 m`: default foreground.
pub open spec fn default_fg() -> Seq<char> {
    seq!['\x1b', '[', '3', '9', 'm']
}

impl Hint {
    /// Creates a hint using the default dim-grey styling.
    pub fn new(text: &str) -> (h: Self)
        ensures
            h.text@ == text@,
            h.before@ == dim_grey(),
            h.after@ == default_fg(),
    {
        let before = "\x1b[90m";
        let after = "\x1b[39m";
        proof {
            reveal_strlit("\x1b[90m");
            reveal_strlit("\x1b[39m");
            assert(before@ =~= dim_grey());
            assert(after@ =~= default_fg());
        }
        Hint { text: text.to_owned(), before: before.to_owned(), after: after.to_owned() }
    }

    /// Overrides the escape sequences bracketing the hint.
    pub fn styled(self, before: &str, after: &str) -> (h: Self)
        ensures
            h.text == self.text,
            h.before@ == before@,
            h.after@ == after@,
    {
        Hint { text: self.text, before: before.to_owned(), after: after.to_owned() }
    }

    /// Renders the hint with its styling applied.
    pub fn render(&self) -> (r: String)
        ensures
            r@ == self.before@ + self.text@ + self.after@,
    {
        let a = concat(self.before.as_str(), self.text.as_str());
        concat(a.as_str(), self.after.as_str())
    }
}

/// Supplies a hint for the line being edited.
pub trait HintProvider {
    /// Returns a hint to draw after the cursor, or `None` for no hint.
    fn hint(&self, line: &str, pos: usize) -> Option<Hint>;
}

/// A provider that never hints.
#[derive(Debug, Clone, Copy)]
pub struct NoHinter;

impl Default for NoHinter {
    fn default() -> (r: Self)
        ensures
            r == NoHinter,
    {
        NoHinter
    }
}

impl HintProvider for NoHinter {
    fn hint(&self, line: &str, pos: usize) -> (r: Option<Hint>)
        ensures
            r is None,
    {
        None
    }
}

/// Calls a hint closure. What it answers is up to the closure's author,
/// and the closure may be called outside any precondition it was written
/// with, so nothing is stated of the answer.
#[verifier::external_body]
fn call_hint_fn<F>(f: &F, line: &str, pos: usize) -> Option<Hint> where F: Fn(&str, usize) -> Option<Hint> {
    f(line, pos)
}

impl<F> HintProvider for F where F: Fn(&str, usize) -> Option<Hint> {
    /// Whatever the closure answers is the hint.
    fn hint(&self, line: &str, pos: usize) -> Option<Hint> {
        call_hint_fn(self, line, pos)
    }
}

} // verus!
