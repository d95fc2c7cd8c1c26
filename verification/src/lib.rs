//! A line editor for interactive terminal programs: the editing model.
//!
//! Emacs-style editing, reverse history search, completion, hints and UTF-8
//! editing over ANSI X3.64 escape sequences, with no terminfo dependency.
//!
//! The crate holds the parts of the editor that decide what happens: the line
//! buffer and its editing operations, the keyboard parser, history and its
//! file format, the kill ring, completion and hints, terminal geometry, the
//! per-key editing state machine ([`Rustline::dispatch`]) and the renderer
//! that turns what is to be shown into the text that draws it
//! ([`render::Renderer`]). Reading the terminal, writing to it and touching
//! files is left to the caller, which performs the [`edit::Command`] each key
//! answers with.

pub mod unicode;
mod text;
pub mod buffer;
pub mod parser;
pub mod history;
pub mod terminal;
pub mod state;
pub mod completion;
pub mod hints;
pub mod display;
pub mod render;
pub mod editor;
pub mod edit;
pub mod repl;

pub use completion::{
    format_columns, word_start, CommandCompleter, CompletionProvider, Completions, FileCompleter,
    NoCompleter,
};
pub use editor::{history_path, Config, Rustline, Transliterate};
pub use hints::{Hint, HintProvider, NoHinter};
pub use history::History;
pub use terminal::WinSize;
pub use unicode::{char_width, display_width, is_separator};
