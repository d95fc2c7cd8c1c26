//! The editor: configuration, the providers, history, and the keys waiting
//! to be acted on.
//!
//! What the editor decides in reaction to a key lives in `edit`; reading
//! the terminal and drawing on it is left to the caller.

use crate::completion::{CompletionProvider, NoCompleter};
use crate::hints::{HintProvider, NoHinter};
use crate::history::{newest, History};
use crate::parser::{key_views, parse_spec, Key, KeySeq, Parser, ParserView};
use crate::unicode::byte_len;
use std::collections::VecDeque;
use vstd::prelude::*;
use vstd::utf8::encode_utf8;

verus! {

/// Editor behaviour that a caller may want to change.
///
/// Construct with [`Config::default`] and override what you need.
#[derive(Debug, Clone)]
pub struct Config {
    /// Maximum number of history entries retained.
    pub history_max_size: usize,
    /// Draw hints supplied by the [`HintProvider`].
    pub enable_hints: bool,
    /// Let `TAB` run the [`CompletionProvider`]. When disabled, `TAB` inserts
    /// a literal tab character.
    pub enable_completion: bool,
    /// Allow an entry to span several lines. When disabled, `CTRL-J` submits
    /// the line like `ENTER`, [`Config::balance_pairs`] has no effect, and a
    /// newline inside a bracketed paste becomes a space.
    pub enable_multiline: bool,
    /// Ask the terminal to bracket pasted text, so a paste containing
    /// newlines or control characters is inserted rather than executed.
    pub enable_bracketed_paste: bool,
    /// Keep reading continuation lines until every `(` is closed.
    pub balance_pairs: bool,
    /// Embolden the bracket matching the one at the cursor.
    pub highlight_brackets: bool,
    /// Draw the line as asterisks, for password entry.
    pub mask_mode: bool,
    /// Prompt used for continuation lines.
    pub continuation_prompt: String,
}

impl Default for Config {
    fn default() -> (c: Self)
        ensures
            c.history_max_size == 1024,
            c.enable_hints,
            c.enable_completion,
            c.enable_multiline,
            c.enable_bracketed_paste,
            !c.balance_pairs,
            c.highlight_brackets,
            !c.mask_mode,
            c.continuation_prompt@ == seq!['.', '.', '.', ' '],
    {
        let p = "... ";
        proof {
            reveal_strlit("... ");
            assert(p@ =~= seq!['.', '.', '.', ' ']);
        }
        Config {
            history_max_size: 1024,
            enable_hints: true,
            enable_completion: true,
            enable_multiline: true,
            enable_bracketed_paste: true,
            balance_pairs: false,
            highlight_brackets: true,
            mask_mode: false,
            continuation_prompt: p.to_owned(),
        }
    }
}

/// Maps each typed character to the one inserted, the hook for input methods
/// that map one keyboard to another script.
pub trait Transliterate {
    /// The character to insert for typed `c`.
    fn xlat(&self, c: char) -> char;
}

/// Calls a transliteration closure. What it answers is up to the
/// closure's author, and the closure may be called on characters outside
/// any precondition it was written with, so nothing is stated of the answer.
#[verifier::external_body]
fn call_xlat_fn<F>(f: &F, c: char) -> char where F: Fn(char) -> char {
    f(c)
}

impl<F> Transliterate for F where F: Fn(char) -> char {
    /// Whatever the closure answers is inserted.
    fn xlat(&self, c: char) -> char {
        call_xlat_fn(self, c)
    }
}

/// A line editor.
///
/// One instance holds the history, the completion and hint providers, and
/// any input left over from a previous call, so keys typed ahead are never
/// lost between calls to `readline`.
pub struct Rustline {
    pub(crate) config: Config,
    pub(crate) completer: Box<dyn CompletionProvider>,
    pub(crate) hinter: Box<dyn HintProvider>,
    pub(crate) xlat: Option<Box<dyn Transliterate>>,
    pub(crate) history: History,
    /// Retains a partially received escape sequence across reads.
    pub(crate) parser: Parser,
    /// Keys read but not yet acted on, including any that arrived in the
    /// same batch as a submitted line.
    pub(crate) pending: VecDeque<KeySeq>,
}

/// The last entries of `s` that a history of capacity `cap` keeps, after
/// pushing `x`, are the same whether or not `s` was trimmed first.
pub proof fn lemma_newest_push(s: Seq<Seq<char>>, x: Seq<char>, cap: nat)
    requires
        cap >= 1,
    ensures
        newest(newest(s, cap).push(x), cap) == newest(s.push(x), cap),
{
    if s.len() > cap {
        assert(newest(s, cap).push(x).skip(1) =~= s.push(x).skip(s.push(x).len() - cap));
    } else if s.len() == cap {
        assert(newest(s, cap) == s);
    }
}

impl Rustline {
    /// The parts are consistent.
    pub closed spec fn wf(&self) -> bool {
        &&& self.history.wf()
        &&& self.parser.wf()
    }

    /// What `wf` means, for the editing code in other modules.
    pub(crate) proof fn lemma_wf_iff(&self)
        ensures
            self.wf() <==> (self.history.wf() && self.parser.wf()),
            self.entries() == self.history.entries(),
            self.history_capacity() == self.history.capacity(),
            self.spec_config() == self.config,
            self.pending_keys() == key_views(self.pending@),
            self.parser_state() == self.parser@,
            self.has_xlat_spec() == (self.xlat is Some),
    {
    }

    /// The editor's configuration.
    pub closed spec fn spec_config(&self) -> Config {
        self.config
    }

    /// The history's entries, oldest first.
    pub closed spec fn entries(&self) -> Seq<Seq<char>> {
        self.history.entries()
    }

    /// The number of entries the history keeps.
    pub closed spec fn history_capacity(&self) -> nat {
        self.history.capacity()
    }

    /// The keys waiting to be acted on, oldest first.
    pub closed spec fn pending_keys(&self) -> Seq<Key> {
        key_views(self.pending@)
    }

    /// The state of the key parser.
    pub closed spec fn parser_state(&self) -> ParserView {
        self.parser@
    }

    /// Whether a transliteration function is installed.
    pub closed spec fn has_xlat_spec(&self) -> bool {
        self.xlat is Some
    }

    /// Creates an editor with the default configuration.
    pub fn new() -> (r: Self)
        ensures
            r.wf(),
            r.history_capacity() == 1024,
            r.entries() == Seq::<Seq<char>>::empty(),
            r.pending_keys() == Seq::<Key>::empty(),
            !r.has_xlat_spec(),
    {
        Self::with_config(Config::default())
    }

    /// Creates an editor with the given configuration.
    pub fn with_config(config: Config) -> (r: Self)
        ensures
            r.wf(),
            r.spec_config() == config,
            r.history_capacity() == if config.history_max_size == 0 {
                1
            } else {
                config.history_max_size as nat
            },
            r.entries() == Seq::<Seq<char>>::empty(),
            r.pending_keys() == Seq::<Key>::empty(),
            !r.has_xlat_spec(),
    {
        let history = History::new(config.history_max_size);
        let r = Rustline {
            config,
            completer: Box::new(NoCompleter),
            hinter: Box::new(NoHinter),
            xlat: None,
            history,
            parser: Parser::new(),
            pending: VecDeque::new(),
        };
        proof {
            assert(r.pending_keys() =~= Seq::<Key>::empty());
        }
        r
    }

    /// The current configuration.
    pub fn config(&self) -> (r: &Config)
        ensures
            *r == self.spec_config(),
    {
        &self.config
    }

    /// Replaces the configuration.
    ///
    /// Changing [`Config::history_max_size`] resizes the history, keeping
    /// the newest entries.
    pub fn set_config(&mut self, config: Config)
        requires
            old(self).wf(),
        ensures
            final(self).wf(),
            final(self).spec_config() == config,
            final(self).history_capacity() == if config.history_max_size == 0 {
                1
            } else {
                config.history_max_size as nat
            },
            final(self).entries() == newest(old(self).entries(), final(self).history_capacity()),
            final(self).pending_keys() == old(self).pending_keys(),
            final(self).parser_state() == old(self).parser_state(),
            final(self).has_xlat_spec() == old(self).has_xlat_spec(),
    {
        proof {
            self.history.lemma_wf();
        }
        if config.history_max_size != self.history.max_size() {
            let mut resized = History::new(config.history_max_size);
            let items = self.history.iter();
            let ghost es = self.history.entries();
            let ghost cap = resized.capacity();
            let mut i: usize = 0;
            proof {
                assert(es.take(0) =~= Seq::<Seq<char>>::empty());
            }
            while i < items.len()
                invariant
                    i <= items@.len() == es.len(),
                    forall|j: int| 0 <= j < items@.len() ==> (#[trigger] items@[j])@ == es[j],
                    crate::history::entries_fit(es),
                    resized.wf(),
                    resized.capacity() == cap,
                    cap >= 1,
                    resized.entries() == newest(es.take(i as int), cap),
                decreases items@.len() - i,
            {
                let s = items[i].to_owned();
                proof {
                    assert(s@ == es[i as int]);
                    lemma_newest_push(es.take(i as int), s@, cap);
                    assert(es.take(i + 1) =~= es.take(i as int).push(s@));
                }
                resized.push(s);
                i = i + 1;
            }
            proof {
                assert(es.take(es.len() as int) =~= es);
            }
            self.history = resized;
        } else {
            proof {
                assert(newest(self.history.entries(), self.history.capacity()) == self.history.entries());
            }
        }
        self.config = config;
    }

    /// Installs the completion provider used by `TAB`.
    pub fn set_completer(&mut self, completer: Box<dyn CompletionProvider>)
        requires
            old(self).wf(),
        ensures
            final(self).wf(),
            final(self).spec_config() == old(self).spec_config(),
            final(self).entries() == old(self).entries(),
            final(self).history_capacity() == old(self).history_capacity(),
            final(self).pending_keys() == old(self).pending_keys(),
            final(self).has_xlat_spec() == old(self).has_xlat_spec(),
    {
        self.completer = completer;
    }

    /// Installs the hint provider.
    pub fn set_hinter(&mut self, hinter: Box<dyn HintProvider>)
        requires
            old(self).wf(),
        ensures
            final(self).wf(),
            final(self).spec_config() == old(self).spec_config(),
            final(self).entries() == old(self).entries(),
            final(self).history_capacity() == old(self).history_capacity(),
            final(self).pending_keys() == old(self).pending_keys(),
            final(self).has_xlat_spec() == old(self).has_xlat_spec(),
    {
        self.hinter = hinter;
    }

    /// Installs a transliteration function applied to every typed character.
    pub fn set_xlat(&mut self, xlat: Box<dyn Transliterate>)
        requires
            old(self).wf(),
        ensures
            final(self).wf(),
            final(self).has_xlat_spec(),
            final(self).spec_config() == old(self).spec_config(),
            final(self).entries() == old(self).entries(),
            final(self).history_capacity() == old(self).history_capacity(),
            final(self).pending_keys() == old(self).pending_keys(),
    {
        self.xlat = Some(xlat);
    }

    /// Removes any transliteration function.
    pub fn clear_xlat(&mut self)
        requires
            old(self).wf(),
        ensures
            final(self).wf(),
            !final(self).has_xlat_spec(),
            final(self).spec_config() == old(self).spec_config(),
            final(self).entries() == old(self).entries(),
            final(self).history_capacity() == old(self).history_capacity(),
            final(self).pending_keys() == old(self).pending_keys(),
    {
        self.xlat = None;
    }

    /// Whether a transliteration function is installed.
    pub fn has_xlat(&self) -> (r: bool)
        ensures
            r == self.has_xlat_spec(),
    {
        self.xlat.is_some()
    }

    /// The history.
    pub fn history(&self) -> (r: &History)
        ensures
            r.entries() == self.entries(),
            r.capacity() == self.history_capacity(),
            self.wf() ==> r.wf(),
    {
        &self.history
    }

    /// The history, mutably.
    pub fn history_mut(&mut self) -> (r: &mut History)
        ensures
            r.entries() == old(self).entries(),
            r.capacity() == old(self).history_capacity(),
            final(self).entries() == final(r).entries(),
            final(self).history_capacity() == final(r).capacity(),
            final(self).spec_config() == old(self).spec_config(),
            final(self).pending_keys() == old(self).pending_keys(),
            final(self).parser_state() == old(self).parser_state(),
            old(self).wf() && final(r).wf() ==> final(self).wf(),
            old(self).wf() ==> r.wf(),
    {
        &mut self.history
    }

    /// Replaces the history.
    pub fn set_history(&mut self, history: History)
        requires
            old(self).wf(),
            history.wf(),
        ensures
            final(self).wf(),
            final(self).entries() == history.entries(),
            final(self).history_capacity() == history.capacity(),
            final(self).spec_config() == old(self).spec_config(),
            final(self).pending_keys() == old(self).pending_keys(),
    {
        self.history = history;
    }

    /// Appends `line` to the history unless it is empty or repeats the
    /// previous entry. Returns whether an entry was added.
    pub fn add_history_entry(&mut self, line: &str) -> (added: bool)
        requires
            old(self).wf(),
        ensures
            final(self).wf(),
            final(self).history_capacity() == old(self).history_capacity(),
            added == !(line@.len() == 0 || (old(self).entries().len() > 0 && old(
                self,
            ).entries().last() == line@)),
            added ==> final(self).entries() == newest(
                old(self).entries().push(line@),
                old(self).history_capacity(),
            ),
            !added ==> final(self).entries() == old(self).entries(),
            final(self).spec_config() == old(self).spec_config(),
            final(self).pending_keys() == old(self).pending_keys(),
    {
        let _ = crate::text::str_byte_len(line);
        self.history.add(line)
    }

    // ------------------------------------------------------------- input

    /// Feeds bytes read from the terminal to the key parser and queues the
    /// keys they complete. Returns whether any key is waiting.
    pub fn feed(&mut self, input: &[u8]) -> (r: bool)
        requires
            old(self).wf(),
        ensures
            final(self).wf(),
            (final(self).parser_state(), final(self).pending_keys().skip(
                old(self).pending_keys().len() as int,
            )) == parse_spec(old(self).parser_state(), input@),
            final(self).pending_keys().take(old(self).pending_keys().len() as int) == old(
                self,
            ).pending_keys(),
            r == (final(self).pending_keys().len() > 0),
            final(self).spec_config() == old(self).spec_config(),
            final(self).entries() == old(self).entries(),
            final(self).history_capacity() == old(self).history_capacity(),
    {
        let mut keys = self.parser.parse(input);
        let ghost before = self.pending@;
        let ghost all = keys@;
        let ghost parsed = self.parser@;
        while keys.len() > 0
            invariant
                self.parser.wf(),
                self.parser@ == parsed,
                self.history == old(self).history,
                self.config == old(self).config,
                keys@.len() <= all.len(),
                keys@ == all.skip(all.len() - keys@.len()),
                self.pending@ == before + all.take(all.len() - keys@.len()),
            decreases keys@.len(),
        {
            let ghost n = all.len() - keys@.len();
            let k = keys.remove(0);
            proof {
                assert(k == all[n]);
                assert(keys@ =~= all.skip(n + 1));
            }
            self.pending.push_back(k);
            proof {
                assert(all.take(n + 1) =~= all.take(n).push(all[n]));
            }
        }
        proof {
            assert(all.take(all.len() as int) =~= all);
            assert(key_views(self.pending@).skip(before.len() as int) =~= key_views(all));
            assert(key_views(self.pending@).take(before.len() as int) =~= key_views(before));
        }
        self.pending.len() > 0
    }

    /// Takes the oldest waiting key.
    pub fn next_pending(&mut self) -> (r: Option<KeySeq>)
        requires
            old(self).wf(),
        ensures
            final(self).wf(),
            old(self).pending_keys().len() == 0 ==> r is None && final(self).pending_keys()
                == old(self).pending_keys(),
            old(self).pending_keys().len() > 0 ==> (r matches Some(k) && k@ == old(
                self,
            ).pending_keys()[0] && final(self).pending_keys() == old(self).pending_keys().drop_first()),
            final(self).spec_config() == old(self).spec_config(),
            final(self).entries() == old(self).entries(),
            final(self).history_capacity() == old(self).history_capacity(),
            final(self).parser_state() == old(self).parser_state(),
    {
        let r = self.pending.pop_front();
        proof {
            if old(self).pending@.len() > 0 {
                assert(key_views(self.pending@) =~= key_views(old(self).pending@).drop_first());
            }
        }
        r
    }

    /// Puts `key` back at the front of the queue, to be acted on next.
    pub fn push_front_pending(&mut self, key: KeySeq)
        requires
            old(self).wf(),
        ensures
            final(self).wf(),
            final(self).pending_keys() == seq![key@] + old(self).pending_keys(),
            final(self).has_xlat_spec() == old(self).has_xlat_spec(),
            final(self).spec_config() == old(self).spec_config(),
            final(self).entries() == old(self).entries(),
            final(self).history_capacity() == old(self).history_capacity(),
            final(self).parser_state() == old(self).parser_state(),
    {
        self.pending.push_front(key);
        proof {
            assert(key_views(self.pending@) =~= seq![key@] + key_views(old(self).pending@));
        }
    }

    /// Whether the parser holds no partial sequence.
    pub fn parser_is_idle(&self) -> (r: bool)
        ensures
            r == (self.parser_state().state == crate::parser::State::Ground),
    {
        self.parser.is_idle()
    }
}

// ----------------------------------------------------------------- files

/// Whether the text contains `c`.
pub open spec fn has_char(s: Seq<char>, c: char) -> bool {
    exists|i: int| 0 <= i < s.len() && s[i] == c
}

/// The history file name derived from a program name: `.{prog}_history`.
pub open spec fn history_file_name(prog: Seq<char>) -> Seq<char> {
    seq!['.'] + prog + "_history"@
}

/// The history path for `prog` given the home directory: a `prog`
/// containing `/` or `.` is taken to be the path itself; otherwise the file
/// `.{prog}_history` in `home`, or in the current directory when the home
/// directory is unknown.
pub open spec fn history_path_spec(prog: Seq<char>, home: Option<Seq<u8>>) -> Seq<u8> {
    if has_char(prog, '/') || has_char(prog, '.') {
        encode_utf8(prog)
    } else {
        match home {
            Some(h) => crate::completion::joined(h, encode_utf8(history_file_name(prog))),
            None => encode_utf8(history_file_name(prog)),
        }
    }
}

fn contains_char(v: &Vec<char>, c: char) -> (r: bool)
    ensures
        r == has_char(v@, c),
{
    let mut i: usize = 0;
    while i < v.len()
        invariant
            i <= v@.len(),
            forall|j: int| 0 <= j < i ==> v@[j] != c,
        decreases v@.len() - i,
    {
        if v[i] == c {
            return true;
        }
        i = i + 1;
    }
    false
}

/// The conventional history path for a program, as bytes, given its user's
/// home directory.
pub fn history_path_in(prog: &str, home: Option<&[u8]>) -> (r: Vec<u8>)
    ensures
        r@ == history_path_spec(
            prog@,
            match home {
                Some(h) => Some(h@),
                None => None,
            },
        ),
{
    let v = crate::text::chars_of(prog);
    if contains_char(&v, '/') || contains_char(&v, '.') {
        return prog.as_bytes_vec();
    }
    let name = crate::text::concat(".", prog);
    let name = crate::text::concat(name.as_str(), "_history");
    proof {
        reveal_strlit(".");
        assert(name@ =~= history_file_name(prog@));
    }
    let name_b = name.as_str().as_bytes_vec();
    match home {
        Some(h) => crate::completion::join_path(h, name_b.as_slice()),
        None => name_b,
    }
}

/// Derives the conventional history path for a program name.
///
/// A `prog` containing `/` or `.` is taken to be the path itself; otherwise
/// the result is `~/.{prog}_history`. The path comes back as its bytes, so a
/// home directory whose name is not UTF-8 is kept as it is.
pub fn history_path(prog: &str) -> (r: Vec<u8>)
    ensures
        (has_char(prog@, '/') || has_char(prog@, '.')) ==> r@ == encode_utf8(prog@),
        !(has_char(prog@, '/') || has_char(prog@, '.')) ==> (r@ == encode_utf8(history_file_name(prog@))
            || exists|h: Seq<u8>| r@ == crate::completion::joined(h, encode_utf8(history_file_name(prog@)))),
{
    let v = crate::text::chars_of(prog);
    if contains_char(&v, '/') || contains_char(&v, '.') {
        return history_path_in(prog, None);
    }
    match crate::completion::home_dir() {
        Some(h) => {
            let r = history_path_in(prog, Some(h.as_slice()));
            proof {
                assert(r@ == crate::completion::joined(h@, encode_utf8(history_file_name(prog@))));
            }
            r
        },
        None => history_path_in(prog, None),
    }
}

/// What `String::from_utf8_lossy` gives for `b`: the text, with each
/// invalid sequence replaced by `U+FFFD`.
pub uninterp spec fn lossy_text(b: Seq<u8>) -> Seq<char>;

/// Calls `String::from_utf8_lossy`, whose result is named `lossy_text`;
/// valid UTF-8 comes back unchanged.
#[verifier::external_body]
fn from_utf8_lossy(bytes: &[u8]) -> (r: String)
    ensures
        r@ == lossy_text(bytes@),
        vstd::utf8::valid_utf8(bytes@) ==> r@ == vstd::utf8::decode_utf8(bytes@),
{
    String::from_utf8_lossy(bytes).into_owned()
}

/// The line a plain (not a terminal) read produced from the bytes before
/// the newline, and whether a newline was seen: a trailing carriage return
/// is dropped, a blank line is an empty string, and running out of input
/// without seeing a newline or any byte is end of file (`None`).
pub fn plain_line(bytes: &[u8], saw_newline: bool) -> (r: Option<String>)
    ensures
        ({
            let b = if bytes@.len() > 0 && bytes@.last() == 0x0du8 {
                bytes@.drop_last()
            } else {
                bytes@
            };
            &&& b.len() == 0 && !saw_newline ==> r is None
            &&& !(b.len() == 0 && !saw_newline) ==> (r matches Some(t) && t@ == lossy_text(b))
        }),
{
    let mut n = bytes.len();
    if n > 0 && bytes[n - 1] == 0x0d {
        n = n - 1;
    }
    if n == 0 && !saw_newline {
        return None;
    }
    let (b, _) = bytes.split_at(n);
    proof {
        assert(b@ =~= if bytes@.len() > 0 && bytes@.last() == 0x0du8 {
            bytes@.drop_last()
        } else {
            bytes@
        });
    }
    Some(from_utf8_lossy(b))
}

} // verus!
