//! The state behind the demonstration REPL: variables, aliases, and how a
//! typed command is read.

use crate::completion::{all_whitespace, has_prefix, word_at, word_before, ws_start, Completions, FileCompleter};
use crate::history::string_views;
use crate::text::{chars_of, concat, is_boundary_in, string_of};
use crate::unicode::offset;
use crate::unicode::{is_whitespace, spec_is_whitespace};
use vstd::prelude::*;

verus! {

/// The value bound to `name` in a list of bindings, the last binding winning.
pub open spec fn lookup(es: Seq<(Seq<char>, Seq<char>)>, name: Seq<char>) -> Option<Seq<char>>
    decreases es.len(),
{
    if es.len() == 0 {
        None
    } else if es.last().0 == name {
        Some(es.last().1)
    } else {
        lookup(es.drop_last(), name)
    }
}

/// The views of a list of string pairs.
pub open spec fn pair_views(s: Seq<(String, String)>) -> Seq<(Seq<char>, Seq<char>)> {
    Seq::new(s.len(), |i: int| (s[i].0@, s[i].1@))
}

/// Names bound to values, such as the REPL's variables and aliases.
#[derive(Debug, Clone)]
pub struct Table {
    entries: Vec<(String, String)>,
}

impl Table {
    /// The bindings, oldest first.
    pub closed spec fn bindings(&self) -> Seq<(Seq<char>, Seq<char>)> {
        pair_views(self.entries@)
    }

    /// The value bound to `name`.
    pub open spec fn value_of(&self, name: Seq<char>) -> Option<Seq<char>> {
        lookup(self.bindings(), name)
    }

    /// Creates an empty table.
    pub fn new() -> (t: Self)
        ensures
            forall|n: Seq<char>| t.value_of(n) is None,
    {
        let t = Table { entries: Vec::new() };
        proof {
            assert(t.bindings() =~= Seq::<(Seq<char>, Seq<char>)>::empty());
        }
        t
    }

    /// Binds `name` to `value`, returning what it was bound to before.
    pub fn insert(&mut self, name: String, value: String) -> (r: Option<String>)
        ensures
            final(self).value_of(name@) == Some(value@),
            forall|n: Seq<char>| n != name@ ==> final(self).value_of(n) == old(self).value_of(n),
            match old(self).value_of(name@) {
                Some(v) => r matches Some(s) && s@ == v,
                None => r is None,
            },
    {
        let old_value = match self.get(name.as_str()) {
            Some(v) => Some(v.to_owned()),
            None => None,
        };
        let ghost before = self.entries@;
        let ghost nv = name@;
        let ghost vv = value@;
        self.entries.push((name, value));
        proof {
            assert(pair_views(self.entries@) =~= pair_views(before).push((nv, vv)));
            assert(pair_views(self.entries@).drop_last() =~= pair_views(before));
        }
        old_value
    }

    /// The value bound to `name`, if any.
    pub fn get(&self, name: &str) -> (r: Option<&str>)
        ensures
            match self.value_of(name@) {
                Some(v) => r matches Some(s) && s@ == v,
                None => r is None,
            },
    {
        let target = chars_of(name);
        let mut i = self.entries.len();
        proof {
            assert(self.bindings().take(i as int) =~= self.bindings());
        }
        while i > 0
            invariant
                i <= self.entries@.len(),
                lookup(self.bindings(), name@) == lookup(self.bindings().take(i as int), name@),
                target@ == name@,
            decreases i,
        {
            proof {
                assert(self.bindings().take(i as int).drop_last() =~= self.bindings().take(i - 1));
                assert(self.bindings().take(i as int).last() == self.bindings()[i - 1]);
            }
            let key = chars_of(self.entries[i - 1].0.as_str());
            if crate::completion::same(&key, &target) {
                return Some(self.entries[i - 1].1.as_str());
            }
            i = i - 1;
        }
        proof {
            assert(self.bindings().take(self.entries@.len() as int) =~= self.bindings());
        }
        None
    }

    /// Unbinds `name`, returning what it was bound to.
    pub fn remove(&mut self, name: &str) -> (r: Option<String>)
        ensures
            final(self).value_of(name@) is None,
            forall|n: Seq<char>| n != name@ ==> final(self).value_of(n) == old(self).value_of(n),
            match old(self).value_of(name@) {
                Some(v) => r matches Some(s) && s@ == v,
                None => r is None,
            },
    {
        let found = match self.get(name) {
            Some(v) => Some(v.to_owned()),
            None => None,
        };
        let target = chars_of(name);
        let mut kept: Vec<(String, String)> = Vec::new();
        let mut i: usize = 0;
        proof {
            assert(pair_views(kept@) =~= Seq::<(Seq<char>, Seq<char>)>::empty());
            assert(self.bindings().take(0) =~= Seq::<(Seq<char>, Seq<char>)>::empty());
        }
        while i < self.entries.len()
            invariant
                i <= self.entries@.len(),
                lookup(pair_views(kept@), name@) is None,
                forall|n: Seq<char>| n != name@ ==> lookup(pair_views(kept@), n) == lookup(
                    self.bindings().take(i as int),
                    n,
                ),
                self.entries == old(self).entries,
                target@ == name@,
            decreases self.entries@.len() - i,
        {
            let ghost before = kept@;
            proof {
                assert(self.bindings().take(i + 1).drop_last() =~= self.bindings().take(i as int));
                assert(self.bindings().take(i + 1).last() == self.bindings()[i as int]);
            }
            let key = chars_of(self.entries[i].0.as_str());
            proof {
                assert(self.bindings()[i as int].0 == key@);
                assert forall|n: Seq<char>| n != name@ implies lookup(pair_views(before), n) == lookup(
                    self.bindings().take(i as int),
                    n,
                ) by {}
            }
            if !crate::completion::same(&key, &target) {
                let pair = (self.entries[i].0.clone(), self.entries[i].1.clone());
                kept.push(pair);
                proof {
                    assert(pair_views(kept@).drop_last() =~= pair_views(before));
                    assert(pair_views(kept@).last() == self.bindings()[i as int]);
                    assert forall|n: Seq<char>| n != name@ implies lookup(pair_views(kept@), n) == lookup(
                        self.bindings().take(i + 1),
                        n,
                    ) by {
                        assert(lookup(pair_views(before), n) == lookup(self.bindings().take(i as int), n));
                    }
                }
            } else {
                proof {
                    assert forall|n: Seq<char>| n != name@ implies lookup(pair_views(kept@), n) == lookup(
                        self.bindings().take(i + 1),
                        n,
                    ) by {
                        assert(lookup(pair_views(before), n) == lookup(self.bindings().take(i as int), n));
                    }
                }
            }
            i = i + 1;
        }
        proof {
            assert(self.bindings().take(self.entries@.len() as int) =~= self.bindings());
        }
        self.entries = kept;
        found
    }

    /// The number of bindings, counting each name once per binding.
    pub fn len(&self) -> (r: usize)
        ensures
            r == self.bindings().len(),
    {
        self.entries.len()
    }

    /// The bound names and their values, oldest binding first.
    pub fn pairs(&self) -> (r: &[(String, String)])
        ensures
            pair_views(r@) == self.bindings(),
    {
        self.entries.as_slice()
    }
}

// ------------------------------------------------------------------- words

/// Index of the first whitespace character of `s`, or its length.
pub open spec fn first_ws(s: Seq<char>) -> int
    decreases s.len(),
{
    if s.len() == 0 {
        0
    } else if spec_is_whitespace(s[0]) {
        0
    } else {
        1 + first_ws(s.drop_first())
    }
}

proof fn lemma_first_ws(s: Seq<char>, k: int)
    requires
        0 <= k <= s.len(),
        forall|j: int| 0 <= j < k ==> !spec_is_whitespace(#[trigger] s[j]),
        k == s.len() || spec_is_whitespace(s[k]),
    ensures
        first_ws(s) == k,
    decreases k,
{
    if k > 0 {
        lemma_first_ws(s.drop_first(), k - 1);
    }
}

/// The command with its first word replaced by the alias bound to it.
pub open spec fn alias_expansion(aliases: Table, command: Seq<char>) -> Seq<char> {
    let k = first_ws(command);
    match aliases.value_of(command.take(k)) {
        Some(a) => a + command.skip(k),
        None => command,
    }
}

/// The words of `s`: its maximal runs of characters that are not
/// whitespace.
pub open spec fn split_words(s: Seq<char>) -> Seq<Seq<char>>
    decreases s.len(),
{
    if s.len() == 0 {
        Seq::empty()
    } else {
        let w = split_words(s.drop_last());
        let c = s.last();
        if spec_is_whitespace(c) {
            w
        } else if s.len() >= 2 && !spec_is_whitespace(s[s.len() - 2]) {
            w.update(w.len() - 1, w.last().push(c))
        } else {
            w.push(seq![c])
        }
    }
}

/// `lines` joined with newlines between them.
pub open spec fn joined_lines(lines: Seq<Seq<char>>) -> Seq<char>
    decreases lines.len(),
{
    if lines.len() == 0 {
        Seq::empty()
    } else if lines.len() == 1 {
        lines[0]
    } else {
        joined_lines(lines.drop_last()).push('\n') + lines.last()
    }
}

/// The state the demonstration REPL keeps between commands.
pub struct ReplState {
    /// Variables set with `set`.
    pub variables: Table,
    /// Aliases defined with `alias`.
    pub aliases: Table,
    /// The working directory, as the caller last read it.
    pub current_dir: String,
    /// Commands run so far.
    pub command_count: usize,
    /// Lines ending in `{` start a block that runs at the next blank line.
    pub multiline_mode: bool,
    /// Commands run, oldest first.
    pub history: Vec<String>,
    /// Show extra detail with errors.
    pub debug_mode: bool,
}

impl ReplState {
    /// A fresh state. The working directory is the caller's to fill in.
    pub fn new() -> (s: Self)
        ensures
            forall|n: Seq<char>| s.variables.value_of(n) is None && s.aliases.value_of(n) is None,
            s.current_dir@ == Seq::<char>::empty(),
            s.command_count == 0,
            !s.multiline_mode,
            s.history@.len() == 0,
            !s.debug_mode,
    {
        ReplState {
            variables: Table::new(),
            aliases: Table::new(),
            current_dir: String::new(),
            command_count: 0,
            multiline_mode: false,
            history: Vec::new(),
            debug_mode: false,
        }
    }

    /// Replaces `$NAME` in `input` with the value of the REPL variable
    /// `NAME`, then with that of the environment variable `NAME`, for each
    /// of the `env` pairs that the caller read from the environment.
    pub fn expand_variables(&self, input: &str, env: &[(String, String)]) -> (r: String)
        ensures
            r@ == substitute_all(substitute_all(input@, self.variables.bindings()), pair_views(env@)),
    {
        let own = substitute_variables(input, self.variables.pairs());
        substitute_variables(own.as_str(), env)
    }

    /// Replaces the first word of `command` with the alias bound to it, if
    /// there is one.
    pub fn expand_aliases(&self, command: &str) -> (r: String)
        ensures
            r@ == alias_expansion(self.aliases, command@),
    {
        let v = chars_of(command);
        let mut k: usize = 0;
        while k < v.len() && !is_whitespace(v[k])
            invariant
                k <= v@.len(),
                v@ == command@,
                forall|j: int| 0 <= j < k ==> !spec_is_whitespace(#[trigger] v@[j]),
            decreases v@.len() - k,
        {
            k = k + 1;
        }
        proof {
            lemma_first_ws(command@, k as int);
        }
        let (first, rest) = crate::text::split_at_char(command, k);
        match self.aliases.get(first) {
            Some(alias) => crate::text::concat(alias, rest),
            None => command.to_owned(),
        }
    }

    /// The words of a typed command after alias expansion; running a
    /// command that has any counts it.
    pub fn command_words(&mut self, command: &str) -> (r: Vec<String>)
        ensures
            string_views(r@) == split_words(alias_expansion(old(self).aliases, command@)),
            final(self).command_count == if r@.len() > 0 && old(self).command_count < usize::MAX {
                old(self).command_count + 1
            } else {
                old(self).command_count as int
            },
            final(self).aliases == old(self).aliases,
            final(self).variables == old(self).variables,
            final(self).history == old(self).history,
            final(self).multiline_mode == old(self).multiline_mode,
            final(self).debug_mode == old(self).debug_mode,
            final(self).current_dir == old(self).current_dir,
    {
        let expanded = self.expand_aliases(command);
        let r = words_of(expanded.as_str());
        if r.len() > 0 && self.command_count < usize::MAX {
            self.command_count = self.command_count + 1;
        }
        r
    }
}

/// Splits `s` into its whitespace-separated words.
pub fn words_of(s: &str) -> (r: Vec<String>)
    ensures
        string_views(r@) == split_words(s@),
{
    let v = chars_of(s);
    let mut words: Vec<Vec<char>> = Vec::new();
    let mut i: usize = 0;
    proof {
        assert(s@.take(0) =~= Seq::<char>::empty());
        assert(crate::completion::char_views(words@) =~= Seq::<Seq<char>>::empty());
    }
    while i < v.len()
        invariant
            i <= v@.len(),
            v@ == s@,
            crate::completion::char_views(words@) == split_words(s@.take(i as int)),
        decreases v@.len() - i,
    {
        let c = v[i];
        let ghost w = crate::completion::char_views(words@);
        proof {
            assert(s@.take(i + 1).drop_last() =~= s@.take(i as int));
            assert(s@.take(i + 1).last() == c);
            if i >= 1 {
                assert(s@.take(i + 1)[i - 1] == v@[i - 1]);
            }
        }
        if is_whitespace(c) {
        } else if i >= 1 && !is_whitespace(v[i - 1]) {
            let n = words.len();
            proof {
                lemma_open_word(s@.take(i as int));
            }
            let mut last = words.pop().unwrap();
            last.push(c);
            words.push(last);
            proof {
                assert(crate::completion::char_views(words@) =~= w.update(w.len() - 1, w.last().push(c)));
            }
        } else {
            let mut fresh: Vec<char> = Vec::new();
            fresh.push(c);
            words.push(fresh);
            proof {
                assert(fresh@ =~= seq![c]);
                assert(crate::completion::char_views(words@) =~= w.push(seq![c]));
            }
        }
        i = i + 1;
    }
    proof {
        assert(s@.take(v@.len() as int) =~= s@);
    }
    let mut r: Vec<String> = Vec::new();
    let mut j: usize = 0;
    while j < words.len()
        invariant
            j <= words@.len(),
            crate::completion::char_views(words@) == split_words(s@),
            string_views(r@) == crate::completion::char_views(words@).take(j as int),
        decreases words@.len() - j,
    {
        let t = string_of(&words[j]);
        let ghost before = r@;
        r.push(t);
        proof {
            crate::history::lemma_string_views_push(before, t);
            assert(crate::completion::char_views(words@).take(j + 1) =~= crate::completion::char_views(words@).take(j as int).push(words@[j as int]@));
        }
        j = j + 1;
    }
    proof {
        assert(crate::completion::char_views(words@).take(words@.len() as int) =~= crate::completion::char_views(words@));
    }
    r
}

/// A text ending in a character that is not whitespace has at least one
/// word.
proof fn lemma_open_word(s: Seq<char>)
    requires
        s.len() > 0,
        !spec_is_whitespace(s.last()),
    ensures
        split_words(s).len() > 0,
    decreases s.len(),
{
    if s.len() >= 2 && !spec_is_whitespace(s[s.len() - 2]) {
        assert(s.drop_last().last() == s[s.len() - 2]);
        lemma_open_word(s.drop_last());
    }
}

/// Feeds one line to a multi-line block: a blank line ends the block and
/// gives back its lines joined with newlines, to be run; any other line is
/// added to the block.
pub fn process_multiline(line: &str, multiline_buffer: &mut Vec<String>) -> (r: Option<String>)
    ensures
        all_whitespace(line@) ==> (r matches Some(c) && c@ == joined_lines(string_views(old(multiline_buffer)@)) && final(multiline_buffer)@.len() == 0),
        !all_whitespace(line@) ==> r is None && string_views(final(multiline_buffer)@) == string_views(old(multiline_buffer)@).push(line@),
{
    let v = chars_of(line);
    let mut i: usize = 0;
    while i < v.len() && is_whitespace(v[i])
        invariant
            i <= v@.len(),
            v@ == line@,
            forall|j: int| 0 <= j < i ==> spec_is_whitespace(#[trigger] v@[j]),
        decreases v@.len() - i,
    {
        i = i + 1;
    }
    if i < v.len() {
        let ghost before = multiline_buffer@;
        let owned = line.to_owned();
        multiline_buffer.push(owned);
        proof {
            crate::history::lemma_string_views_push(before, owned);
        }
        return None;
    }
    let mut joined: Vec<char> = Vec::new();
    let mut k: usize = 0;
    let ghost ls = string_views(multiline_buffer@);
    proof {
        assert(ls.take(0) =~= Seq::<Seq<char>>::empty());
    }
    while k < multiline_buffer.len()
        invariant
            k <= multiline_buffer@.len(),
            ls == string_views(multiline_buffer@),
            joined@ == joined_lines(ls.take(k as int)),
        decreases multiline_buffer@.len() - k,
    {
        if k > 0 {
            joined.push('\n');
        }
        let w = chars_of(multiline_buffer[k].as_str());
        let ghost base = joined@;
        let mut q: usize = 0;
        while q < w.len()
            invariant
                q <= w@.len(),
                joined@ == base + w@.take(q as int),
            decreases w@.len() - q,
        {
            joined.push(w[q]);
            proof {
                assert(base + w@.take(q + 1) =~= (base + w@.take(q as int)).push(w@[q as int]));
            }
            q = q + 1;
        }
        proof {
            assert(w@.take(w@.len() as int) =~= w@);
            assert(ls.take(k + 1).drop_last() =~= ls.take(k as int));
            assert(ls.take(k + 1).last() == ls[k as int]);
            if k == 0 {
                assert(joined@ =~= ls.take(1)[0]);
            }
        }
        k = k + 1;
    }
    proof {
        assert(ls.take(multiline_buffer@.len() as int) =~= ls);
    }
    multiline_buffer.clear();
    Some(string_of(&joined))
}

// --------------------------------------------------------------- commands

/// `ws` joined with single spaces between them.
pub open spec fn joined_words(ws: Seq<Seq<char>>) -> Seq<char>
    decreases ws.len(),
{
    if ws.len() == 0 {
        Seq::empty()
    } else if ws.len() == 1 {
        ws[0]
    } else {
        joined_words(ws.drop_last()).push(' ') + ws.last()
    }
}

/// A built-in command that needs more words than it was given.
#[derive(Debug, Clone, Copy, PartialEq, Eq)]
pub enum UsageOf {
    /// `set <variable> <value>`
    SetVar,
    /// `cat <filename>`
    Cat,
    /// `unalias <name>`
    Unalias,
    /// `calc <expression>`
    Calc,
    /// `eval <expression>`
    Eval,
}

/// Why a typed command cannot run.
#[derive(Debug, Clone, PartialEq, Eq)]
pub enum CommandProblem {
    /// A built-in given too few words.
    Usage(UsageOf),
    /// A first word that names no command.
    Unknown(String),
}

/// What a typed command asks for, with its arguments.
#[derive(Debug, Clone, PartialEq, Eq)]
pub enum ReplCommand {
    /// `exit` or `quit`.
    Exit,
    /// `help`.
    Help,
    /// `debug`: toggle debug mode.
    Debug,
    /// `bench`.
    Bench,
    /// `history`.
    History,
    /// `clear`.
    Clear,
    /// `set NAME VALUE...`: the value is the remaining words joined by spaces.
    SetVar(String, String),
    /// `get [NAME]`.
    Get(Option<String>),
    /// `echo TEXT...`.
    Echo(String),
    /// `pwd`.
    Pwd,
    /// `cd [DIR]`.
    Cd(Option<String>),
    /// `ls [DIR]`.
    Ls(Option<String>),
    /// `cat FILE`.
    Cat(String),
    /// `alias NAME VALUE...`: define an alias.
    Alias(String, String),
    /// `alias NAME`: show one alias.
    ShowAlias(String),
    /// `alias`: list every alias.
    ListAliases,
    /// `unalias NAME`.
    Unalias(String),
    /// `multiline`: toggle multi-line blocks.
    Multiline,
    /// `unicode-test`.
    UnicodeTest,
    /// `config`.
    Config,
    /// `calc EXPR...`.
    Calc(String),
    /// `eval EXPR...`.
    Eval(String),
}

/// What the words `ws` of a command ask for: the first names the command,
/// the rest are its arguments.
pub open spec fn parsed(ws: Seq<Seq<char>>, r: Result<ReplCommand, CommandProblem>) -> bool {
    let w0 = ws[0];
    let n = ws.len();
    if w0 == "exit"@ || w0 == "quit"@ {
        r == Ok::<ReplCommand, CommandProblem>(ReplCommand::Exit)
    } else if w0 == "help"@ {
        r == Ok::<ReplCommand, CommandProblem>(ReplCommand::Help)
    } else if w0 == "debug"@ {
        r == Ok::<ReplCommand, CommandProblem>(ReplCommand::Debug)
    } else if w0 == "bench"@ {
        r == Ok::<ReplCommand, CommandProblem>(ReplCommand::Bench)
    } else if w0 == "history"@ {
        r == Ok::<ReplCommand, CommandProblem>(ReplCommand::History)
    } else if w0 == "clear"@ {
        r == Ok::<ReplCommand, CommandProblem>(ReplCommand::Clear)
    } else if w0 == "set"@ {
        if n >= 3 {
            r matches Ok(ReplCommand::SetVar(a, b)) && a@ == ws[1] && b@ == joined_words(ws.skip(2))
        } else {
            r == Err::<ReplCommand, CommandProblem>(CommandProblem::Usage(UsageOf::SetVar))
        }
    } else if w0 == "get"@ {
        if n >= 2 {
            r matches Ok(ReplCommand::Get(Some(a))) && a@ == ws[1]
        } else {
            r == Ok::<ReplCommand, CommandProblem>(ReplCommand::Get(None))
        }
    } else if w0 == "echo"@ {
        r matches Ok(ReplCommand::Echo(t)) && t@ == joined_words(ws.skip(1))
    } else if w0 == "pwd"@ {
        r == Ok::<ReplCommand, CommandProblem>(ReplCommand::Pwd)
    } else if w0 == "cd"@ {
        if n >= 2 {
            r matches Ok(ReplCommand::Cd(Some(a))) && a@ == ws[1]
        } else {
            r == Ok::<ReplCommand, CommandProblem>(ReplCommand::Cd(None))
        }
    } else if w0 == "ls"@ {
        if n >= 2 {
            r matches Ok(ReplCommand::Ls(Some(a))) && a@ == ws[1]
        } else {
            r == Ok::<ReplCommand, CommandProblem>(ReplCommand::Ls(None))
        }
    } else if w0 == "cat"@ {
        if n >= 2 {
            r matches Ok(ReplCommand::Cat(a)) && a@ == ws[1]
        } else {
            r == Err::<ReplCommand, CommandProblem>(CommandProblem::Usage(UsageOf::Cat))
        }
    } else if w0 == "alias"@ {
        if n >= 3 {
            r matches Ok(ReplCommand::Alias(a, b)) && a@ == ws[1] && b@ == joined_words(ws.skip(2))
        } else if n == 2 {
            r matches Ok(ReplCommand::ShowAlias(a)) && a@ == ws[1]
        } else {
            r == Ok::<ReplCommand, CommandProblem>(ReplCommand::ListAliases)
        }
    } else if w0 == "unalias"@ {
        if n >= 2 {
            r matches Ok(ReplCommand::Unalias(a)) && a@ == ws[1]
        } else {
            r == Err::<ReplCommand, CommandProblem>(CommandProblem::Usage(UsageOf::Unalias))
        }
    } else if w0 == "multiline"@ {
        r == Ok::<ReplCommand, CommandProblem>(ReplCommand::Multiline)
    } else if w0 == "unicode-test"@ {
        r == Ok::<ReplCommand, CommandProblem>(ReplCommand::UnicodeTest)
    } else if w0 == "config"@ {
        r == Ok::<ReplCommand, CommandProblem>(ReplCommand::Config)
    } else if w0 == "calc"@ {
        if n >= 2 {
            r matches Ok(ReplCommand::Calc(t)) && t@ == joined_words(ws.skip(1))
        } else {
            r == Err::<ReplCommand, CommandProblem>(CommandProblem::Usage(UsageOf::Calc))
        }
    } else if w0 == "eval"@ {
        if n >= 2 {
            r matches Ok(ReplCommand::Eval(t)) && t@ == joined_words(ws.skip(1))
        } else {
            r == Err::<ReplCommand, CommandProblem>(CommandProblem::Usage(UsageOf::Eval))
        }
    } else {
        r matches Err(CommandProblem::Unknown(u)) && u@ == w0
    }
}

/// Whether `k` spells `lit`.
fn is_word(k: &Vec<char>, lit: &str) -> (r: bool)
    ensures
        r == (k@ == lit@),
{
    let l = chars_of(lit);
    crate::completion::same(k, &l)
}

/// The words of `words` from index `from` on, joined by single spaces.
fn join_from(words: &[String], from: usize) -> (r: String)
    requires
        from <= words@.len(),
    ensures
        r@ == joined_words(string_views(words@).skip(from as int)),
{
    let ghost ws = string_views(words@);
    let mut joined: Vec<char> = Vec::new();
    let mut k: usize = from;
    proof {
        assert(ws.subrange(from as int, from as int) =~= Seq::<Seq<char>>::empty());
    }
    while k < words.len()
        invariant
            from <= k <= words@.len(),
            ws == string_views(words@),
            joined@ == joined_words(ws.subrange(from as int, k as int)),
        decreases words@.len() - k,
    {
        if k > from {
            joined.push(' ');
        }
        let w = chars_of(words[k].as_str());
        let ghost base = joined@;
        let mut q: usize = 0;
        while q < w.len()
            invariant
                q <= w@.len(),
                joined@ == base + w@.take(q as int),
            decreases w@.len() - q,
        {
            joined.push(w[q]);
            proof {
                assert(base + w@.take(q + 1) =~= (base + w@.take(q as int)).push(w@[q as int]));
            }
            q = q + 1;
        }
        proof {
            assert(w@.take(w@.len() as int) =~= w@);
            let sub = ws.subrange(from as int, k + 1);
            assert(sub.drop_last() =~= ws.subrange(from as int, k as int));
            assert(sub.last() == ws[k as int]);
            if k == from {
                assert(joined@ =~= sub[0]);
            }
        }
        k = k + 1;
    }
    proof {
        assert(ws.subrange(from as int, words@.len() as int) =~= ws.skip(from as int));
    }
    string_of(&joined)
}

/// Reads a command from its words (after alias expansion): `None` for a
/// command with no words, otherwise what it asks for, or why it cannot run.
pub fn parse_command(words: &[String]) -> (r: Option<Result<ReplCommand, CommandProblem>>)
    ensures
        words@.len() == 0 ==> r is None,
        words@.len() > 0 ==> (r matches Some(c) && parsed(string_views(words@), c)),
{
    if words.len() == 0 {
        return None;
    }
    let ghost ws = string_views(words@);
    let n = words.len();
    let w = chars_of(words[0].as_str());
    proof {
        assert(w@ == ws[0]);
    }
    let arg = |i: usize| -> (s: String)
        requires
            i < words@.len(),
        ensures
            s@ == words@[i as int]@,
    {
        words[i].clone()
    };
    let c = if is_word(&w, "exit") || is_word(&w, "quit") {
        Ok(ReplCommand::Exit)
    } else if is_word(&w, "help") {
        Ok(ReplCommand::Help)
    } else if is_word(&w, "debug") {
        Ok(ReplCommand::Debug)
    } else if is_word(&w, "bench") {
        Ok(ReplCommand::Bench)
    } else if is_word(&w, "history") {
        Ok(ReplCommand::History)
    } else if is_word(&w, "clear") {
        Ok(ReplCommand::Clear)
    } else if is_word(&w, "set") {
        if n >= 3 {
            Ok(ReplCommand::SetVar(arg(1), join_from(words, 2)))
        } else {
            Err(CommandProblem::Usage(UsageOf::SetVar))
        }
    } else if is_word(&w, "get") {
        if n >= 2 {
            Ok(ReplCommand::Get(Some(arg(1))))
        } else {
            Ok(ReplCommand::Get(None))
        }
    } else if is_word(&w, "echo") {
        Ok(ReplCommand::Echo(join_from(words, 1)))
    } else if is_word(&w, "pwd") {
        Ok(ReplCommand::Pwd)
    } else if is_word(&w, "cd") {
        if n >= 2 {
            Ok(ReplCommand::Cd(Some(arg(1))))
        } else {
            Ok(ReplCommand::Cd(None))
        }
    } else if is_word(&w, "ls") {
        if n >= 2 {
            Ok(ReplCommand::Ls(Some(arg(1))))
        } else {
            Ok(ReplCommand::Ls(None))
        }
    } else if is_word(&w, "cat") {
        if n >= 2 {
            Ok(ReplCommand::Cat(arg(1)))
        } else {
            Err(CommandProblem::Usage(UsageOf::Cat))
        }
    } else if is_word(&w, "alias") {
        if n >= 3 {
            Ok(ReplCommand::Alias(arg(1), join_from(words, 2)))
        } else if n == 2 {
            Ok(ReplCommand::ShowAlias(arg(1)))
        } else {
            Ok(ReplCommand::ListAliases)
        }
    } else if is_word(&w, "unalias") {
        if n >= 2 {
            Ok(ReplCommand::Unalias(arg(1)))
        } else {
            Err(CommandProblem::Usage(UsageOf::Unalias))
        }
    } else if is_word(&w, "multiline") {
        Ok(ReplCommand::Multiline)
    } else if is_word(&w, "unicode-test") {
        Ok(ReplCommand::UnicodeTest)
    } else if is_word(&w, "config") {
        Ok(ReplCommand::Config)
    } else if is_word(&w, "calc") {
        if n >= 2 {
            Ok(ReplCommand::Calc(join_from(words, 1)))
        } else {
            Err(CommandProblem::Usage(UsageOf::Calc))
        }
    } else if is_word(&w, "eval") {
        if n >= 2 {
            Ok(ReplCommand::Eval(join_from(words, 1)))
        } else {
            Err(CommandProblem::Usage(UsageOf::Eval))
        }
    } else {
        Err(CommandProblem::Unknown(arg(0)))
    };
    Some(c)
}

/// The REPL's built-in commands, in the order they are offered.
pub open spec fn builtin_commands() -> Seq<Seq<char>> {
    seq![
        "help"@, "exit"@, "quit"@, "history"@, "clear"@, "set"@, "get"@, "echo"@, "cd"@, "pwd"@,
        "ls"@, "cat"@, "save"@, "load"@, "eval"@, "multiline"@, "unicode-test"@, "config"@,
        "calc"@, "alias"@, "unalias"@, "bench"@, "debug"@,
    ]
}

// -------------------------------------------------------------- variables

/// `s` with each occurrence of `p` replaced by `v`, the occurrences found
/// left to right without overlapping, as `str::replace` finds them.
pub open spec fn replace_all(s: Seq<char>, p: Seq<char>, v: Seq<char>) -> Seq<char>
    decreases s.len(),
{
    if p.len() == 0 || s.len() < p.len() {
        s
    } else if s.take(p.len() as int) == p {
        v + replace_all(s.skip(p.len() as int), p, v)
    } else {
        seq![s[0]] + replace_all(s.skip(1), p, v)
    }
}

/// `s` after replacing `$NAME` by its value for each `(NAME, value)` of
/// `pairs` in turn, first pair first.
pub open spec fn substitute_all(s: Seq<char>, pairs: Seq<(Seq<char>, Seq<char>)>) -> Seq<char>
    decreases pairs.len(),
{
    if pairs.len() == 0 {
        s
    } else {
        let (name, value) = pairs.last();
        replace_all(substitute_all(s, pairs.drop_last()), seq!['$'] + name, value)
    }
}

/// Whether `p` occurs in `s` at character `i`.
fn matches_at(s: &Vec<char>, i: usize, p: &Vec<char>) -> (r: bool)
    requires
        i <= s.len(),
    ensures
        r == (p.len() <= s.len() - i && s@.skip(i as int).take(p.len() as int) == p@),
{
    if p.len() > s.len() - i {
        return false;
    }
    let mut m: usize = 0;
    while m < p.len()
        invariant
            m <= p.len(),
            i + p.len() <= s.len(),
            forall|q: int| 0 <= q < m ==> s@[i + q] == p@[q],
        decreases p.len() - m,
    {
        if s[i + m] != p[m] {
            proof {
                assert(s@.skip(i as int).take(p.len() as int)[m as int] != p@[m as int]);
            }
            return false;
        }
        m = m + 1;
    }
    proof {
        assert(s@.skip(i as int).take(p.len() as int) =~= p@);
    }
    true
}

/// Replaces every occurrence of the non-empty `p` in `s` with `v`.
fn replace_chars(s: &Vec<char>, p: &Vec<char>, v: &Vec<char>) -> (r: Vec<char>)
    requires
        p.len() > 0,
    ensures
        r@ == replace_all(s@, p@, v@),
{
    let mut out: Vec<char> = Vec::new();
    let mut i: usize = 0;
    proof {
        assert(s@.skip(0) =~= s@);
    }
    while i < s.len()
        invariant
            i <= s.len(),
            p.len() > 0,
            out@ + replace_all(s@.skip(i as int), p@, v@) == replace_all(s@, p@, v@),
        decreases s.len() - i,
    {
        let ghost rest = s@.skip(i as int);
        let ghost before = out@;
        if matches_at(s, i, p) {
            let mut k: usize = 0;
            while k < v.len()
                invariant
                    k <= v.len(),
                    out@ == before + v@.take(k as int),
                decreases v.len() - k,
            {
                out.push(v[k]);
                proof {
                    assert(v@.take(k + 1) =~= v@.take(k as int).push(v@[k as int]));
                }
                k = k + 1;
            }
            proof {
                assert(v@.take(v@.len() as int) =~= v@);
                assert(rest.skip(p.len() as int) =~= s@.skip(i + p.len()));
                assert(before + (v@ + replace_all(s@.skip(i + p.len()), p@, v@)) =~= out@
                    + replace_all(s@.skip(i + p.len()), p@, v@));
            }
            i = i + p.len();
        } else {
            out.push(s[i]);
            proof {
                assert(rest.skip(1) =~= s@.skip(i + 1));
                assert(rest[0] == s@[i as int]);
                assert(before + (seq![s@[i as int]] + replace_all(s@.skip(i + 1), p@, v@)) =~= out@
                    + replace_all(s@.skip(i + 1), p@, v@));
            }
            i = i + 1;
        }
    }
    proof {
        assert(s@.skip(i as int) =~= Seq::<char>::empty());
        assert(out@ + Seq::<char>::empty() =~= out@);
    }
    out
}

/// Replaces `$NAME` in `input` by its value, for each `(NAME, value)` of
/// `pairs` in turn, as the REPL expands its variables and then the
/// environment's.
fn substitute_variables(input: &str, pairs: &[(String, String)]) -> (r: String)
    ensures
        r@ == substitute_all(input@, pair_views(pairs@)),
{
    let mut text = chars_of(input);
    let mut i: usize = 0;
    proof {
        assert(pair_views(pairs@).take(0) =~= Seq::<(Seq<char>, Seq<char>)>::empty());
    }
    while i < pairs.len()
        invariant
            i <= pairs@.len(),
            text@ == substitute_all(input@, pair_views(pairs@).take(i as int)),
        decreases pairs@.len() - i,
    {
        let mut pattern: Vec<char> = Vec::new();
        pattern.push('$');
        let name = chars_of(pairs[i].0.as_str());
        let mut k: usize = 0;
        while k < name.len()
            invariant
                k <= name.len(),
                pattern@ == seq!['$'] + name@.take(k as int),
            decreases name.len() - k,
        {
            pattern.push(name[k]);
            proof {
                assert(seq!['$'] + name@.take(k + 1) =~= (seq!['$'] + name@.take(k as int)).push(name@[k as int]));
            }
            k = k + 1;
        }
        let value = chars_of(pairs[i].1.as_str());
        text = replace_chars(&text, &pattern, &value);
        proof {
            assert(name@.take(name@.len() as int) =~= name@);
            let pv = pair_views(pairs@);
            assert(pv.take(i + 1).drop_last() =~= pv.take(i as int));
            assert(pv.take(i + 1).last() == pv[i as int]);
        }
        i = i + 1;
    }
    proof {
        assert(pair_views(pairs@).take(pairs@.len() as int) =~= pair_views(pairs@));
    }
    string_of(&text)
}

/// What `str::to_lowercase` gives for `s`: each character replaced by its
/// full lowercase mapping.
pub uninterp spec fn lowercase_text(s: Seq<char>) -> Seq<char>;

/// Calls `str::to_lowercase`, whose result is named `lowercase_text`.
#[verifier::external_body]
fn str_lowercase(s: &str) -> (r: String)
    ensures
        r@ == lowercase_text(s@),
{
    s.to_lowercase()
}

/// `$NAME` for each of `names` whose lowercase form starts with `p`, in the
/// order given.
pub open spec fn variable_matches(names: Seq<Seq<char>>, p: Seq<char>) -> Seq<Seq<char>>
    decreases names.len(),
{
    if names.len() == 0 {
        Seq::empty()
    } else {
        let rest = variable_matches(names.drop_last(), p);
        if has_prefix(lowercase_text(names.last()), p) {
            rest.push(seq!['$'] + names.last())
        } else {
            rest
        }
    }
}

/// Completes a `$NAME` word ending at `pos` from the variable names
/// `names`, ignoring case: `None` when the word does not start with `$`.
pub fn complete_variables(line: &str, pos: usize, names: &[String]) -> (r: Option<Completions>)
    requires
        is_boundary_in(line@, pos as int),
    ensures
        forall|k: int|
            0 <= k <= line@.len() && offset(line@, k) == pos ==> {
                let w = #[trigger] word_before(line@, k);
                &&& !(w.len() > 0 && w[0] == '$') ==> r is None
                &&& (w.len() > 0 && w[0] == '$') ==> (r matches Some(c) && c.spec_start() == offset(line@, ws_start(line@, k))
                    && c.spec_candidates() == variable_matches(string_views(names@), lowercase_text(w.drop_first())))
            },
{
    let (start, word) = word_at(line, pos);
    let wv = chars_of(word);
    if wv.len() == 0 || wv[0] != '$' {
        return None;
    }
    let (_, rest) = crate::text::split_at_char(word, 1);
    let prefix = str_lowercase(rest);
    let pv = chars_of(prefix.as_str());
    let mut c = Completions::new(start);
    let ghost ns = string_views(names@);
    let mut i: usize = 0;
    proof {
        assert(ns.take(0) =~= Seq::<Seq<char>>::empty());
    }
    while i < names.len()
        invariant
            i <= names@.len(),
            ns == string_views(names@),
            c.spec_start() == start,
            c.spec_candidates() == variable_matches(ns.take(i as int), pv@),
        decreases names@.len() - i,
    {
        let lower = str_lowercase(names[i].as_str());
        let lv = chars_of(lower.as_str());
        proof {
            assert(ns.take(i + 1).drop_last() =~= ns.take(i as int));
            assert(ns.take(i + 1).last() == names@[i as int]@);
        }
        if crate::completion::starts_with_chars(&lv, &pv) {
            let candidate = concat("$", names[i].as_str());
            proof {
                reveal_strlit("$");
                assert(candidate@ =~= seq!['$'] + names@[i as int]@);
            }
            c.add(candidate.as_str());
        }
        i = i + 1;
    }
    proof {
        assert(ns.take(names@.len() as int) =~= ns);
        assert(rest@ == word@.drop_first());
    }
    Some(c)
}

/// Completes the demonstration REPL's commands at the start of a line,
/// `$` variables by name, and file paths elsewhere.
pub struct SmartCompleter {
    /// Completes paths.
    pub file_completer: FileCompleter,
    /// The commands offered in the first word.
    pub commands: Vec<&'static str>,
}

impl SmartCompleter {
    /// A completer for the REPL's built-in commands.
    pub fn new() -> (r: Self)
        ensures
            Seq::new(r.commands@.len(), |i: int| r.commands@[i]@) == builtin_commands(),
            r.file_completer == FileCompleter,
    {
        let commands: Vec<&'static str> = vec![
            "help",
            "exit",
            "quit",
            "history",
            "clear",
            "set",
            "get",
            "echo",
            "cd",
            "pwd",
            "ls",
            "cat",
            "save",
            "load",
            "eval",
            "multiline",
            "unicode-test",
            "config",
            "calc",
            "alias",
            "unalias",
            "bench",
            "debug",
        ];
        proof {
            assert(Seq::new(commands@.len(), |i: int| commands@[i]@) =~= builtin_commands());
        }
        SmartCompleter { file_completer: FileCompleter::new(), commands }
    }
}

} // verus!
