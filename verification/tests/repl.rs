use rustline::repl::{
    complete_variables, parse_command, process_multiline, words_of, CommandProblem, ReplCommand, ReplState, SmartCompleter,
    Table, UsageOf,
};

#[test]
fn test_variable_expansion() {
    let mut state = ReplState::new();
    state.variables.insert("TEST".to_string(), "value".to_string());

    let result = state.expand_variables("Hello $TEST", &[]);
    assert_eq!(result, "Hello value");

    let result = state.expand_variables("No variables here", &[]);
    assert_eq!(result, "No variables here");
}

#[test]
fn variables_expand_before_the_environment() {
    let mut state = ReplState::new();
    state.variables.insert("HOME".to_string(), "/repl".to_string());
    let env = vec![
        ("HOME".to_string(), "/env".to_string()),
        ("USER".to_string(), "ann".to_string()),
    ];
    assert_eq!(state.expand_variables("$HOME/$USER $HOME", &env), "/repl/ann /repl");
    assert_eq!(state.expand_variables("$TESTING $USER$USER", &env), "$TESTING annann");
    assert_eq!(state.expand_variables("", &env), "");
}

#[test]
fn variable_expansion_replaces_prefixes_of_longer_names() {
    let mut state = ReplState::new();
    state.variables.insert("A".to_string(), "x".to_string());
    state.variables.insert("AB".to_string(), "y".to_string());
    assert_eq!(state.expand_variables("$AB $A", &[]), "xB x");
    let env = vec![("X".to_string(), "$X".to_string())];
    assert_eq!(state.expand_variables("$X$X", &env), "$X$X");
}

#[test]
fn test_alias_expansion() {
    let mut state = ReplState::new();
    state.aliases.insert("ll".to_string(), "ls -la".to_string());

    let result = state.expand_aliases("ll /tmp");
    assert_eq!(result, "ls -la /tmp");

    let result = state.expand_aliases("ls /tmp");
    assert_eq!(result, "ls /tmp");
}

#[test]
fn an_alias_alone_expands_whole() {
    let mut state = ReplState::new();
    state.aliases.insert("ll".to_string(), "ls -la".to_string());
    assert_eq!(state.expand_aliases("ll"), "ls -la");
    assert_eq!(state.expand_aliases("llama"), "llama");
}

#[test]
fn commands_are_split_into_words_and_counted() {
    let mut state = ReplState::new();
    state.aliases.insert("greet".to_string(), "echo hello".to_string());
    assert_eq!(state.command_words("greet   world \t"), ["echo", "hello", "world"]);
    assert_eq!(state.command_count, 1);
    // Only a first word that starts the line is an alias.
    assert_eq!(state.command_words("  greet"), ["greet"]);
    assert_eq!(state.command_count, 2);
    assert!(state.command_words("   ").is_empty());
    assert_eq!(state.command_count, 2);
    assert_eq!(words_of("a  bé\tc"), ["a", "bé", "c"]);
}

#[test]
fn tables_replace_and_remove_bindings() {
    let mut t = Table::new();
    assert_eq!(t.insert("a".to_string(), "1".to_string()), None);
    assert_eq!(t.insert("b".to_string(), "2".to_string()), None);
    assert_eq!(t.insert("a".to_string(), "3".to_string()), Some("1".to_string()));
    assert_eq!(t.get("a"), Some("3"));
    assert_eq!(t.remove("a"), Some("3".to_string()));
    assert_eq!(t.get("a"), None);
    assert_eq!(t.get("b"), Some("2"));
    assert_eq!(t.remove("zz"), None);
}

#[test]
fn a_blank_line_runs_the_block() {
    let mut block = Vec::new();
    assert_eq!(process_multiline("fn f() {", &mut block), None);
    assert_eq!(process_multiline("  body", &mut block), None);
    assert_eq!(process_multiline("}", &mut block), None);
    assert_eq!(process_multiline("   ", &mut block), Some("fn f() {\n  body\n}".to_string()));
    assert!(block.is_empty());
    assert_eq!(process_multiline("", &mut block), Some(String::new()));
}

#[test]
fn the_smart_completer_knows_the_builtin_commands() {
    let c = SmartCompleter::new();
    assert_eq!(c.commands.len(), 23);
    assert!(c.commands.contains(&"unicode-test"));
}

fn words(s: &str) -> Vec<String> {
    words_of(s)
}

#[test]
fn commands_are_read_with_their_arguments() {
    assert_eq!(parse_command(&words("")), None);
    assert_eq!(parse_command(&words("quit")), Some(Ok(ReplCommand::Exit)));
    assert_eq!(parse_command(&words("exit now")), Some(Ok(ReplCommand::Exit)));
    assert_eq!(
        parse_command(&words("set greeting hello  big world")),
        Some(Ok(ReplCommand::SetVar("greeting".to_string(), "hello big world".to_string())))
    );
    assert_eq!(parse_command(&words("get")), Some(Ok(ReplCommand::Get(None))));
    assert_eq!(
        parse_command(&words("get HOME")),
        Some(Ok(ReplCommand::Get(Some("HOME".to_string()))))
    );
    assert_eq!(parse_command(&words("echo")), Some(Ok(ReplCommand::Echo(String::new()))));
    assert_eq!(
        parse_command(&words("echo a b")),
        Some(Ok(ReplCommand::Echo("a b".to_string())))
    );
    assert_eq!(parse_command(&words("cd")), Some(Ok(ReplCommand::Cd(None))));
    assert_eq!(
        parse_command(&words("ls /tmp extra")),
        Some(Ok(ReplCommand::Ls(Some("/tmp".to_string()))))
    );
    assert_eq!(
        parse_command(&words("alias ll ls -la")),
        Some(Ok(ReplCommand::Alias("ll".to_string(), "ls -la".to_string())))
    );
    assert_eq!(
        parse_command(&words("alias ll")),
        Some(Ok(ReplCommand::ShowAlias("ll".to_string())))
    );
    assert_eq!(parse_command(&words("alias")), Some(Ok(ReplCommand::ListAliases)));
    assert_eq!(
        parse_command(&words("calc 2 + 2")),
        Some(Ok(ReplCommand::Calc("2 + 2".to_string())))
    );
    assert_eq!(parse_command(&words("unicode-test")), Some(Ok(ReplCommand::UnicodeTest)));
}

#[test]
fn short_or_unknown_commands_are_refused() {
    assert_eq!(
        parse_command(&words("set x")),
        Some(Err(CommandProblem::Usage(UsageOf::SetVar)))
    );
    assert_eq!(parse_command(&words("cat")), Some(Err(CommandProblem::Usage(UsageOf::Cat))));
    assert_eq!(
        parse_command(&words("unalias")),
        Some(Err(CommandProblem::Usage(UsageOf::Unalias)))
    );
    assert_eq!(parse_command(&words("calc")), Some(Err(CommandProblem::Usage(UsageOf::Calc))));
    assert_eq!(parse_command(&words("eval")), Some(Err(CommandProblem::Usage(UsageOf::Eval))));
    assert_eq!(
        parse_command(&words("frobnicate now")),
        Some(Err(CommandProblem::Unknown("frobnicate".to_string())))
    );
    assert_eq!(
        parse_command(&words("Exit")),
        Some(Err(CommandProblem::Unknown("Exit".to_string())))
    );
}

#[test]
fn variables_complete_by_name_ignoring_case() {
    let names: Vec<String> = ["HOME", "PATH", "hostname"].iter().map(|s| s.to_string()).collect();
    let c = complete_variables("echo $ho", 8, &names).unwrap();
    assert_eq!(c.start(), 5);
    assert_eq!(c.candidates(), ["$HOME", "$hostname"]);
    let c = complete_variables("echo $", 6, &names).unwrap();
    assert_eq!(c.candidates(), ["$HOME", "$PATH", "$hostname"]);
    assert!(complete_variables("echo ho", 7, &names).is_none());
    assert!(complete_variables("echo $ho x", 10, &names).is_none());
}
