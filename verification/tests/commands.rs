use code2prompt::commands::{keeps_running, parse_line, refusal, Command, HELP_TEXT};

fn args(cmd: &Command) -> Vec<String> {
    match cmd {
        Command::Add(a) | Command::Remove(a) => a.clone(),
        _ => panic!("no arguments"),
    }
}

#[test]
fn parse_add_with_paths() {
    let c = parse_line("add src/main.rs  lib.rs");
    assert!(matches!(c, Command::Add(_)));
    assert_eq!(args(&c), vec!["src/main.rs".to_string(), "lib.rs".to_string()]);
}

#[test]
fn parse_aliases() {
    assert!(matches!(parse_line("a x"), Command::Add(_)));
    assert!(matches!(parse_line("rm x"), Command::Remove(_)));
    assert!(matches!(parse_line("remove x y"), Command::Remove(_)));
    assert!(matches!(parse_line("clear"), Command::Clear));
    assert!(matches!(parse_line("list"), Command::List));
    assert!(matches!(parse_line("ls"), Command::List));
    assert!(matches!(parse_line("show"), Command::Show));
    assert!(matches!(parse_line("copy"), Command::Copy));
    assert!(matches!(parse_line("cp"), Command::Copy));
    assert!(matches!(parse_line("stats"), Command::Stats));
    assert!(matches!(parse_line("stat"), Command::Stats));
    assert!(matches!(parse_line("help"), Command::Help));
    assert!(matches!(parse_line("h"), Command::Help));
    assert!(matches!(parse_line("exit"), Command::Exit));
    assert!(matches!(parse_line("quit"), Command::Exit));
    assert!(matches!(parse_line("q"), Command::Exit));
}

#[test]
fn parse_ignores_case_of_command() {
    assert!(matches!(parse_line("ADD x"), Command::Add(_)));
    assert!(matches!(parse_line("Ls"), Command::List));
    assert!(matches!(parse_line("QuIt"), Command::Exit));
    assert_eq!(args(&parse_line("Add Foo.RS")), vec!["Foo.RS".to_string()]);
}

#[test]
fn parse_surrounding_and_inner_whitespace() {
    let c = parse_line("  \t add   a\tb  \n");
    assert_eq!(args(&c), vec!["a".to_string(), "b".to_string()]);
    assert!(matches!(parse_line("   show   "), Command::Show));
}

#[test]
fn parse_without_arguments() {
    assert_eq!(args(&parse_line("add")), Vec::<String>::new());
    assert_eq!(args(&parse_line("remove")), Vec::<String>::new());
}

#[test]
fn parse_unknown_keeps_trimmed_line() {
    match parse_line("  frobnicate  the  thing ") {
        Command::Unknown(s) => assert_eq!(s, "frobnicate  the  thing"),
        _ => panic!("expected unknown"),
    }
    match parse_line("") {
        Command::Unknown(s) => assert_eq!(s, ""),
        _ => panic!("expected unknown"),
    }
    match parse_line("   ") {
        Command::Unknown(s) => assert_eq!(s, ""),
        _ => panic!("expected unknown"),
    }
    // A prefix of a command name is not the command.
    assert!(matches!(parse_line("lis"), Command::Unknown(_)));
    assert!(matches!(parse_line("adds x"), Command::Unknown(_)));
}

#[test]
fn parse_non_ascii_is_not_a_command() {
    // A dotted capital I lower-cases to two characters, and the Kelvin
    // sign lower-cases to `k`, which names no command.
    assert!(matches!(parse_line("L\u{130}ST"), Command::Unknown(_)));
    assert!(matches!(parse_line("\u{212A}"), Command::Unknown(_)));
}

#[test]
fn parse_law_surrounding_space_does_not_matter() {
    for line in ["add a b", "LS", "nope x", "", "q", "rm  x"] {
        let padded = format!(" \t{}\u{3000} \n", line);
        let a = parse_line(line);
        let b = parse_line(&padded);
        match (a, b) {
            (Command::Add(x), Command::Add(y)) | (Command::Remove(x), Command::Remove(y)) => assert_eq!(x, y),
            (Command::Unknown(x), Command::Unknown(y)) => assert_eq!(x, y),
            (Command::List, Command::List) | (Command::Exit, Command::Exit) => {}
            _ => panic!("different commands for {:?}", line),
        }
    }
}

#[test]
fn refusal_messages() {
    assert_eq!(refusal(&parse_line("add")), Some("Usage: add <path...>".to_string()));
    assert_eq!(refusal(&parse_line("rm")), Some("Usage: remove <path...>".to_string()));
    assert_eq!(
        refusal(&parse_line(" hello world ")),
        Some("Unknown command: 'hello world'. Type 'help'.".to_string())
    );
    assert_eq!(refusal(&parse_line("add x")), None);
    assert_eq!(refusal(&parse_line("remove x")), None);
    assert_eq!(refusal(&parse_line("list")), None);
    assert_eq!(refusal(&parse_line("exit")), None);
}

#[test]
fn only_exit_ends_the_session() {
    assert!(!keeps_running(&parse_line("exit")));
    assert!(!keeps_running(&parse_line("q")));
    for line in ["add x", "rm x", "clear", "ls", "show", "cp", "stats", "h", "what"] {
        assert!(keeps_running(&parse_line(line)), "{}", line);
    }
}

#[test]
fn help_lists_every_command() {
    assert!(HELP_TEXT.starts_with("Commands:\n"));
    for name in ["add", "remove", "clear", "list (ls)", "show", "copy (cp)", "stats", "help (h)", "exit (quit/q)"] {
        assert!(HELP_TEXT.contains(name), "{}", name);
    }
    assert_eq!(HELP_TEXT.lines().count(), 10);
}

#[test]
fn law_command_depends_on_words() {
    for (a, b) in [("add  x\t y", "add x y"), ("rm\u{2003}a", "rm a"), ("  ls  ", "ls")] {
        match (parse_line(a), parse_line(b)) {
            (Command::Add(x), Command::Add(y)) | (Command::Remove(x), Command::Remove(y)) => assert_eq!(x, y),
            (Command::List, Command::List) => {}
            _ => panic!("different commands for {:?}", a),
        }
    }
    // An unknown command keeps its spacing.
    match (parse_line("foo  bar"), parse_line("foo bar")) {
        (Command::Unknown(x), Command::Unknown(y)) => assert_ne!(x, y),
        _ => panic!("expected unknown"),
    }
}
