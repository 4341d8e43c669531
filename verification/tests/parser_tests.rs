use shell::parser::{parse_command, split_commands, stage_words, Builtin, Cmd, CommandLine};

fn strs(v: &[&str]) -> Vec<String> {
    v.iter().map(|s| s.to_string()).collect()
}

fn toks(line: &str) -> Vec<String> {
    parse_command(line, "/home/user")
}

#[test]
fn words_are_split_on_spaces() {
    assert_eq!(toks("echo hello world"), strs(&["echo", "hello", "world"]));
    assert_eq!(toks("   echo    hello   "), strs(&["echo", "hello"]));
}

#[test]
fn plain_words_law_example() {
    // a line of plain words: the non-empty space-separated pieces
    assert_eq!(toks("a  bb   ccc d"), strs(&["a", "bb", "ccc", "d"]));
}

#[test]
fn tabs_do_not_separate_inside_line() {
    assert_eq!(toks("a\tb"), strs(&["a\tb"]));
    // but the line is trimmed of all white space
    assert_eq!(toks("\t a \t"), strs(&["a"]));
}

#[test]
fn single_quotes_are_literal() {
    assert_eq!(toks("echo 'a  b'"), strs(&["echo", "a  b"]));
    assert_eq!(toks("echo 'a \\ \" ~ > |'"), strs(&["echo", "a \\ \" ~ > |"]));
    assert_eq!(toks("'x y'"), strs(&["x y"]));
    assert_eq!(toks("''"), Vec::<String>::new());
}

#[test]
fn quotes_join_with_neighbours() {
    assert_eq!(toks("ab'c d'e"), strs(&["abc de"]));
    assert_eq!(toks("a\"b c\"d"), strs(&["ab cd"]));
}

#[test]
fn double_quotes_honour_backslash() {
    assert_eq!(toks("echo \"a\\\"b\""), strs(&["echo", "a\"b"]));
    assert_eq!(toks("echo \"x  y\""), strs(&["echo", "x  y"]));
}

#[test]
fn backslash_escapes_outside_quotes() {
    assert_eq!(toks("a\\ b"), strs(&["a b"]));
    assert_eq!(toks("a\\'b"), strs(&["a'b"]));
    // a trailing backslash escapes nothing
    assert_eq!(toks("ab\\"), strs(&["ab"]));
}

#[test]
fn tilde_is_home() {
    assert_eq!(toks("ls ~/src"), strs(&["ls", "/home/user/src"]));
    assert_eq!(parse_command("cd ~", ""), strs(&["cd"]));
}

#[test]
fn redirections_are_tokens() {
    assert_eq!(toks("echo hi > out"), strs(&["echo", "hi", ">", "out"]));
    assert_eq!(toks("echo hi>out"), strs(&["echo", "hi", ">", "out"]));
    assert_eq!(toks("echo hi >> out"), strs(&["echo", "hi", ">>", "out"]));
    assert_eq!(toks("echo hi 1>out"), strs(&["echo", "hi", "1>", "out"]));
    assert_eq!(toks("echo hi 1>>out"), strs(&["echo", "hi", "1>>", "out"]));
    assert_eq!(toks("cat x 2>err"), strs(&["cat", "x", "2>", "err"]));
    assert_eq!(toks("cat x 3>err"), strs(&["cat", "x", "3", ">", "err"]));
    assert_eq!(toks("cat <in"), strs(&["cat", "<", "in"]));
    assert_eq!(toks("cat 0<in"), strs(&["cat", "0<", "in"]));
    assert_eq!(toks("cat <<in"), strs(&["cat", "<<", "in"]));
}

#[test]
fn pipes_are_tokens() {
    assert_eq!(toks("ls | wc"), strs(&["ls", "|", "wc"]));
    assert_eq!(toks("ls|wc -l"), strs(&["ls", "|", "wc", "-l"]));
    assert_eq!(toks("a||b"), strs(&["a", "|", "|", "b"]));
}

#[test]
fn tokens_are_never_empty() {
    for line in ["", "   ", "'' \"\" ''", "a '' b", "> |"] {
        for t in toks(line) {
            assert!(!t.is_empty(), "empty token in {:?}", line);
        }
    }
}

#[test]
fn resolve_builtins_and_programs() {
    assert!(matches!(Cmd::resolve("echo", None), Cmd::Builtin(Builtin::Echo)));
    assert!(matches!(Cmd::resolve("jobs", Some("/bin/jobs".to_string())), Cmd::Builtin(Builtin::Jobs)));
    match Cmd::resolve("ls", Some("/bin/ls".to_string())) {
        Cmd::External(e) => {
            assert_eq!(e.name, "ls");
            assert_eq!(e.path, "/bin/ls");
        }
        other => panic!("unexpected {:?}", other),
    }
    match Cmd::resolve("nope", None) {
        Cmd::Unknown(n) => assert_eq!(n, "nope"),
        other => panic!("unexpected {:?}", other),
    }
    assert_eq!(Builtin::from_name("complete"), Some(Builtin::Complete));
    assert_eq!(Builtin::from_name("Complete"), None);
}

#[test]
fn command_line_new() {
    let cl = CommandLine::new(strs(&["grep", "-i", "x"]), "grep -i x", true, Some("/bin/grep".to_string()));
    assert!(matches!(cl.cmd, Cmd::External(_)));
    assert_eq!(cl.tokens, strs(&["-i", "x"]));
    assert_eq!(cl.origin, "grep -i x");
    assert!(!cl.run_in_bg);
    assert!(cl.has_next_in_pipeline);
    let empty = CommandLine::new(Vec::new(), "", false, None);
    match empty.cmd {
        Cmd::Unknown(n) => assert_eq!(n, ""),
        other => panic!("unexpected {:?}", other),
    }
    assert!(empty.tokens.is_empty());
}

#[test]
fn flags() {
    let cl = CommandLine::new(strs(&["complete", "-C", "/c/prog", "git", "-p"]), "", false, None);
    assert_eq!(cl.find_flag("-C"), Some(&"/c/prog".to_string()));
    assert_eq!(cl.find_flag("-p"), None);
    assert_eq!(cl.find_flag("-x"), None);
    assert_eq!(cl.find_flag_double("-C"), Some((&"/c/prog".to_string(), &"git".to_string())));
    assert_eq!(cl.find_flag_double("git"), None);
    assert!(cl.find_bool_flag("-p"));
    assert!(!cl.find_bool_flag("-r"));
}

#[test]
fn flags_use_first_occurrence() {
    let cl = CommandLine::new(strs(&["x", "-r", "a", "-r", "b"]), "", false, None);
    assert_eq!(cl.find_flag("-r"), Some(&"a".to_string()));
}

#[test]
fn background_marker() {
    let mut cl = CommandLine::new(strs(&["sleep", "5", "&"]), "sleep 5 &", false, None);
    cl.enable_bg();
    assert!(cl.run_in_bg);
    assert_eq!(cl.tokens, strs(&["5"]));
    let mut fg = CommandLine::new(strs(&["sleep", "5"]), "sleep 5", false, None);
    fg.run_in_bg = true;
    fg.enable_bg();
    assert!(!fg.run_in_bg);
    assert_eq!(fg.tokens, strs(&["5"]));
}

#[test]
fn pipeline_split() {
    let tokens = strs(&["ls", "-l", "|", "wc", "-c"]);
    assert_eq!(stage_words(&tokens), strs(&["ls", "wc"]));
    let found = vec![Some("/bin/ls".to_string()), Some("/usr/bin/wc".to_string())];
    let stages = split_commands(tokens, "ls -l | wc -c", &found);
    assert_eq!(stages.len(), 2);
    assert_eq!(stages[0].tokens, strs(&["-l"]));
    assert_eq!(stages[0].origin, "ls -l ");
    assert!(stages[0].has_next_in_pipeline);
    match &stages[1].cmd {
        Cmd::External(e) => assert_eq!(e.path, "/usr/bin/wc"),
        other => panic!("unexpected {:?}", other),
    }
    assert_eq!(stages[1].tokens, strs(&["-c"]));
    assert_eq!(stages[1].origin, " wc -c");
    assert!(!stages[1].has_next_in_pipeline);
}

#[test]
fn pipeline_skips_empty_stages() {
    let tokens = strs(&["|", "echo", "a", "|", "|", "cat", "|"]);
    let stages = split_commands(tokens, "| echo a || cat |", &Vec::new());
    assert_eq!(stages.len(), 2);
    assert!(matches!(stages[0].cmd, Cmd::Builtin(Builtin::Echo)));
    // origins are handed out in order to the stages that exist
    assert_eq!(stages[0].origin, "");
    assert_eq!(stages[1].origin, " echo a ");
    assert!(stages[0].has_next_in_pipeline);
    assert!(stages[1].has_next_in_pipeline);
    match &stages[1].cmd {
        Cmd::Unknown(n) => assert_eq!(n, "cat"),
        other => panic!("unexpected {:?}", other),
    }
}

#[test]
fn pipeline_of_nothing() {
    assert!(split_commands(Vec::new(), "", &Vec::new()).is_empty());
    assert!(split_commands(strs(&["|"]), "|", &Vec::new()).is_empty());
}

#[test]
fn stages_hold_all_non_bar_tokens() {
    let tokens = strs(&["a", "1", "|", "|", "b", "|", "c", "2", "3"]);
    let stages = split_commands(tokens.clone(), "a 1 || b | c 2 3", &Vec::new());
    let mut all: Vec<String> = Vec::new();
    for (i, st) in stages.iter().enumerate() {
        let word = match &st.cmd {
            Cmd::Unknown(n) => n.clone(),
            other => panic!("unexpected {:?}", other),
        };
        all.push(word);
        all.extend(st.tokens.iter().cloned());
        assert_eq!(st.has_next_in_pipeline, i + 1 < stages.len());
    }
    let expected: Vec<String> = tokens.into_iter().filter(|t| t != "|").collect();
    assert_eq!(all, expected);
}

#[test]
fn escaped_operator_is_literal() {
    assert_eq!(toks("\\|"), strs(&["|"]));
    assert_eq!(toks("\\>"), strs(&["\u{3e}"]));
    assert_eq!(toks("\\~"), strs(&["~"]));
    assert_eq!(toks("~"), strs(&["/home/user"]));
    assert_eq!(parse_command("~", ""), Vec::<String>::new());
}
