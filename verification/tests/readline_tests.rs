use shell::builtins::Completions;
use shell::readline::{
    completer_args, completer_candidates, file_matches, plan_completion, prepare_commands,
    CommandHelper, CompletionPlan, EntryKind,
};

fn strs(v: &[&str]) -> Vec<String> {
    v.iter().map(|s| s.to_string()).collect()
}

/// The argument selection written with `str` slicing on byte offsets.
fn reference_args(line: &str, cmd_end: usize, cursor: usize) -> (String, String, String) {
    let cmd_name = &line[0..cmd_end];
    let curr_start = match (&line[..cursor]).rfind(' ') {
        Some(i) => i + 1,
        None => 0,
    };
    let curr_end = match (&line[cursor..]).find(' ') {
        Some(i) => i + cursor,
        None => cursor,
    };
    let curr = &line[curr_start..curr_end];
    let last_end = match curr_start {
        0 => 0,
        i => i - 1,
    };
    let mut last_start = match (&line[..last_end]).rfind(' ') {
        Some(i) => i + 1,
        None => 0,
    };
    if last_start <= cmd_end {
        last_start = last_end;
    }
    let last = &line[last_start..last_end];
    (cmd_name.to_string(), curr.to_string(), last.to_string())
}

#[test]
fn command_list_is_sorted_union() {
    let r = prepare_commands(strs(&["ls", "cat", "echo", "ls"]));
    assert_eq!(r, strs(&["cat", "cd", "complete", "echo", "exit", "ls", "pwd", "type"]));
    let r = prepare_commands(Vec::new());
    assert_eq!(r, strs(&["cd", "complete", "echo", "exit", "pwd", "type"]));
}

#[test]
fn command_list_order_is_by_code_point() {
    let r = prepare_commands(strs(&["Zed", "é", "a-b", "ab", "a"]));
    let mut expected = strs(&["Zed", "é", "a-b", "ab", "a", "cd", "complete", "echo", "exit", "pwd", "type"]);
    expected.sort();
    expected.dedup();
    assert_eq!(r, expected);
}

#[test]
fn helper_refreshes_only_on_new_path() {
    let mut h = CommandHelper::new();
    assert!(h.needs_update("/bin"));
    h.update_commands("/bin", strs(&["ls", "less"]));
    assert!(!h.needs_update("/bin"));
    assert_eq!(h.complete_command("l"), strs(&["less ", "ls "]));
    assert_eq!(h.complete_command("e"), strs(&["echo ", "exit "]));
    assert_eq!(h.complete_command("zz"), Vec::<String>::new());
    // same path: the list is kept
    h.update_commands("/bin", strs(&["other"]));
    assert_eq!(h.complete_command("o"), Vec::<String>::new());
    h.update_commands("/usr/bin", strs(&["other"]));
    assert_eq!(h.complete_command("o"), strs(&["other "]));
    assert_eq!(h.complete_command("").len(), 7);
}

#[test]
fn file_matches_sorted() {
    let entries = vec![
        ("src".to_string(), EntryKind::Dir),
        ("README".to_string(), EntryKind::File),
        ("sock".to_string(), EntryKind::Other),
        ("setup.sh".to_string(), EntryKind::File),
        ("build".to_string(), EntryKind::Dir),
    ];
    assert_eq!(file_matches(&entries, "s"), strs(&["setup.sh ", "src/"]));
    assert_eq!(file_matches(&entries, ""), strs(&["README ", "build/", "setup.sh ", "src/"]));
    assert_eq!(file_matches(&entries, "x"), Vec::<String>::new());
}

#[test]
fn completer_output_words() {
    assert_eq!(completer_candidates("checkout  cherry-pick\nclone\t\n"), strs(&["checkout ", "cherry-pick ", "clone "]));
    assert_eq!(completer_candidates(""), Vec::<String>::new());
    assert_eq!(completer_candidates(" \u{3000}a\u{a0}b "), strs(&["a ", "b "]));
}

#[test]
fn completer_args_match_reference() {
    let cases = [
        ("git ch", 3, 6),
        ("git checkout ma", 3, 15),
        ("git checkout ma rest", 3, 15),
        ("git checkout", 3, 4),
        ("git ", 3, 4),
        ("git remote add or", 3, 17),
        ("gït rémote ädd ör", 4, 21),
        ("git  x", 3, 6),
    ];
    for (l, ce, cur) in cases {
        assert_eq!(completer_args(l, ce, cur), reference_args(l, ce, cur), "line {:?}", l);
    }
    assert_eq!(completer_args("git remote add or", 3, 17), ("git".to_string(), "or".to_string(), "add".to_string()));
    assert_eq!(completer_args("git checkout", 3, 12), ("git".to_string(), "checkout".to_string(), "".to_string()));
}

#[test]
fn plan_command_name() {
    let c = Completions::new();
    match plan_completion("ec", 2, &c) {
        (0, CompletionPlan::Command { prefix }) => assert_eq!(prefix, "ec"),
        other => panic!("unexpected {:?}", other),
    }
    match plan_completion("echo hi", 2, &c) {
        (0, CompletionPlan::Command { prefix }) => assert_eq!(prefix, "ec"),
        other => panic!("unexpected {:?}", other),
    }
}

#[test]
fn plan_file_name() {
    let c = Completions::new();
    match plan_completion("cat sr", 6, &c) {
        (4, CompletionPlan::File { dir, prefix }) => {
            assert_eq!(dir, "");
            assert_eq!(prefix, "sr");
        }
        other => panic!("unexpected {:?}", other),
    }
    match plan_completion("cat src/ma", 10, &c) {
        (8, CompletionPlan::File { dir, prefix }) => {
            assert_eq!(dir, "src/");
            assert_eq!(prefix, "ma");
        }
        other => panic!("unexpected {:?}", other),
    }
    match plan_completion("cat /usr/lib/", 13, &c) {
        (13, CompletionPlan::File { dir, prefix }) => {
            assert_eq!(dir, "/usr/lib/");
            assert_eq!(prefix, "");
        }
        other => panic!("unexpected {:?}", other),
    }
}

#[test]
fn plan_file_name_with_multibyte_text() {
    let c = Completions::new();
    let line = "cät dé/fö";
    let pos = line.len();
    match plan_completion(line, pos, &c) {
        (start, CompletionPlan::File { dir, prefix }) => {
            assert_eq!(start, line.find('f').unwrap());
            assert_eq!(dir, "dé/");
            assert_eq!(prefix, "fö");
        }
        other => panic!("unexpected {:?}", other),
    }
}

#[test]
fn plan_registered_completer() {
    let mut c = Completions::new();
    c.insert("git".to_string(), "/opt/gitc".to_string());
    match plan_completion("git che", 7, &c) {
        (4, CompletionPlan::Completer { program, cmd_end }) => {
            assert_eq!(program, "/opt/gitc");
            assert_eq!(cmd_end, 3);
        }
        other => panic!("unexpected {:?}", other),
    }
    // the first word alone is still a command name
    match plan_completion("gi", 2, &c) {
        (0, CompletionPlan::Command { prefix }) => assert_eq!(prefix, "gi"),
        other => panic!("unexpected {:?}", other),
    }
}
