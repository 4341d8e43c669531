use shell::builtins::{command_not_found, run_builtin, Action, Completions};
use shell::parser::{Builtin, CommandLine};

fn line(tokens: &[&str]) -> CommandLine {
    CommandLine::new(tokens.iter().map(|s| s.to_string()).collect(), "", false, None)
}

#[test]
fn echo_joins_arguments() {
    let mut c = Completions::new();
    let r = run_builtin(&Builtin::Echo, &line(&["echo", "a", "b  c"]), &mut c, None);
    assert_eq!(r.out, vec!["a b  c".to_string()]);
    assert!(r.err.is_empty());
    assert!(matches!(r.action, Action::Nothing));
    let r = run_builtin(&Builtin::Echo, &line(&["echo"]), &mut c, None);
    assert_eq!(r.out, vec!["".to_string()]);
}

#[test]
fn type_reports() {
    let mut c = Completions::new();
    let r = run_builtin(&Builtin::Type, &line(&["type", "cd"]), &mut c, None);
    assert_eq!(r.out, vec!["cd is a shell builtin".to_string()]);
    let r = run_builtin(&Builtin::Type, &line(&["type", "ls"]), &mut c, Some("/bin/ls".to_string()));
    assert_eq!(r.out, vec!["ls is /bin/ls".to_string()]);
    let r = run_builtin(&Builtin::Type, &line(&["type", "nosuch"]), &mut c, None);
    assert_eq!(r.out, vec!["nosuch not found".to_string()]);
    let r = run_builtin(&Builtin::Type, &line(&["type"]), &mut c, None);
    assert_eq!(r.out, vec!["".to_string()]);
}

#[test]
fn actions() {
    let mut c = Completions::new();
    assert!(matches!(run_builtin(&Builtin::Exit, &line(&["exit"]), &mut c, None).action, Action::Exit));
    assert!(matches!(run_builtin(&Builtin::Pwd, &line(&["pwd"]), &mut c, None).action, Action::PrintWorkingDir));
    match run_builtin(&Builtin::Cd, &line(&["cd", "/tmp"]), &mut c, None).action {
        Action::ChangeDir(p) => assert_eq!(p, "/tmp"),
        other => panic!("unexpected {:?}", other),
    }
    assert!(matches!(run_builtin(&Builtin::Cd, &line(&["cd"]), &mut c, None).action, Action::Nothing));
    let r = run_builtin(&Builtin::Jobs, &line(&["jobs"]), &mut c, None);
    assert!(r.out.is_empty() && r.err.is_empty());
}

#[test]
fn complete_register_query_remove() {
    let mut c = Completions::new();
    let r = run_builtin(&Builtin::Complete, &line(&["complete", "-p", "git"]), &mut c, None);
    assert_eq!(r.err, vec!["complete: git: no completion specification".to_string()]);
    assert!(r.out.is_empty());
    run_builtin(&Builtin::Complete, &line(&["complete", "-C", "/usr/bin/gitc", "git"]), &mut c, None);
    assert_eq!(c.get("git"), Some("/usr/bin/gitc".to_string()));
    let r = run_builtin(&Builtin::Complete, &line(&["complete", "-p", "git"]), &mut c, None);
    assert_eq!(r.err, vec!["complete -C '/usr/bin/gitc' git".to_string()]);
    // a later registration replaces the earlier one
    run_builtin(&Builtin::Complete, &line(&["complete", "-C", "/opt/g", "git"]), &mut c, None);
    assert_eq!(c.get("git"), Some("/opt/g".to_string()));
    run_builtin(&Builtin::Complete, &line(&["complete", "-r", "git"]), &mut c, None);
    assert_eq!(c.get("git"), None);
    let r = run_builtin(&Builtin::Complete, &line(&["complete", "-p", "git"]), &mut c, None);
    assert_eq!(r.err, vec!["complete: git: no completion specification".to_string()]);
}

#[test]
fn complete_reports_before_changing() {
    let mut c = Completions::new();
    let r = run_builtin(&Builtin::Complete, &line(&["complete", "-p", "x", "-C", "/p", "x"]), &mut c, None);
    assert_eq!(r.err, vec!["complete: x: no completion specification".to_string()]);
    assert_eq!(c.get("x"), Some("/p".to_string()));
}

#[test]
fn completions_table() {
    let mut c = Completions::new();
    c.insert("a".to_string(), "1".to_string());
    c.insert("b".to_string(), "2".to_string());
    c.remove("a");
    c.remove("zzz");
    assert_eq!(c.get("a"), None);
    assert_eq!(c.get("b"), Some("2".to_string()));
}

#[test]
fn not_found_message() {
    assert_eq!(command_not_found("frob"), "frob: command not found");
}

#[test]
fn error_lines() {
    assert_eq!(shell::builtins::cd_error_line("/nope"), "cd: /nope: No such file or directory");
    assert_eq!(shell::builtins::pwd_error_line(), "should not happen");
}
