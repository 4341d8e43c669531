use shell::env_custom::{create_env, Env};

fn pairs(v: &[(&str, &str)]) -> Vec<(String, String)> {
    v.iter().map(|(a, b)| (a.to_string(), b.to_string())).collect()
}

#[test]
fn env_from_process_is_exported() {
    let env = create_env(pairs(&[("HOME", "/home/u"), ("PATH", "/bin:/usr/bin")]));
    assert_eq!(env.get("HOME"), Some("/home/u".to_string()));
    assert_eq!(env.home(), "/home/u");
    assert_eq!(env.path(), "/bin:/usr/bin");
    let mut ex = env.exported_vars();
    ex.sort();
    assert_eq!(ex, pairs(&[("HOME", "/home/u"), ("PATH", "/bin:/usr/bin")]));
}

#[test]
fn later_pair_wins() {
    let env = create_env(pairs(&[("A", "1"), ("A", "2")]));
    assert_eq!(env.get("A"), Some("2".to_string()));
    assert_eq!(env.exported_vars(), pairs(&[("A", "2")]));
}

#[test]
fn defaults_when_unset() {
    let env = Env::new();
    assert_eq!(env.home(), "/");
    assert_eq!(env.path(), "");
    assert_eq!(env.get("HOME"), None);
    assert_eq!(env.current_dir(), None);
}

#[test]
fn read_after_write_and_export_flag() {
    let mut env = create_env(pairs(&[("X", "old")]));
    env.set_var("X".to_string(), "new");
    env.set_var("LOCAL".to_string(), "v");
    assert_eq!(env.get("X"), Some("new".to_string()));
    assert_eq!(env.get("LOCAL"), Some("v".to_string()));
    // X stays exported, LOCAL is not exported until asked
    assert_eq!(env.exported_vars(), pairs(&[("X", "new")]));
    env.export("LOCAL".to_string());
    env.export("MISSING".to_string());
    assert_eq!(env.get("MISSING"), None);
    let mut ex = env.exported_vars();
    ex.sort();
    assert_eq!(ex, pairs(&[("LOCAL", "v"), ("X", "new")]));
}

#[test]
fn set_keeps_other_variables() {
    let mut env = create_env(pairs(&[("A", "1"), ("B", "2")]));
    env.set_var("A".to_string(), "3");
    assert_eq!(env.get("B"), Some("2".to_string()));
}

#[test]
fn change_directory_records_old_one() {
    let mut env = Env::new();
    assert_eq!(env.set_current_dir("/tmp"), Ok(()));
    assert_eq!(env.current_dir(), Some("/tmp".to_string()));
    assert_eq!(env.get("OLDPWD"), None);
    assert_eq!(env.set_current_dir("/usr"), Ok(()));
    assert_eq!(env.current_dir(), Some("/usr".to_string()));
    assert_eq!(env.get("OLDPWD"), Some("/tmp".to_string()));
}

#[test]
fn exit_status_in_question_mark() {
    let mut env = Env::new();
    env.update_after_command(0);
    assert_eq!(env.get("?"), Some("0".to_string()));
    env.update_after_command(127);
    assert_eq!(env.get("?"), Some("127".to_string()));
    env.update_after_command(-1);
    assert_eq!(env.get("?"), Some("-1".to_string()));
    env.update_after_command(i32::MIN);
    assert_eq!(env.get("?"), Some(i32::MIN.to_string()));
    env.update_after_command(i32::MAX);
    assert_eq!(env.get("?"), Some(i32::MAX.to_string()));
}

#[test]
fn variables_are_never_removed() {
    let mut env = create_env(pairs(&[("A", "1")]));
    env.set_var("B".to_string(), "2");
    env.export("A".to_string());
    env.set_current_dir("/x").unwrap();
    env.update_after_command(3);
    assert_eq!(env.get("A"), Some("1".to_string()));
    assert_eq!(env.get("B"), Some("2".to_string()));
    assert_eq!(env.get("never"), None);
}
