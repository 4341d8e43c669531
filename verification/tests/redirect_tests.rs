use shell::redirect::{redirect_err, redirect_out, RedirectMode};

fn strs(v: &[&str]) -> Vec<String> {
    v.iter().map(|s| s.to_string()).collect()
}

#[test]
fn redirect_stdout_overwrite() {
    let mut t = strs(&["echo", "hi", ">", "out.txt"]);
    let r = redirect_out(&mut t).unwrap();
    assert_eq!(r.mode, RedirectMode::Overwrite);
    assert_eq!(r.path, "out.txt");
    assert_eq!(t, strs(&["echo", "hi"]));
}

#[test]
fn redirect_stdout_append_and_io_number() {
    let mut t = strs(&["echo", "1>>", "log", "x"]);
    let r = redirect_out(&mut t).unwrap();
    assert_eq!(r.mode, RedirectMode::Append);
    assert_eq!(r.path, "log");
    assert_eq!(t, strs(&["echo", "x"]));
    let mut t = strs(&["a", "1>", "f"]);
    assert_eq!(redirect_out(&mut t).unwrap().mode, RedirectMode::Overwrite);
}

#[test]
fn redirect_without_path_is_kept() {
    let mut t = strs(&["echo", "hi", ">"]);
    assert!(redirect_out(&mut t).is_none());
    assert_eq!(t, strs(&["echo", "hi", ">"]));
}

#[test]
fn only_first_redirect_taken() {
    let mut t = strs(&["a", ">", "f1", ">>", "f2"]);
    let r = redirect_out(&mut t).unwrap();
    assert_eq!(r.path, "f1");
    assert_eq!(t, strs(&["a", ">>", "f2"]));
}

#[test]
fn redirect_stderr() {
    let mut t = strs(&["cmd", "2>>", "errs", "> ", "x"]);
    let (mode, path) = redirect_err(&mut t).unwrap();
    assert_eq!(mode, RedirectMode::Append);
    assert_eq!(path, "errs");
    assert_eq!(t, strs(&["cmd", "> ", "x"]));
    let mut t = strs(&["cmd", ">", "out"]);
    assert!(redirect_err(&mut t).is_none());
    assert_eq!(t, strs(&["cmd", ">", "out"]));
    let mut t = strs(&["cmd", "2>", "e"]);
    assert_eq!(redirect_err(&mut t).unwrap().0, RedirectMode::Overwrite);
}
