use coderag::launch_args::{launch_root, parse_launch_args, set_launch_root, LaunchRoot};

#[test]
fn parses_root_equals_and_split_forms() {
    let equals = parse_launch_args(&["--root=/tmp/repo"]).unwrap();
    assert_eq!(equals.root.as_deref(), Some("/tmp/repo"));
    assert!(!equals.doctor);

    let split = parse_launch_args(&["--root", "/tmp/repo", "doctor"]).unwrap();
    assert_eq!(split.root.as_deref(), Some("/tmp/repo"));
    assert!(split.doctor);
}

#[test]
fn no_arguments_serve_without_doctor_or_root() {
    let parsed = parse_launch_args(&[]).unwrap();
    assert!(!parsed.doctor);
    assert_eq!(parsed.root, None);
}

#[test]
fn rejects_a_missing_root_path() {
    assert!(parse_launch_args(&["--root"]).is_err());
    assert!(parse_launch_args(&["--root="]).is_err());
    assert!(parse_launch_args(&["--root", "--other"]).is_err());
    assert!(parse_launch_args(&["--max-size=1048576"]).is_err());
}

#[test]
fn launch_errors_name_the_problem() {
    assert_eq!(parse_launch_args(&["--root"]).unwrap_err(), "--root requires a path");
    assert_eq!(parse_launch_args(&["--root", ""]).unwrap_err(), "--root requires a path");
    assert_eq!(parse_launch_args(&["serve"]).unwrap_err(), "unknown argument: serve");
    assert_eq!(
        parse_launch_args(&["doctor", "--verbose"]).unwrap_err(),
        "unknown argument: --verbose"
    );
}

#[test]
fn last_root_wins_and_doctor_anywhere() {
    let parsed = parse_launch_args(&["--root=/a", "doctor", "--root", "/b"]).unwrap();
    assert_eq!(parsed.root.as_deref(), Some("/b"));
    assert!(parsed.doctor);
}

#[test]
fn launch_root_is_set_once() {
    let mut cell = LaunchRoot::new();
    assert_eq!(launch_root(&cell), None);
    assert!(set_launch_root(&mut cell, "/first".to_string()).is_ok());
    assert_eq!(
        set_launch_root(&mut cell, "/second".to_string()).unwrap_err(),
        "launch root is already set"
    );
    assert_eq!(launch_root(&cell).as_deref(), Some("/first"));
}
