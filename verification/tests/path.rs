use oshit::fs::{parse_path, to_string, Path, PathFormatError};

fn names(p: &Path) -> Vec<&str> {
    p.path.iter().map(|s| s.as_str()).collect()
}

#[test]
fn parse_absolute_path() {
    let p = parse_path("/usr/lib/libc.so").unwrap();
    assert!(p.is_abs);
    assert!(!p.must_dir);
    assert_eq!(names(&p), vec!["usr", "lib", "libc.so"]);
}

#[test]
fn parse_relative_dir_path() {
    let p = parse_path("a/b/").unwrap();
    assert!(!p.is_abs);
    assert!(p.must_dir);
    assert_eq!(names(&p), vec!["a", "b"]);
}

#[test]
fn parse_skips_current_dir() {
    let p = parse_path("/a/./b/").unwrap();
    assert!(p.is_abs);
    assert!(p.must_dir);
    assert_eq!(names(&p), vec!["a", "b"]);
}

#[test]
fn parse_rejects_empty_name() {
    assert_eq!(parse_path("/a//b").unwrap_err(), PathFormatError::EmptyFileName);
    assert_eq!(parse_path("").unwrap_err(), PathFormatError::EmptyPath);
}

#[test]
fn parse_keeps_dotdot() {
    let p = parse_path("a/../b").unwrap();
    assert_eq!(names(&p), vec!["a", "..", "b"]);
}

#[test]
fn parse_stops_at_nul() {
    let p = parse_path("/abc\0def").unwrap();
    assert_eq!(names(&p), vec!["abc"]);
}

#[test]
fn parse_rejects_long_name() {
    let long = "x".repeat(300);
    assert_eq!(parse_path(&long).unwrap_err(), PathFormatError::FileNameTooLong);
}

#[test]
fn path_error_messages() {
    assert!(!to_string(PathFormatError::FileNameTooLong).is_empty());
    assert_ne!(to_string(PathFormatError::FileNameTooLong), to_string(PathFormatError::EmptyFileName));
}

#[test]
fn path_to_string_forms() {
    assert_eq!(parse_path("/a/b").unwrap().to_string(), "/a/b");
    assert_eq!(parse_path("/a/b/").unwrap().to_string(), "/a/b/");
    assert_eq!(parse_path("a/b").unwrap().to_string(), "a/b");
    assert_eq!(Path::root().to_string(), "/");
}

#[test]
fn parse_then_write_round_trip() {
    for s in ["/etc/passwd", "/a/b/c/", "x/y", "dir/"] {
        let p = parse_path(s).unwrap();
        assert_eq!(p.to_string(), s);
        let q = parse_path(&p.to_string()).unwrap();
        assert_eq!(q.path, p.path);
        assert_eq!(q.is_abs, p.is_abs);
        assert_eq!(q.must_dir, p.must_dir);
    }
}

#[test]
fn purge_removes_dotdot() {
    let mut p = parse_path("/a/b/../c/../../d").unwrap();
    assert!(p.purge().is_ok());
    assert_eq!(names(&p), vec!["d"]);
    assert!(p.path.iter().all(|n| n != ".."));
}

#[test]
fn purge_above_root_fails() {
    let mut p = parse_path("/a/../..").unwrap();
    assert!(p.purge().is_err());
}

#[test]
fn pop_then_push_restores() {
    let mut p = parse_path("/a/b/c").unwrap();
    let last = p.pop().unwrap();
    assert_eq!(names(&p), vec!["a", "b"]);
    assert!(p.must_dir);
    assert_eq!(names(&last), vec!["c"]);
    assert!(!last.is_abs);
    p.push(last.path[0].clone(), last.must_dir).unwrap();
    assert_eq!(p.to_string(), "/a/b/c");
}

#[test]
fn pop_empty_is_none() {
    let mut p = Path::root();
    assert!(p.pop().is_none());
}

#[test]
fn merge_relative_path() {
    let mut p = parse_path("/home").unwrap();
    p.merge(parse_path("user/docs/").unwrap()).unwrap();
    assert_eq!(p.to_string(), "/home/user/docs/");
    assert!(p.merge(parse_path("/abs").unwrap()).is_err());
    assert_eq!(p.to_string(), "/home/user/docs/");
}

#[test]
fn parse_drops_leading_current_dir() {
    let p = parse_path("./a").unwrap();
    assert!(!p.is_abs);
    assert!(!p.must_dir);
    assert_eq!(names(&p), vec!["a"]);
    let p = parse_path("../a").unwrap();
    assert_eq!(names(&p), vec!["..", "a"]);
    let p = parse_path(".").unwrap();
    assert!(!p.is_abs && p.must_dir);
    assert!(p.path.is_empty());
}

#[test]
fn parse_names_that_start_with_a_dot() {
    // A later component loses its leading `.` (or `..`); the first component of
    // a relative path keeps one dot more.
    assert_eq!(names(&parse_path("/.bashrc").unwrap()), vec!["bashrc"]);
    assert_eq!(names(&parse_path("/home/.cfg/x").unwrap()), vec!["home", "cfg", "x"]);
    assert_eq!(names(&parse_path("/..x").unwrap()), vec!["x"]);
    assert_eq!(names(&parse_path("/a/...").unwrap()), vec!["a", "."]);
    assert_eq!(names(&parse_path(".profile").unwrap()), vec![".profile"]);
    assert_eq!(names(&parse_path("..x/y").unwrap()), vec![".x", "y"]);
    assert_eq!(names(&parse_path("./.a").unwrap()), vec!["a"]);
}
