use vsg_rs::config::{glob, path_matches, Severity};

#[test]
fn globs() {
    assert!(glob(b"a/*.vhd", b"a/x.vhd"));
    assert!(!glob(b"a/*.vhd", b"a/b/x.vhd"));
    assert!(glob(b"a/**/x.vhd", b"a/b/c/x.vhd"));
    assert!(glob(b"a/**/x.vhd", b"a/x.vhd"));
    assert!(glob(b"?.vhd", b"x.vhd"));
    assert!(!glob(b"?.vhd", b"/.vhd"));
    assert!(glob(b"", b""));
    assert!(!glob(b"", b"x"));
}

#[test]
fn relative_patterns_match_deeper() {
    assert!(path_matches("src/*.vhd", "src/a.vhd"));
    assert!(path_matches("src/*.vhd", "lib/src/a.vhd"));
    assert!(!path_matches("/src/*.vhd", "lib/src/a.vhd"));
}

#[test]
fn severities() {
    assert_eq!(Severity::Warning.as_str(), "warning");
    assert_eq!(Severity::Error.as_str(), "error");
    assert!(Severity::Warning < Severity::Error);
}
