use cargo_update_dep::update::{pkgid, run_update};

fn bytes(s: &str) -> Vec<u8> {
    s.as_bytes().to_vec()
}

fn text(v: &[u8]) -> String {
    String::from_utf8(v.to_vec()).unwrap()
}

#[test]
fn pkgid_format() {
    assert_eq!(text(&pkgid(&bytes("foo"), &bytes("1.2.3"))), "foo:1.2.3");
}

#[test]
fn aggregate_reporting() {
    let paths = vec![bytes("/ws/a/Cargo.toml"), bytes("/ws/b/Cargo.toml"), bytes("/ws/c/Cargo.toml")];
    let contents = vec![
        bytes("foo = \"1.2.3\"\n"),
        bytes("bar = \"9.9.9\"\n"),
        bytes("x = { package = \"foo\", version = \"1.2.3\" }\n"),
    ];
    let report = run_update(&paths, &contents, &bytes("foo"), &bytes("1.2.3"), &bytes("1.2.4"));
    assert_eq!(report.updated.len(), 2);
    assert_eq!(text(&report.updated[0]), "/ws/a/Cargo.toml");
    assert_eq!(text(&report.updated[1]), "/ws/c/Cargo.toml");
    assert_eq!(report.new_contents.len(), 3);
    assert_eq!(text(report.new_contents[0].as_ref().unwrap()), "foo = \"1.2.4\"\n");
    assert!(report.new_contents[1].is_none());
    assert_eq!(
        text(report.new_contents[2].as_ref().unwrap()),
        "x = { package = \"foo\", version = \"1.2.4\" }\n"
    );
}

#[test]
fn no_manifest_modified() {
    let paths = vec![bytes("/ws/a/Cargo.toml")];
    let contents = vec![bytes("bar = \"1.2.3\"\n")];
    let report = run_update(&paths, &contents, &bytes("foo"), &bytes("1.2.3"), &bytes("1.2.4"));
    assert!(report.updated.is_empty());
    assert!(report.new_contents[0].is_none());
}
