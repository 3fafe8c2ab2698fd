use cargo_update_dep::patch::{patch_content, patch_line, direct_decl, aliased_decl};

fn bytes(s: &str) -> Vec<u8> {
    s.as_bytes().to_vec()
}

fn text(v: &[u8]) -> String {
    String::from_utf8(v.to_vec()).unwrap()
}

#[test]
fn test_regex() {
    let package = bytes("thing");
    let version = bytes("0.1.1");
    let new_version = bytes("3.4.5");

    let line = bytes("thing = \"0.1.1\" ");
    assert!(direct_decl(&line, &package));
    let patched = patch_line(&line, &package, &version, &new_version);
    assert_eq!(text(&patched), "thing = \"3.4.5\" ");
}

#[test]
fn round_trip_direct_form() {
    let line = bytes("foo = \"1.2.3\"");
    let patched = patch_line(&line, &bytes("foo"), &bytes("1.2.3"), &bytes("1.2.4"));
    assert_eq!(text(&patched), "foo = \"1.2.4\"");
}

#[test]
fn round_trip_aliased_form() {
    let line = bytes("bar = { package = \"foo\", version = \"1.2.3\" }");
    assert!(aliased_decl(&line, &bytes("foo")));
    let patched = patch_line(&line, &bytes("foo"), &bytes("1.2.3"), &bytes("1.2.4"));
    assert_eq!(text(&patched), "bar = { package = \"foo\", version = \"1.2.4\" }");
}

#[test]
fn no_spurious_match() {
    let line = bytes("foobar = \"1.2.3\"");
    assert!(!direct_decl(&line, &bytes("foo")));
    assert!(!aliased_decl(&line, &bytes("foo")));
    let patched = patch_line(&line, &bytes("foo"), &bytes("1.2.3"), &bytes("1.2.4"));
    assert_eq!(patched, line);
}

#[test]
fn blank_variants_around_equals() {
    let pkg = bytes("serde");
    let old_v = bytes("1.0.0");
    let new_v = bytes("1.0.1");
    let tabbed = bytes("\t serde\t =  \"1.0.0\"");
    assert_eq!(
        text(&patch_line(&tabbed, &pkg, &old_v, &new_v)),
        "\t serde\t =  \"1.0.1\""
    );
    let aliased = bytes("alias = { package\t= \"serde\", version = \"1.0.0\" }");
    assert_eq!(
        text(&patch_line(&aliased, &pkg, &old_v, &new_v)),
        "alias = { package\t= \"serde\", version = \"1.0.1\" }"
    );
}

#[test]
fn selectivity_preserves_other_lines() {
    let content = bytes("[dependencies]\nfoo = \"1.2.3\"\n# a comment\nother = \"1.2.3\"\n");
    let rewritten = patch_content(&content, &bytes("foo"), &bytes("1.2.3"), &bytes("1.2.4")).unwrap();
    assert_eq!(
        text(&rewritten),
        "[dependencies]\nfoo = \"1.2.4\"\n# a comment\nother = \"1.2.3\"\n"
    );
}

#[test]
fn untouched_file_is_not_rewritten() {
    let content = bytes("[dependencies]\nfoo = { workspace = true }\nbar = \"2.0.0\"\n");
    let outcome = patch_content(&content, &bytes("foo"), &bytes("1.2.3"), &bytes("1.2.4"));
    assert!(outcome.is_none());
}

#[test]
fn version_elsewhere_is_not_touched() {
    // the old version occurs only on a line that names another package
    let content = bytes("dep = \"1.2.3\"\n");
    let outcome = patch_content(&content, &bytes("foo"), &bytes("1.2.3"), &bytes("1.2.4"));
    assert!(outcome.is_none());
}

#[test]
fn idempotence_on_a_file() {
    let content = bytes("[dependencies]\nfoo = \"1.2.3\"\nbar = \"3.4.5\"\n");
    let pkg = bytes("foo");
    let old_v = bytes("1.2.3");
    let new_v = bytes("1.2.4");
    let once = patch_content(&content, &pkg, &old_v, &new_v).unwrap();
    assert!(patch_content(&once, &pkg, &old_v, &new_v).is_none());
}

#[test]
fn empty_file_is_untouched() {
    let outcome = patch_content(&Vec::new(), &bytes("foo"), &bytes("1.2.3"), &bytes("1.2.4"));
    assert!(outcome.is_none());
}

#[test]
fn same_version_is_no_modification() {
    let content = bytes("foo = \"1.2.3\"\n");
    let outcome = patch_content(&content, &bytes("foo"), &bytes("1.2.3"), &bytes("1.2.3"));
    assert!(outcome.is_none());
}

#[test]
fn every_occurrence_on_a_candidate_line_is_replaced() {
    let line = bytes("foo = { version = \"1.2.3\" } # was \"1.2.3\"");
    let patched = patch_line(&line, &bytes("foo"), &bytes("1.2.3"), &bytes("1.2.4"));
    assert_eq!(text(&patched), "foo = { version = \"1.2.4\" } # was \"1.2.4\"");
}

#[test]
fn trailing_newline_normalized() {
    let content = bytes("foo = \"1.2.3\"");
    let rewritten = patch_content(&content, &bytes("foo"), &bytes("1.2.3"), &bytes("1.2.4")).unwrap();
    let out = text(&rewritten);
    assert!(out.ends_with('\n'));
    assert!(!out.ends_with("\n\n"));
    assert_eq!(out, "foo = \"1.2.4\"\n");
}
