use cargo_update_dep::errors::UpdateError;
use cargo_update_dep::locate::{extract_manifest_path, locate_manifests};

fn bytes(s: &str) -> Vec<u8> {
    s.as_bytes().to_vec()
}

fn text(v: &[u8]) -> String {
    String::from_utf8(v.to_vec()).unwrap()
}

#[test]
fn locator_extraction() {
    let path = extract_manifest_path(&bytes("file:///workspace/crateA)")).unwrap();
    assert_eq!(text(&path), "/workspace/crateA/Cargo.toml");
}

#[test]
fn locator_extraction_with_member_prefix() {
    let loc = bytes("crate-a 0.1.0 (path+file:///workspace/crateA)");
    let path = extract_manifest_path(&loc).unwrap();
    assert_eq!(text(&path), "/workspace/crateA/Cargo.toml");
}

#[test]
fn locator_keeps_no_double_slash() {
    let path = extract_manifest_path(&bytes("file:///workspace/crateA/)")).unwrap();
    assert_eq!(text(&path), "/workspace/crateA/Cargo.toml");
}

#[test]
fn locator_empty_directory() {
    let path = extract_manifest_path(&bytes("file://)")).unwrap();
    assert_eq!(text(&path), "Cargo.toml");
}

#[test]
fn malformed_member_location() {
    let r = extract_manifest_path(&bytes("registry+https://example.invalid/index"));
    assert_eq!(r.unwrap_err(), UpdateError::MalformedMemberLocation);
    let r = extract_manifest_path(&bytes("file:///never-closed"));
    assert_eq!(r.unwrap_err(), UpdateError::MalformedMemberLocation);
}

#[test]
fn locate_keeps_member_order() {
    let members = vec![
        bytes("a 0.1.0 (path+file:///ws/a)"),
        bytes("b 0.2.0 (path+file:///ws/b)"),
    ];
    let paths = locate_manifests(&members).unwrap();
    assert_eq!(paths.len(), 2);
    assert_eq!(text(&paths[0]), "/ws/a/Cargo.toml");
    assert_eq!(text(&paths[1]), "/ws/b/Cargo.toml");
}

#[test]
fn locate_refuses_any_malformed_member() {
    let members = vec![bytes("a 0.1.0 (path+file:///ws/a)"), bytes("nonsense")];
    let r = locate_manifests(&members);
    assert_eq!(r.unwrap_err(), UpdateError::MalformedMemberLocation);
}
