use dedup::identity::{path_identity, unix_identity, windows_identity, IdentityKind};
use dedup::mounts::Source;

fn local(id: &str) -> Source {
    Source { source_id: id.to_string(), network: false }
}

#[test]
fn test_identity_kind_as_str() {
    assert_eq!(IdentityKind::Unix.as_str(), "unix");

    assert_eq!(IdentityKind::Path.as_str(), "path");
}

#[test]
fn windows_kind_tag() {
    assert_eq!(IdentityKind::Windows.as_str(), "win");
}

#[test]
fn unix_identity_is_device_and_inode() {
    let id = unix_identity("/tmp/x", 2049, 131, &local("/"));
    assert_eq!(id.kind, IdentityKind::Unix);
    assert_eq!(id.value, "2049:131");
    assert_eq!(id.source_id, "dev:2049");
}

#[test]
fn network_share_falls_back_to_path() {
    let share = Source { source_id: "/mnt/share".to_string(), network: true };
    let id = unix_identity("/mnt/share/f", 7, 8, &share);
    assert_eq!(id.kind, IdentityKind::Path);
    assert_eq!(id.value, "/mnt/share/f");
    assert_eq!(id.source_id, "/mnt/share");
}

#[test]
fn windows_identity_joins_index_halves() {
    let id = windows_identity(305419896, 1, 2);
    assert_eq!(id.kind, IdentityKind::Windows);
    assert_eq!(id.value, "305419896:4294967298");
    assert_eq!(id.source_id, "vol:305419896");
    let id = windows_identity(0, u32::MAX, u32::MAX);
    assert_eq!(id.value, "0:18446744073709551615");
}

#[test]
fn path_identity_keeps_path() {
    let id = path_identity("C:\\x", "C:");
    assert_eq!(id.kind, IdentityKind::Path);
    assert_eq!(id.value, "C:\\x");
    assert_eq!(id.source_id, "C:");
}

#[test]
fn different_numbers_different_identities() {
    let a = unix_identity("/x", 1, 23, &local("/"));
    let b = unix_identity("/y", 12, 3, &local("/"));
    assert_ne!(a.value, b.value);
    let c = windows_identity(1, 0, 23);
    let d = windows_identity(12, 0, 3);
    assert_ne!(c.value, d.value);
}
