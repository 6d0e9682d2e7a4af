use dedup::identity::{unix_identity, IdentityKind};
use dedup::mounts::{network_fs, parse_mounts, source_of, Mount};

const TABLE: &str = "sysfs /sys sysfs rw,nosuid 0 0\n\
/dev/sda1 / ext4 rw,relatime 0 0\n\
/dev/sdb1 /data ext4 rw 0 0\n\
//server/share /mnt/share cifs rw,vers=3.0 0 0\n\
server:/export /mnt/nfs nfs4 rw 0 0\n\
/dev/sdc1 /media/my\\040disk vfat rw 0 0\n\
/dev/sdd1 /data ext4 rw 0 0\n";

fn mount(point: &str, fs_type: &str) -> Mount {
    Mount { point: point.to_string(), fs_type: fs_type.to_string() }
}

#[test]
fn mount_table_is_read_line_by_line() {
    let ms = parse_mounts(TABLE);
    let points: Vec<&str> = ms.iter().map(|m| m.point.as_str()).collect();
    assert_eq!(points, vec!["/sys", "/", "/data", "/mnt/share", "/mnt/nfs", "/media/my disk", "/data"]);
    assert_eq!(ms[3].fs_type, "cifs");
    assert_eq!(ms[4].fs_type, "nfs4");
}

#[test]
fn mount_escapes_are_decoded() {
    let ms = parse_mounts("a /x\\011y\\012z\\134w\\041 t 0 0");
    assert_eq!(ms.len(), 1);
    assert_eq!(ms[0].point, "/x\ty\nz\\w\\041");
    assert_eq!(ms[0].fs_type, "t");
}

#[test]
fn short_and_empty_lines_describe_no_mount() {
    assert!(parse_mounts("").is_empty());
    assert!(parse_mounts("\n\none two\n").is_empty());
    assert_eq!(parse_mounts("a b c").len(), 1);
}

#[test]
fn source_is_longest_mount_point() {
    let ms = parse_mounts(TABLE);
    let s = source_of("/data/photos/a.jpg", &ms);
    assert_eq!(s.source_id, "/data");
    assert!(!s.network);
    assert_eq!(source_of("/home/u/f", &ms).source_id, "/");
    assert_eq!(source_of("/media/my disk/f", &ms).source_id, "/media/my disk");
    assert_eq!(source_of("/database/f", &ms).source_id, "/");
    assert_eq!(source_of("/data", &ms).source_id, "/data");
}

#[test]
fn different_devices_get_different_sources() {
    let ms = parse_mounts(TABLE);
    assert_ne!(source_of("/data/a", &ms).source_id, source_of("/home/a", &ms).source_id);
}

#[test]
fn network_mounts_are_marked() {
    let ms = parse_mounts(TABLE);
    let s = source_of("/mnt/share/doc.txt", &ms);
    assert_eq!(s.source_id, "/mnt/share");
    assert!(s.network);
    assert!(source_of("/mnt/nfs/x", &ms).network);
    let id = unix_identity("/mnt/share/doc.txt", 40, 12, &s);
    assert_eq!(id.kind, IdentityKind::Path);
    assert_eq!(id.value, "/mnt/share/doc.txt");
    assert_eq!(id.source_id, "/mnt/share");
    let id = unix_identity("/data/a", 2065, 12, &source_of("/data/a", &ms));
    assert_eq!(id.kind, IdentityKind::Unix);
    assert_eq!(id.value, "2065:12");
}

#[test]
fn later_mount_on_same_point_wins() {
    let ms = vec![mount("/m", "nfs"), mount("/m", "ext4")];
    assert!(!source_of("/m/f", &ms).network);
    let ms = vec![mount("/m", "ext4"), mount("/m", "smbfs")];
    assert!(source_of("/m/f", &ms).network);
}

#[test]
fn without_mounts_the_root_stands_in() {
    let ms: Vec<Mount> = Vec::new();
    assert_eq!(source_of("/home/user/file.txt", &ms).source_id, "/");
    assert_eq!(source_of("relative/file.txt", &ms).source_id, "");
    assert_eq!(source_of("", &ms).source_id, "");
}

#[test]
fn network_file_system_types() {
    for t in ["nfs", "nfs4", "cifs", "smb3", "smbfs"] {
        assert!(network_fs(t), "{}", t);
    }
    for t in ["ext4", "nfsd", "smb", "", "tmpfs"] {
        assert!(!network_fs(t), "{}", t);
    }
}
