use dedup::db::{file_row, index_stats, merge_row, needs_update, platform_tag, DbStats, FileRow, StatsRow};
use dedup::cli::DupMode;
use dedup::identity::{FileIdentity, IdentityKind};
use dedup::search::{find_duplicates, IndexedFile};
use dedup::scanner::{mtime_seconds, FileEntry, Scanner};

fn create_test_entry(name: &str, size: u64) -> FileEntry {
    FileEntry {
        path: format!("/test/{}", name),
        name: name.to_string(),
        size,
        mtime: 1234567890,
        identity: FileIdentity {
            kind: IdentityKind::Unix,
            value: format!("test:{}", name),
            source_id: "test".to_string(),
        },
    }
}

#[test]
fn test_needs_update() {
    let entry = create_test_entry("file1.txt", 100);

    assert!(needs_update(None, &entry));

    let row = file_row("linux", &entry, None, None, 42);
    assert!(!needs_update(Some((row.size, row.mtime)), &entry));

    let mut modified_entry = entry.clone();
    modified_entry.size = 200;
    assert!(needs_update(Some((row.size, row.mtime)), &modified_entry));
}

#[test]
fn changed_mtime_needs_update() {
    let entry = create_test_entry("a", 5);
    let row = file_row("linux", &entry, None, None, 0);
    let mut later = create_test_entry("a", 5);
    later.mtime += 1;
    assert!(needs_update(Some((row.size, row.mtime)), &later));
}

#[test]
fn file_row_holds_entry() {
    let entry = create_test_entry("file2.txt", u64::MAX);
    let row = file_row("mac", &entry, Some("f".to_string()), None, 77);
    assert_eq!(row.platform, "mac");
    assert_eq!(row.source_id, "test");
    assert_eq!(row.identity_kind, "unix");
    assert_eq!(row.identity_value, "test:file2.txt");
    assert_eq!(row.path, "/test/file2.txt");
    assert_eq!(row.name, "file2.txt");
    assert_eq!(row.size, -1);
    assert_eq!(row.mtime, 1234567890);
    assert_eq!(row.fast_hash, Some("f".to_string()));
    assert_eq!(row.full_hash, None);
    assert_eq!(row.last_scanned_at, 77);
    assert!(!needs_update(Some((row.size, row.mtime)), &entry));
}

#[test]
fn platform_tags() {
    assert_eq!(platform_tag("windows"), "win");
    assert_eq!(platform_tag("macos"), "mac");
    assert_eq!(platform_tag("linux"), "linux");
    assert_eq!(platform_tag("freebsd"), "other");
}

fn stats_row_of(row: &FileRow) -> StatsRow {
    StatsRow { size: row.size, fast_hash: row.fast_hash.clone(), full_hash: row.full_hash.clone() }
}

fn stats_row(size: i64, fast: Option<&str>, full: Option<&str>) -> StatsRow {
    StatsRow {
        size,
        fast_hash: fast.map(|h| h.to_string()),
        full_hash: full.map(|h| h.to_string()),
    }
}

#[test]
fn test_get_stats() {
    let rows = vec![
        stats_row_of(&file_row("linux", &create_test_entry("file1.txt", 100), None, None, 1)),
        stats_row_of(&file_row("linux", &create_test_entry("file2.txt", 200), None, None, 1)),
    ];

    let stats = index_stats(&rows).unwrap();

    assert_eq!(stats.total_files, 2);
    assert_eq!(stats.total_size, 300);
}

#[test]
fn stats_count_hashes_and_groups() {
    let rows = vec![
        stats_row(10, Some("a"), Some("x")),
        stats_row(10, Some("a"), Some("x")),
        stats_row(20, Some("a"), Some("x")),
        stats_row(20, Some("b"), None),
        stats_row(30, None, Some("y")),
        stats_row(30, None, Some("y")),
        stats_row(40, Some("c"), None),
    ];
    let s = index_stats(&rows).unwrap();
    assert_eq!(s.total_files, 7);
    assert_eq!(s.total_size, 160);
    assert_eq!(s.with_fast_hash, 5);
    assert_eq!(s.with_full_hash, 5);
    // (10, a) only: (20, a) and (20, b) differ in hash or size.
    assert_eq!(s.fast_dup_groups, 1);
    // x three times, y twice.
    assert_eq!(s.full_dup_groups, 2);
}

#[test]
fn stats_of_empty_index() {
    let s = index_stats(&Vec::new()).unwrap();
    assert_eq!(s.total_files, 0);
    assert_eq!(s.total_size, 0);
    assert_eq!(s.fast_dup_groups, 0);
    assert_eq!(s.full_dup_groups, 0);
}

#[test]
fn stats_size_overflow_is_refused() {
    let rows = vec![stats_row(i64::MAX, None, None), stats_row(1, None, None)];
    assert!(index_stats(&rows).is_none());
    let rows = vec![stats_row(i64::MIN, None, None), stats_row(-1, None, None)];
    assert!(index_stats(&rows).is_none());
    // A negative size, stored for a file beyond the signed range, is summed
    // as stored and read back unsigned.
    let rows = vec![stats_row(-1, Some("h"), None), stats_row(-1, Some("h"), None)];
    let s = index_stats(&rows).unwrap();
    assert_eq!(s.total_size, u64::MAX - 1);
    assert_eq!(s.fast_dup_groups, 1);
}

#[test]
fn stored_hash_is_kept_when_none_is_computed() {
    let entry = create_test_entry("k.txt", 5);
    let row = file_row("linux", &entry, None, Some("new".to_string()), 9);
    let merged = merge_row(Some((Some("old".to_string()), Some("older".to_string()))), row);
    assert_eq!(merged.fast_hash, Some("old".to_string()));
    assert_eq!(merged.full_hash, Some("new".to_string()));
    assert_eq!(merged.path, "/test/k.txt");
    assert_eq!(merged.last_scanned_at, 9);
    let row = file_row("linux", &entry, None, None, 9);
    let merged = merge_row(None, row);
    assert_eq!(merged.fast_hash, None);
    assert_eq!(merged.full_hash, None);
}

#[test]
fn scanner_settings_and_mtime() {
    assert_eq!(Scanner::new(4).workers(), 4);
    assert_eq!(mtime_seconds(Some(1700000000)), 1700000000);
    assert_eq!(mtime_seconds(None), 0);
    assert_eq!(mtime_seconds(Some(u64::MAX)), -1);
}

#[test]
fn default_stats_are_zero() {
    let s = DbStats::default();
    assert_eq!(s.total_files, 0);
    assert_eq!(s.total_size, 0);
    assert_eq!(s.full_dup_groups, 0);
}

#[test]
fn stats_groups_match_the_search() {
    let rows = vec![
        stats_row(10, Some("a"), Some("x")),
        stats_row(20, Some("a"), Some("x")),
        stats_row(10, Some("a"), Some("y")),
        stats_row(0, Some("e"), Some("y")),
        stats_row(0, Some("e"), None),
        stats_row(30, None, Some("x")),
    ];
    let s = index_stats(&rows).unwrap();
    let files = |fast: bool| -> Vec<IndexedFile> {
        rows.iter()
            .enumerate()
            .map(|(i, r)| IndexedFile {
                hash: if fast { r.fast_hash.clone() } else { r.full_hash.clone() },
                size: r.size,
                path: format!("/f{}", i),
                source_id: "dev:1".to_string(),
            })
            .collect()
    };
    let fast = find_duplicates(&files(true), 0, DupMode::Fast);
    let full = find_duplicates(&files(false), 0, DupMode::Full);
    assert_eq!(s.fast_dup_groups, fast.len() as u64);
    assert_eq!(s.full_dup_groups, full.len() as u64);
    assert_eq!(s.fast_dup_groups, 2);
    assert_eq!(s.full_dup_groups, 2);
}

#[test]
fn overflow_of_nonnegative_sizes_does_not_depend_on_order() {
    let a = vec![stats_row(i64::MAX - 5, None, None), stats_row(3, None, None), stats_row(3, None, None)];
    let b = vec![stats_row(3, None, None), stats_row(3, None, None), stats_row(i64::MAX - 5, None, None)];
    assert!(index_stats(&a).is_none());
    assert!(index_stats(&b).is_none());
    let c = vec![stats_row(i64::MAX - 6, None, None), stats_row(3, None, None), stats_row(3, None, None)];
    assert_eq!(index_stats(&c).unwrap().total_size, (i64::MAX) as u64);
}
