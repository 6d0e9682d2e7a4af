use dedup::duplicate::{DuplicateFile, DuplicateGroup};
use dedup::export::{csv_records, json_report, total_file_count, total_wasted_space};

fn create_test_groups() -> Vec<DuplicateGroup> {
    vec![
        DuplicateGroup {
            group_id: 1,
            size: 1024,
            hash: "abc123".to_string(),
            files: vec![
                DuplicateFile {
                    path: "/path/to/file1.txt".to_string(),
                    size: 1024,
                    hash: "abc123".to_string(),
                    source_id: "local".to_string(),
                },
                DuplicateFile {
                    path: "/path/to/file2.txt".to_string(),
                    size: 1024,
                    hash: "abc123".to_string(),
                    source_id: "local".to_string(),
                },
            ],
        },
        DuplicateGroup {
            group_id: 2,
            size: 2048,
            hash: "def456".to_string(),
            files: vec![
                DuplicateFile {
                    path: "/path/to/file3.txt".to_string(),
                    size: 2048,
                    hash: "def456".to_string(),
                    source_id: "external".to_string(),
                },
                DuplicateFile {
                    path: "/path/to/file4.txt".to_string(),
                    size: 2048,
                    hash: "def456".to_string(),
                    source_id: "external".to_string(),
                },
                DuplicateFile {
                    path: "/path/to/file5.txt".to_string(),
                    size: 2048,
                    hash: "def456".to_string(),
                    source_id: "external".to_string(),
                },
            ],
        },
    ]
}

#[test]
fn export_test_export_csv() {
    let groups = create_test_groups();
    let records = csv_records(&groups);

    assert_eq!(records.len(), 5);
    assert!(records.iter().any(|r| r.path.contains("file1.txt")));
    assert!(records.iter().any(|r| r.hash.contains("abc123")));
    assert_eq!(records[0].duplicate_group_id, 1);
    assert_eq!(records[4].duplicate_group_id, 2);
    assert_eq!(records[4].path, "/path/to/file5.txt");
    assert_eq!(records[4].size, 2048);
    assert_eq!(records[4].source_id, "external");
}

#[test]
fn export_test_export_json() {
    let groups = create_test_groups();
    let report = json_report(&groups).unwrap();

    assert_eq!(report.total_groups, 2);
    assert_eq!(report.total_duplicate_files, 5);
    assert_eq!(report.total_wasted_space, 5120);
}

#[test]
fn test_export_empty_groups() {
    let groups: Vec<DuplicateGroup> = vec![];
    let report = json_report(&groups).unwrap();

    assert_eq!(report.total_groups, 0);
    assert_eq!(report.total_duplicate_files, 0);
    assert_eq!(report.total_wasted_space, 0);
}

#[test]
fn json_groups_describe_groups() {
    let groups = create_test_groups();
    let report = json_report(&groups).unwrap();
    assert_eq!(report.groups.len(), 2);
    assert_eq!(report.groups[1].group_id, 2);
    assert_eq!(report.groups[1].size, 2048);
    assert_eq!(report.groups[1].hash, "def456");
    assert_eq!(report.groups[1].file_count, 3);
    assert_eq!(report.groups[1].files[2].path, "/path/to/file5.txt");
    assert_eq!(report.groups[1].files[2].source_id, "external");
}

#[test]
fn csv_and_json_count_the_same_files() {
    let groups = create_test_groups();
    assert_eq!(csv_records(&groups).len(), json_report(&groups).unwrap().total_duplicate_files);
    assert_eq!(total_file_count(&groups), Some(5));
    assert_eq!(total_wasted_space(&groups), Some(5120));
}

#[test]
fn totals_out_of_range_give_no_report() {
    let big = |id: usize| DuplicateGroup {
        group_id: id,
        size: u64::MAX / 2 + 1,
        hash: "h".to_string(),
        files: vec![
            DuplicateFile {
                path: "/a".to_string(),
                size: u64::MAX / 2 + 1,
                hash: "h".to_string(),
                source_id: "s".to_string(),
            },
            DuplicateFile {
                path: "/b".to_string(),
                size: u64::MAX / 2 + 1,
                hash: "h".to_string(),
                source_id: "s".to_string(),
            },
        ],
    };
    let groups = vec![big(1), big(2)];
    assert_eq!(total_wasted_space(&groups), None);
    assert!(json_report(&groups).is_none());
    assert_eq!(total_wasted_space(&groups[..1]), Some(u64::MAX / 2 + 1));
}
