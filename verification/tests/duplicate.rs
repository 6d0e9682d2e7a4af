use dedup::duplicate::{collect_duplicate_groups, DuplicateFile, DuplicateGroup};

fn file(path: &str, size: u64, hash: &str) -> DuplicateFile {
    DuplicateFile {
        path: path.to_string(),
        size,
        hash: hash.to_string(),
        source_id: "local".to_string(),
    }
}

#[test]
fn test_wasted_space() {
    let group = DuplicateGroup {
        group_id: 1,
        size: 1000,
        hash: "abc".to_string(),
        files: vec![
            DuplicateFile {
                path: "/a".to_string(),
                size: 1000,
                hash: "abc".to_string(),
                source_id: "local".to_string(),
            },
            DuplicateFile {
                path: "/b".to_string(),
                size: 1000,
                hash: "abc".to_string(),
                source_id: "local".to_string(),
            },
            DuplicateFile {
                path: "/c".to_string(),
                size: 1000,
                hash: "abc".to_string(),
                source_id: "local".to_string(),
            },
        ],
    };

    assert_eq!(group.wasted_space(), 2000);
    assert_eq!(group.files.len(), 3);
}

#[test]
fn test_single_file_no_waste() {
    let group = DuplicateGroup {
        group_id: 1,
        size: 1000,
        hash: "abc".to_string(),
        files: vec![DuplicateFile {
            path: "/a".to_string(),
            size: 1000,
            hash: "abc".to_string(),
            source_id: "local".to_string(),
        }],
    };

    assert_eq!(group.wasted_space(), 0);
}

#[test]
fn empty_group_wastes_nothing() {
    let group = DuplicateGroup { group_id: 1, size: 7, hash: "h".to_string(), files: vec![] };
    assert_eq!(group.wasted_space(), 0);
    assert_eq!(group.checked_wasted_space(), Some(0));
}

#[test]
fn checked_wasted_space_reports_overflow() {
    let group = DuplicateGroup {
        group_id: 1,
        size: u64::MAX,
        hash: "h".to_string(),
        files: vec![file("/a", u64::MAX, "h"), file("/b", u64::MAX, "h"), file("/c", u64::MAX, "h")],
    };
    assert_eq!(group.checked_wasted_space(), None);
    let two = DuplicateGroup {
        group_id: 1,
        size: u64::MAX,
        hash: "h".to_string(),
        files: vec![file("/a", u64::MAX, "h"), file("/b", u64::MAX, "h")],
    };
    assert_eq!(two.checked_wasted_space(), Some(u64::MAX));
}

#[test]
fn groups_by_hash_in_listing_order() {
    let rows = vec![
        file("/a", 10, "h1"),
        file("/b", 20, "h1"),
        file("/c", 5, "h2"),
        file("/d", 5, "h2"),
        file("/e", 5, "h2"),
    ];
    let groups = collect_duplicate_groups(rows, false);
    assert_eq!(groups.len(), 2);
    assert_eq!(groups[0].group_id, 1);
    assert_eq!(groups[0].hash, "h1");
    assert_eq!(groups[0].size, 10);
    assert_eq!(groups[0].files.len(), 2);
    assert_eq!(groups[0].files[1].path, "/b");
    assert_eq!(groups[1].group_id, 2);
    assert_eq!(groups[1].hash, "h2");
    assert_eq!(groups[1].files.len(), 3);
    assert_eq!(groups[1].files[2].path, "/e");
}

#[test]
fn groups_by_size_and_hash() {
    let rows = vec![
        file("/a", 20, "h1"),
        file("/b", 20, "h1"),
        file("/c", 10, "h1"),
        file("/d", 10, "h1"),
    ];
    let groups = collect_duplicate_groups(rows, true);
    assert_eq!(groups.len(), 2);
    assert_eq!(groups[0].size, 20);
    assert_eq!(groups[1].size, 10);
    assert_eq!(groups[1].group_id, 2);
    assert_eq!(groups[1].files[0].path, "/c");
}

#[test]
fn no_rows_no_groups() {
    let groups = collect_duplicate_groups(vec![], true);
    assert!(groups.is_empty());
}

#[test]
fn sorted_listing_reports_each_hash_once() {
    let rows = vec![
        file("/a", 1, "x"),
        file("/b", 1, "x"),
        file("/c", 1, "y"),
        file("/d", 1, "y"),
        file("/e", 1, "z"),
        file("/f", 1, "z"),
    ];
    let groups = collect_duplicate_groups(rows, false);
    let hashes: Vec<&str> = groups.iter().map(|g| g.hash.as_str()).collect();
    assert_eq!(hashes, vec!["x", "y", "z"]);
    let total: usize = groups.iter().map(|g| g.files.len()).sum();
    assert_eq!(total, 6);
}

#[test]
fn unsorted_listing_splits_runs() {
    let rows = vec![file("/a", 1, "x"), file("/b", 1, "y"), file("/c", 1, "x")];
    let groups = collect_duplicate_groups(rows, false);
    assert_eq!(groups.len(), 3);
    assert_eq!(groups[2].hash, "x");
    assert_eq!(groups[2].group_id, 3);
}
