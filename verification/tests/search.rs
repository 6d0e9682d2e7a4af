use dedup::cli::DupMode;
use dedup::search::{duplicate_listing, find_duplicates, text_less, IndexedFile};

fn file(hash: Option<&str>, size: i64, path: &str) -> IndexedFile {
    IndexedFile {
        hash: hash.map(|h| h.to_string()),
        size,
        path: path.to_string(),
        source_id: "dev:1".to_string(),
    }
}

#[test]
fn full_hash_groups_repeated_hashes_only() {
    let files = vec![
        file(Some("bb"), 10, "/z"),
        file(Some("aa"), 10, "/y"),
        file(None, 10, "/nohash"),
        file(Some("cc"), 10, "/single"),
        file(Some("bb"), 12, "/a"),
        file(Some("aa"), 10, "/b"),
    ];
    let groups = find_duplicates(&files, 0, DupMode::Full);
    assert_eq!(groups.len(), 2);
    assert_eq!(groups[0].group_id, 1);
    assert_eq!(groups[0].hash, "aa");
    let paths: Vec<&str> = groups[0].files.iter().map(|f| f.path.as_str()).collect();
    assert_eq!(paths, vec!["/b", "/y"]);
    assert_eq!(groups[1].group_id, 2);
    assert_eq!(groups[1].hash, "bb");
    assert_eq!(groups[1].size, 12);
    let paths: Vec<&str> = groups[1].files.iter().map(|f| f.path.as_str()).collect();
    assert_eq!(paths, vec!["/a", "/z"]);
}

#[test]
fn fast_hash_groups_by_size_descending() {
    let files = vec![
        file(Some("h"), 10, "/a"),
        file(Some("h"), 20, "/b"),
        file(Some("h"), 10, "/c"),
        file(Some("h"), 20, "/d"),
        file(Some("h"), 30, "/e"),
    ];
    let groups = find_duplicates(&files, 0, DupMode::Fast);
    assert_eq!(groups.len(), 2);
    assert_eq!(groups[0].size, 20);
    assert_eq!(groups[0].files.len(), 2);
    assert_eq!(groups[1].size, 10);
    assert_eq!(groups[1].files[0].path, "/a");
    assert_eq!(groups[1].files[1].path, "/c");

    let full = find_duplicates(&files, 0, DupMode::Full);
    assert_eq!(full.len(), 1);
    assert_eq!(full[0].files.len(), 5);
}

#[test]
fn min_size_counts_before_repetition() {
    let files = vec![
        file(Some("x"), 5, "/small"),
        file(Some("x"), 500, "/big"),
        file(Some("y"), 500, "/b1"),
        file(Some("y"), 600, "/b2"),
    ];
    let groups = find_duplicates(&files, 100, DupMode::Full);
    assert_eq!(groups.len(), 1);
    assert_eq!(groups[0].hash, "y");
    let none = find_duplicates(&files, 1000, DupMode::Full);
    assert!(none.is_empty());
}

#[test]
fn sizes_are_compared_as_stored() {
    // A stored size of -1 stands for u64::MAX; it is below any positive minimum.
    let files = vec![file(Some("h"), -1, "/a"), file(Some("h"), -1, "/b")];
    assert!(find_duplicates(&files, 1, DupMode::Full).is_empty());
    let groups = find_duplicates(&files, 0, DupMode::Full);
    assert!(groups.is_empty());
    let groups = find_duplicates(&files, u64::MAX, DupMode::Full);
    assert_eq!(groups.len(), 1);
    assert_eq!(groups[0].size, u64::MAX);
}

#[test]
fn listing_is_ordered_by_key_then_path() {
    let files = vec![
        file(Some("b"), 1, "/2"),
        file(Some("a"), 1, "/9"),
        file(Some("b"), 1, "/1"),
        file(Some("a"), 1, "/3"),
    ];
    let listing = duplicate_listing(&files, 0, false);
    let seen: Vec<(&str, &str)> =
        listing.iter().map(|f| (f.hash.as_str(), f.path.as_str())).collect();
    assert_eq!(seen, vec![("a", "/3"), ("a", "/9"), ("b", "/1"), ("b", "/2")]);
}

#[test]
fn every_group_is_a_real_duplicate_set() {
    let mut files = Vec::new();
    for i in 0..200i64 {
        let hash = format!("{:02}", (i * 7919) % 37);
        files.push(file(Some(&hash), 100 + (i % 3), &format!("/f{}", i)));
    }
    for mode in [DupMode::Full, DupMode::Fast] {
        let groups = find_duplicates(&files, 0, mode);
        let mut keys = Vec::new();
        for (n, g) in groups.iter().enumerate() {
            assert_eq!(g.group_id, n + 1);
            assert!(g.files.len() >= 2);
            for f in &g.files {
                assert_eq!(f.hash, g.hash);
                if mode == DupMode::Fast {
                    assert_eq!(f.size, g.size);
                }
            }
            let key = (if mode == DupMode::Fast { g.size } else { 0 }, g.hash.clone());
            assert!(!keys.contains(&key));
            keys.push(key);
        }
    }
}

#[test]
fn texts_compare_by_characters() {
    let s = |x: &str| x.to_string();
    assert!(text_less(&s("a"), &s("b")));
    assert!(text_less(&s("a"), &s("ab")));
    assert!(!text_less(&s("ab"), &s("a")));
    assert!(!text_less(&s("a"), &s("a")));
    assert!(text_less(&s(""), &s("a")));
    assert!(text_less(&s("Z"), &s("a")));
    assert!(text_less(&s("z"), &s("é")));
}
