use dedup::cli::DupMode;
use dedup::dialog::FolderSelection;

#[test]
fn test_module_compiles() {
    let selection = FolderSelection::new();
    assert!(selection.finish().is_none());
    assert!(true);
}

#[test]
fn folders_are_chosen_once() {
    let mut s = FolderSelection::new();
    assert_eq!(s.prompt("选择"), "选择");
    assert!(s.add("/a".to_string()));
    assert!(s.add("/b".to_string()));
    assert!(!s.add("/a".to_string()));
    assert!(s.contains(&"/b".to_string()));
    assert!(!s.contains(&"/c".to_string()));
    assert_eq!(s.prompt("选择"), "选择 (已选 2 个，取消结束选择)");
    assert_eq!(s.finish(), Some(vec!["/a".to_string(), "/b".to_string()]));
}

#[test]
fn dup_mode_grouping() {
    assert!(DupMode::Fast.groups_by_size());
    assert!(!DupMode::Full.groups_by_size());
}
