use da_core::{create_history_entry, Edit, HistoryFile, PatchFile};

#[test]
fn test_history_add_and_get() {
    let mut history = HistoryFile::new();

    let mut patch = PatchFile::new("test_family");
    patch.add_edit(Edit::new(1, "col", "val"));

    let entry = create_history_entry(
        &patch,
        vec!["output.csv".to_string()],
        "exports".to_string(),
    );

    history.add_entry(entry);

    assert_eq!(history.total_entries(), 1);
    assert!(history.get_family_history("test_family").is_some());
    assert!(history.get_last_entry("test_family").is_some());
}

#[test]
fn test_history_pop() {
    let mut history = HistoryFile::new();

    let mut patch = PatchFile::new("test_family");
    patch.add_edit(Edit::new(1, "col", "val"));

    let entry = create_history_entry(
        &patch,
        vec!["output.csv".to_string()],
        "exports".to_string(),
    );

    history.add_entry(entry);

    let popped = history.pop_last_entry("test_family");
    assert!(popped.is_some());
    assert_eq!(history.total_entries(), 0);
}

#[test]
fn history_keeps_order_per_family() {
    let mut history = HistoryFile::new();
    for (family, n) in [("a", 1), ("b", 2), ("a", 3)] {
        let mut patch = PatchFile::new(family);
        patch.add_edit(Edit::new(n, "c", "v"));
        history.add_entry(create_history_entry(&patch, vec![], "out".to_string()));
    }
    assert_eq!(history.total_entries(), 3);
    assert_eq!(history.families(), vec!["a", "b"]);
    assert_eq!(history.get_family_history("a").unwrap().len(), 2);
    assert_eq!(history.get_last_entry("a").unwrap().patch.edits[0].row_id, 3);
    let popped = history.pop_last_entry("a").unwrap();
    assert_eq!(popped.patch.edits[0].row_id, 3);
    assert_eq!(history.get_last_entry("a").unwrap().patch.edits[0].row_id, 1);
    assert!(history.pop_last_entry("missing").is_none());
    assert!(history.get_last_entry("missing").is_none());
}
