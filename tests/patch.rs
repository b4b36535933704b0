use da_core::{
    apply_patch, escape_csv, merge_tables, parse_csv_str, plan_export, render_edited, Edit,
    PatchFile,
};

#[test]
fn test_edit_creation() {
    let edit = Edit::new(42, "Name", "NewValue");
    assert_eq!(edit.row_id, 42);
    assert_eq!(edit.column, "Name");
    assert_eq!(edit.value, "NewValue");
}

#[test]
fn test_escape_csv() {
    assert_eq!(escape_csv("simple"), "simple");
    assert_eq!(escape_csv("with,comma"), "\"with,comma\"");
    assert_eq!(escape_csv("with\"quote"), "\"with\"\"quote\"");
    assert_eq!(escape_csv("with\nnewline"), "\"with\nnewline\"");
}

#[test]
fn escape_carriage_return_and_empty() {
    assert_eq!(escape_csv("a\rb"), "\"a\rb\"");
    assert_eq!(escape_csv(""), "");
}

fn scenario() -> da_core::ResolvedTable {
    let base = parse_csv_str("ID,Name,Value\n1,foo,100\n2,bar,200\n", "data/base.csv").unwrap();
    let overlay = parse_csv_str("ID,Name,Value\n1,FOO,999\n", "data/base_kcc.csv").unwrap();
    merge_tables("base", vec![base, overlay]).unwrap()
}

#[test]
fn end_to_end_merge_and_patch() {
    let merged = scenario();
    let row1 = merged.find_row(1).unwrap();
    assert_eq!(row1.cells[1].value, da_core::CellValue::String("FOO".to_string()));
    assert_eq!(row1.cells[2].value, da_core::CellValue::Integer(999));
    assert_eq!(row1.cells[1].source, "data/base_kcc.csv");
    let row2 = merged.find_row(2).unwrap();
    assert_eq!(row2.cells[1].value, da_core::CellValue::String("bar".to_string()));
    assert_eq!(row2.cells[2].value, da_core::CellValue::Integer(200));
    assert_eq!(row2.cells[1].source, "data/base.csv");

    let mut patch = PatchFile::new("base");
    patch.add_edit(Edit::new(1, "Name", "Renamed"));
    let result = apply_patch(&merged, &patch).unwrap();
    assert_eq!(result.family, "base");
    assert_eq!(result.edits_applied, 1);
    assert!(result.failed_edits.is_empty());
    assert_eq!(result.modified_sources, vec![("data/base_kcc.csv".to_string(), vec![1])]);
}

#[test]
fn export_writes_only_the_owning_file() {
    let merged = scenario();
    let mut patch = PatchFile::new("base");
    patch.add_edit(Edit::new(1, "Name", "Renamed"));
    let plan = plan_export(&merged, &patch);
    assert_eq!(plan.len(), 1);
    assert_eq!(plan[0].0, "data/base_kcc.csv");
    assert_eq!(plan[0].1.len(), 1);

    let overlay_file = parse_csv_str("ID,Name,Value\n1,FOO,999\n", &plan[0].0).unwrap();
    let text = render_edited(&overlay_file, &plan[0].1);
    assert_eq!(text, "ID,Name,Value\n1,Renamed,999\n");
    let again = parse_csv_str(&text, "out.csv").unwrap();
    assert_eq!(again.rows.len(), 1);
    assert_eq!(again.rows[0].cells[1], da_core::CellValue::String("Renamed".to_string()));
    assert_eq!(again.rows[0].cells[2], da_core::CellValue::Integer(999));
    assert!(again.find_row(2).is_none());
}

#[test]
fn missing_row_and_column_are_reported() {
    let merged = scenario();
    let mut patch = PatchFile::new("base");
    patch.add_edit(Edit::new(99, "Name", "x"));
    patch.add_edit(Edit::new(2, "Nope", "y"));
    patch.add_edit(Edit::new(2, "Value", "250"));
    patch.add_edit(Edit::new(1, "Value", "1000"));
    let result = apply_patch(&merged, &patch).unwrap();
    assert_eq!(result.edits_applied, 2);
    assert_eq!(result.failed_edits.len(), 2);
    assert_eq!(result.failed_edits[0].0.row_id, 99);
    assert_eq!(result.failed_edits[0].1, "Row ID 99 not found");
    assert_eq!(result.failed_edits[1].1, "Column 'Nope' not found");
    assert_eq!(
        result.modified_sources,
        vec![("data/base.csv".to_string(), vec![2]), ("data/base_kcc.csv".to_string(), vec![1])]
    );
    for (_, ids) in &result.modified_sources {
        assert!(!ids.contains(&99));
    }
    let plan = plan_export(&merged, &patch);
    assert_eq!(plan.len(), 2);
    assert_eq!(plan[0].1[0].value, "250");
}

#[test]
fn negative_row_id_reason() {
    let merged = scenario();
    let mut patch = PatchFile::new("base");
    patch.add_edit(Edit::new(-5, "Name", "x"));
    let result = apply_patch(&merged, &patch).unwrap();
    assert_eq!(result.failed_edits[0].1, "Row ID -5 not found");
    assert!(result.modified_sources.is_empty());
}

#[test]
fn render_escapes_and_applies_last_edit() {
    let t = parse_csv_str("ID,Text,N\n1,plain,2\nx,keep,3\n", "f.csv").unwrap();
    let edits = vec![
        Edit::new(1, "Text", "first"),
        Edit::new(1, "Text", "a,b"),
        Edit::new(1, "Missing", "z"),
    ];
    let text = render_edited(&t, &edits);
    assert_eq!(text, "ID,Text,N\n1,\"a,b\",2\nx,keep,3\n");
}
