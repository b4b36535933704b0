use da_core::{
    merge_family, merge_tables, parse_csv_str, CellValue, Error, Family, FamilyMember,
};

#[test]
fn test_merge_single_table() {
    let csv = "ID,Name,Value\n1,foo,100\n2,bar,200\n";
    let table = parse_csv_str(csv, "base.csv").unwrap();

    let result = merge_tables("test", vec![table]).unwrap();

    assert_eq!(result.columns.len(), 3);
    assert_eq!(result.rows.len(), 2);
    assert_eq!(result.rows[0].id, Some(1));
    assert_eq!(result.rows[1].id, Some(2));
}

#[test]
fn test_merge_override_cells() {
    let base = "ID,Name,Value\n1,foo,100\n2,bar,200\n";
    let overlay = "ID,Name,Value\n1,FOO,999\n";

    let base_table = parse_csv_str(base, "base.csv").unwrap();
    let overlay_table = parse_csv_str(overlay, "overlay.csv").unwrap();

    let result = merge_tables("test", vec![base_table, overlay_table]).unwrap();

    // Row 1 should be overridden
    let row1 = result.find_row(1).unwrap();
    assert_eq!(row1.cells[1].value, CellValue::String("FOO".to_string()));
    assert_eq!(row1.cells[2].value, CellValue::Integer(999));

    // Row 2 should be unchanged
    let row2 = result.find_row(2).unwrap();
    assert_eq!(row2.cells[1].value, CellValue::String("bar".to_string()));
}

#[test]
fn test_merge_add_new_row() {
    let base = "ID,Name\n1,foo\n";
    let overlay = "ID,Name\n2,bar\n";

    let base_table = parse_csv_str(base, "base.csv").unwrap();
    let overlay_table = parse_csv_str(overlay, "overlay.csv").unwrap();

    let result = merge_tables("test", vec![base_table, overlay_table]).unwrap();

    assert_eq!(result.rows.len(), 2);
    assert!(result.find_row(1).is_some());
    assert!(result.find_row(2).is_some());
}

#[test]
fn test_merge_column_union() {
    let base = "ID,Name\n1,foo\n";
    let overlay = "ID,Extra\n1,bonus\n";

    let base_table = parse_csv_str(base, "base.csv").unwrap();
    let overlay_table = parse_csv_str(overlay, "overlay.csv").unwrap();

    let result = merge_tables("test", vec![base_table, overlay_table]).unwrap();

    // Should have 3 columns: ID, Name, Extra
    assert_eq!(result.columns.len(), 3);
    assert!(result.find_column("ID").is_some());
    assert!(result.find_column("Name").is_some());
    assert!(result.find_column("Extra").is_some());
}

#[test]
fn test_provenance_tracking() {
    let base = "ID,Value\n1,100\n";
    let overlay = "ID,Value\n1,200\n";

    let base_table = parse_csv_str(base, "base.csv").unwrap();
    let overlay_table = parse_csv_str(overlay, "overlay.csv").unwrap();

    let result = merge_tables("test", vec![base_table, overlay_table]).unwrap();

    // Value should come from overlay
    let row = result.find_row(1).unwrap();
    assert_eq!(row.cells[1].source, "overlay.csv");
}

#[test]
fn test_empty_cells_dont_override() {
    let base = "ID,Value\n1,100\n";
    let overlay = "ID,Value\n1,\n";

    let base_table = parse_csv_str(base, "base.csv").unwrap();
    let overlay_table = parse_csv_str(overlay, "overlay.csv").unwrap();

    let result = merge_tables("test", vec![base_table, overlay_table]).unwrap();

    // Empty cell should not override base value
    let row = result.find_row(1).unwrap();
    assert_eq!(row.cells[1].value, CellValue::Integer(100));
    assert_eq!(row.cells[1].source, "base.csv");
}

#[test]
fn merge_of_no_tables_is_refused() {
    match merge_tables("nothing", vec![]) {
        Err(Error::FamilyNotFound(name)) => assert_eq!(name, "nothing"),
        other => panic!("unexpected: {:?}", other),
    }
}

#[test]
fn merged_columns_count_distinct_names() {
    let a = parse_csv_str("ID,A,B\n1,x,y\n", "a.csv").unwrap();
    let b = parse_csv_str("ID,B,C,A\n1,p,q,r\n", "b.csv").unwrap();
    let c = parse_csv_str("D,ID\nz,1\n", "c.csv").unwrap();
    let result = merge_tables("f", vec![a, b, c]).unwrap();
    let names: Vec<&str> = result.columns.iter().map(|c| c.name.as_str()).collect();
    assert_eq!(names, vec!["ID", "A", "B", "C", "D"]);
    for (i, col) in result.columns.iter().enumerate() {
        assert_eq!(col.index, i);
    }
    for row in &result.rows {
        assert_eq!(row.cells.len(), 5);
    }
    assert_eq!(result.column_count(), 5);
    assert!(result.is_well_formed());
}

#[test]
fn merge_overlay_value_and_source() {
    let base = parse_csv_str("ID,Name,Value\n1,foo,100\n2,bar,200\n", "base.csv").unwrap();
    let overlay = parse_csv_str("ID,Name,Value\n1,,999\n", "base_kcc.csv").unwrap();
    let result = merge_tables("base", vec![base, overlay]).unwrap();
    let row = result.find_row(1).unwrap();
    assert_eq!(row.cells[1].value, CellValue::String("foo".to_string()));
    assert_eq!(row.cells[1].source, "base.csv");
    assert_eq!(row.cells[2].value, CellValue::Integer(999));
    assert_eq!(row.cells[2].source, "base_kcc.csv");
    assert_eq!(result.get_provenance(0, 2).map(|s| s.as_str()), Some("base_kcc.csv"));
    assert_eq!(result.get_provenance(5, 0), None);
    assert_eq!(result.sources, vec!["base.csv".to_string(), "base_kcc.csv".to_string()]);
    assert_eq!(result.family_name, "base");
}

#[test]
fn merge_single_member_id_is_attributed_to_it() {
    let base = parse_csv_str("ID,Name\n1,foo\n", "base.csv").unwrap();
    let overlay = parse_csv_str("ID,Name,Extra\n7,seven,x\n", "over.csv").unwrap();
    let result = merge_tables("t", vec![base, overlay]).unwrap();
    let rows: Vec<_> = result.rows.iter().filter(|r| r.id == Some(7)).collect();
    assert_eq!(rows.len(), 1);
    for cell in &rows[0].cells {
        assert_eq!(cell.source, "over.csv");
    }
    let row1 = result.find_row(1).unwrap();
    assert_eq!(row1.cells[2].value, CellValue::Empty);
    assert_eq!(row1.cells[2].source, "base.csv");
}

#[test]
fn merge_keeps_id_less_rows_in_order() {
    let a = parse_csv_str("Name,V\nfoo,1\n", "a.csv").unwrap();
    let b = parse_csv_str("Name,V\nfoo,1\n", "b.csv").unwrap();
    let result = merge_tables("t", vec![a, b]).unwrap();
    assert_eq!(result.rows.len(), 2);
    assert_eq!(result.rows[0].id, None);
    assert_eq!(result.rows[1].id, None);
    assert_eq!(result.rows[0].cells[0].source, "a.csv");
    assert_eq!(result.rows[1].cells[0].source, "b.csv");
}

#[test]
fn merge_orders_ids_ascending_then_id_less() {
    let a = parse_csv_str("ID,V\n5,a\nx,b\n2,c\n", "a.csv").unwrap();
    let b = parse_csv_str("ID,V\n3,d\ny,e\n", "b.csv").unwrap();
    let result = merge_tables("t", vec![a, b]).unwrap();
    let ids: Vec<Option<i64>> = result.rows.iter().map(|r| r.id).collect();
    assert_eq!(ids, vec![Some(2), Some(3), Some(5), None, None]);
    assert_eq!(result.rows[3].cells[1].value, CellValue::String("b".to_string()));
    assert_eq!(result.rows[4].cells[1].value, CellValue::String("e".to_string()));
}

#[test]
fn merge_family_from_texts() {
    let family = Family {
        name: "abi".to_string(),
        members: vec![
            FamilyMember { path: "abi.csv".to_string(), suffix: None },
            FamilyMember { path: "abi_kcc.csv".to_string(), suffix: Some("kcc".to_string()) },
        ],
    };
    let texts = vec!["ID,V\n1,a\n".to_string(), "ID,V\n1,b\n".to_string()];
    let merged = merge_family(&family, &texts).unwrap();
    assert_eq!(merged.rows[0].cells[1].value, CellValue::String("b".to_string()));
    assert_eq!(merged.rows[0].cells[1].source, "abi_kcc.csv");

    let empty = Family { name: "none".to_string(), members: vec![] };
    assert!(matches!(merge_family(&empty, &vec![]), Err(Error::FamilyNotFound(_))));

    let broken = vec!["ID,V\n1,a\n".to_string(), "".to_string()];
    match merge_family(&family, &broken) {
        Err(Error::CsvParse { path, .. }) => assert_eq!(path, "abi_kcc.csv"),
        other => panic!("unexpected: {:?}", other),
    }
    let both_broken = vec!["\n".to_string(), "".to_string()];
    match merge_family(&family, &both_broken) {
        Err(Error::CsvParse { path, .. }) => assert_eq!(path, "abi.csv"),
        other => panic!("unexpected: {:?}", other),
    }
}
