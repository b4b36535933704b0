use da_core::{parse_csv_str, CellValue, Error};

#[test]
fn test_parse_simple_csv() {
    let csv = "ID,Name,Value\n1,foo,100\n2,bar,200\n";
    let table = parse_csv_str(csv, "test.csv").unwrap();

    assert_eq!(table.columns.len(), 3);
    assert_eq!(table.columns[0].name, "ID");
    assert_eq!(table.columns[1].name, "Name");
    assert_eq!(table.columns[2].name, "Value");

    assert_eq!(table.rows.len(), 2);
    assert_eq!(table.rows[0].id, Some(1));
    assert_eq!(table.rows[1].id, Some(2));
}

#[test]
fn test_parse_with_empty_cells() {
    let csv = "ID,Name,Value\n1,,100\n2,bar,\n";
    let table = parse_csv_str(csv, "test.csv").unwrap();

    assert_eq!(table.rows[0].cells[1], CellValue::Empty);
    assert_eq!(table.rows[1].cells[2], CellValue::Empty);
}

#[test]
fn test_parse_hex_column_names() {
    let csv = "ID,0xABCD,0x1234\n1,10,20\n";
    let table = parse_csv_str(csv, "test.csv").unwrap();

    assert_eq!(table.columns[1].name, "0xABCD");
    assert_eq!(table.columns[2].name, "0x1234");
}

#[test]
fn test_parse_with_floats() {
    let csv = "ID,Value\n1,3.14\n2,-2.5\n";
    let table = parse_csv_str(csv, "test.csv").unwrap();

    assert_eq!(table.rows[0].cells[1], CellValue::Float("3.14".to_string()));
    assert_eq!(table.rows[1].cells[1], CellValue::Float("-2.5".to_string()));
}

#[test]
fn test_parse_non_integer_id() {
    let csv = "Name,Value\nfoo,100\nbar,200\n";
    let table = parse_csv_str(csv, "test.csv").unwrap();

    // No integer in first column, so id should be None
    assert_eq!(table.rows[0].id, None);
    assert_eq!(table.rows[1].id, None);
}

#[test]
fn parse_pads_short_and_cuts_long_records() {
    let table = parse_csv_str("A,B,C\n1\n2,x,y,z,w\n", "p.csv").unwrap();
    assert_eq!(table.rows[0].cells, vec![CellValue::Integer(1), CellValue::Empty, CellValue::Empty]);
    assert_eq!(
        table.rows[1].cells,
        vec![
            CellValue::Integer(2),
            CellValue::String("x".to_string()),
            CellValue::String("y".to_string())
        ]
    );
    assert_eq!(table.source_path, "p.csv");
    assert_eq!(table.columns[2].index, 2);
}

#[test]
fn parse_quoted_fields() {
    let table = parse_csv_str("ID,Text\n5,\"a, \"\"b\"\"\"\n", "q.csv").unwrap();
    assert_eq!(table.rows[0].cells[1], CellValue::String("a, \"b\"".to_string()));
}

#[test]
fn parse_empty_text_has_no_columns() {
    match parse_csv_str("", "empty.csv") {
        Err(Error::CsvParse { path, message }) => {
            assert_eq!(path, "empty.csv");
            assert_eq!(message, "no columns found in CSV");
        }
        other => panic!("unexpected: {:?}", other),
    }
}

#[test]
fn parse_round_trip_of_cells() {
    let table = parse_csv_str("ID,V,W\n1, 2.5 ,x\n2,,  -3\n", "r.csv").unwrap();
    let mut text = String::from("ID,V,W\n");
    for row in &table.rows {
        let cells: Vec<String> = row.cells.iter().map(|c| c.to_string_value()).collect();
        text.push_str(&cells.join(","));
        text.push('\n');
    }
    let again = parse_csv_str(&text, "r.csv").unwrap();
    for (a, b) in table.rows.iter().zip(again.rows.iter()) {
        assert_eq!(a.id, b.id);
        assert_eq!(a.cells, b.cells);
    }
}

#[test]
fn parse_blank_text_has_no_columns() {
    assert!(matches!(parse_csv_str("\n\n", "blank.csv"), Err(Error::CsvParse { .. })));
    assert!(parse_csv_str("A\n", "one.csv").is_ok());
}
