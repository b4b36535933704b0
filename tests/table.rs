use da_core::{CellValue, Column, Row, Table};

#[test]
fn test_cell_value_parse_integer() {
    assert_eq!(CellValue::parse("42"), CellValue::Integer(42));
    assert_eq!(CellValue::parse("-123"), CellValue::Integer(-123));
    assert_eq!(CellValue::parse("0"), CellValue::Integer(0));
}

#[test]
fn test_cell_value_parse_float() {
    assert_eq!(CellValue::parse("3.14"), CellValue::Float("3.14".to_string()));
    assert_eq!(CellValue::parse("-2.5"), CellValue::Float("-2.5".to_string()));
}

#[test]
fn test_cell_value_parse_string() {
    assert_eq!(
        CellValue::parse("hello"),
        CellValue::String("hello".to_string())
    );
    assert_eq!(
        CellValue::parse("0xABCD"),
        CellValue::String("0xABCD".to_string())
    );
}

#[test]
fn test_cell_value_parse_empty() {
    assert_eq!(CellValue::parse(""), CellValue::Empty);
    assert_eq!(CellValue::parse("   "), CellValue::Empty);
}

#[test]
fn test_cell_value_is_empty() {
    assert!(CellValue::Empty.is_empty());
    assert!(!CellValue::Integer(0).is_empty());
    assert!(!CellValue::String("".to_string()).is_empty());
}

#[test]
fn cell_parse_trims_surrounding_white_space() {
    assert_eq!(CellValue::parse("  foo \t"), CellValue::String("foo".to_string()));
    assert_eq!(CellValue::parse(" 7 "), CellValue::Integer(7));
    assert_eq!(CellValue::parse("\u{3000}x\u{A0}"), CellValue::String("x".to_string()));
}

#[test]
fn cell_parse_signs_and_limits() {
    assert_eq!(CellValue::parse("+5"), CellValue::Integer(5));
    assert_eq!(CellValue::parse("9223372036854775807"), CellValue::Integer(i64::MAX));
    assert_eq!(CellValue::parse("-9223372036854775808"), CellValue::Integer(i64::MIN));
    assert_eq!(
        CellValue::parse("9223372036854775808"),
        CellValue::Float("9223372036854775808".to_string())
    );
    assert_eq!(CellValue::parse("-"), CellValue::String("-".to_string()));
    assert_eq!(CellValue::parse("1-2"), CellValue::String("1-2".to_string()));
}

#[test]
fn cell_parse_float_forms() {
    assert_eq!(CellValue::parse("1e5"), CellValue::Float("1e5".to_string()));
    assert_eq!(CellValue::parse(".5"), CellValue::Float(".5".to_string()));
    assert_eq!(CellValue::parse("5."), CellValue::Float("5.".to_string()));
    assert_eq!(CellValue::parse("2.5E-3"), CellValue::Float("2.5E-3".to_string()));
    assert_eq!(CellValue::parse("inf"), CellValue::Float("inf".to_string()));
    assert_eq!(CellValue::parse("-Infinity"), CellValue::Float("-Infinity".to_string()));
    assert_eq!(CellValue::parse("NaN"), CellValue::Float("NaN".to_string()));
    assert_eq!(CellValue::parse("."), CellValue::String(".".to_string()));
    assert_eq!(CellValue::parse("1e"), CellValue::String("1e".to_string()));
    assert_eq!(CellValue::parse("1.2.3"), CellValue::String("1.2.3".to_string()));
    assert_eq!(CellValue::parse("infin"), CellValue::String("infin".to_string()));
}

#[test]
fn cell_text_values() {
    assert_eq!(CellValue::Integer(-120).to_string_value(), "-120");
    assert_eq!(CellValue::Integer(i64::MIN).to_string_value(), "-9223372036854775808");
    assert_eq!(CellValue::Integer(0).to_string_value(), "0");
    assert_eq!(CellValue::Float("3.14".to_string()).to_string_value(), "3.14");
    assert_eq!(CellValue::String("abc".to_string()).to_string_value(), "abc");
    assert_eq!(CellValue::Empty.to_string_value(), "");
}

#[test]
fn cell_text_round_trip() {
    for token in ["42", " -7 ", "3.14", "  hello  ", "", "   ", "1e5", "0xABCD", "+8"] {
        let cell = CellValue::parse(token);
        assert_eq!(CellValue::parse(&cell.to_string_value()), cell);
    }
}

#[test]
fn table_lookups() {
    let mut t = Table::new("a.csv".to_string());
    assert_eq!(t.column_count(), 0);
    t.columns.push(Column::new("ID".to_string(), 0));
    t.columns.push(Column::new("Name".to_string(), 1));
    t.rows.push(Row::new(Some(3), vec![CellValue::Integer(3), CellValue::String("x".to_string())]));
    t.rows.push(Row::new(None, vec![CellValue::String("y".to_string()), CellValue::Empty]));
    assert_eq!(t.column_count(), 2);
    assert_eq!(t.row_count(), 2);
    assert_eq!(t.find_column("Name").unwrap().index, 1);
    assert!(t.find_column("Nope").is_none());
    assert_eq!(t.find_row(3).unwrap().cells[1], CellValue::String("x".to_string()));
    assert!(t.find_row(4).is_none());
    assert_eq!(t.rows[1].get(1), Some(&CellValue::Empty));
    assert_eq!(t.rows[1].get(2), None);
}
