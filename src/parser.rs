//! Reading comma-separated text into a table.

use vstd::prelude::*;

use crate::error::Error;
use crate::table::{cell_text, lemma_cell_text_round_trip, parse_cell, CellModel, CellValue, Column, Row, Table};

verus! {

/// The header record that the csv crate reads from `text`.
pub uninterp spec fn csv_header_of(text: Seq<char>) -> Seq<Seq<char>>;

/// The records after the header that the csv crate reads from `text`, records of
/// any length accepted.
pub uninterp spec fn csv_records_of(text: Seq<char>) -> Seq<Seq<Seq<char>>>;

pub open spec fn fields_view(fields: Seq<String>) -> Seq<Seq<char>> {
    fields.map_values(|f: String| f@)
}

pub open spec fn records_view(records: Seq<Vec<String>>) -> Seq<Seq<Seq<char>>> {
    records.map_values(|r: Vec<String>| fields_view(r@))
}

/// Relies on the csv crate's `ReaderBuilder` with headers and flexible records:
/// `headers` gives the first record and `records` the ones after it. Reading from
/// a byte slice has no input error, flexible records have no length error, and
/// fields cut from UTF-8 text at commas, quotes and line ends are UTF-8, so the
/// reader does not fail on text.
#[verifier::external_body]
fn read_records(text: &str) -> (r: Result<(Vec<String>, Vec<Vec<String>>), String>)
    ensures
        r is Ok,
        r matches Ok(p) ==> fields_view(p.0@) == csv_header_of(text@) && records_view(p.1@)
            == csv_records_of(text@),
{
    let mut reader = csv::ReaderBuilder::new().has_headers(true).flexible(true).from_reader(
        text.as_bytes(),
    );
    let header = reader.headers().map_err(|e| e.to_string())?.iter().map(String::from).collect();
    let mut records = Vec::new();
    for record in reader.records() {
        records.push(record.map_err(|e| e.to_string())?.iter().map(String::from).collect());
    }
    Ok((header, records))
}

/// The id of a record: its first field, when that reads as an integer.
pub open spec fn record_id(record: Seq<Seq<char>>) -> Option<i64> {
    if record.len() > 0 {
        match parse_cell(record[0]) {
            CellModel::Integer(i) => Some(i),
            _ => None,
        }
    } else {
        None
    }
}

/// The cells of a record, padded with empty cells or cut to `width`.
pub open spec fn record_cells(record: Seq<Seq<char>>, width: nat) -> Seq<CellModel> {
    Seq::new(
        width,
        |j: int|
            if j < record.len() {
                parse_cell(record[j])
            } else {
                CellModel::Empty
            },
    )
}

pub open spec fn cell_models(cells: Seq<CellValue>) -> Seq<CellModel> {
    cells.map_values(|c: CellValue| c@)
}

/// `t` is the table that `header` and `records` make, read from `source`.
pub open spec fn table_of_records(
    t: Table,
    header: Seq<Seq<char>>,
    records: Seq<Seq<Seq<char>>>,
    source: Seq<char>,
) -> bool {
    &&& t.source_path@ == source
    &&& t.columns@.len() == header.len()
    &&& forall|j: int|
        0 <= j < header.len() ==> (#[trigger] t.columns@[j]).name@ == header[j] && t.columns@[j].index
            == j
    &&& t.rows@.len() == records.len()
    &&& forall|i: int|
        0 <= i < records.len() ==> (#[trigger] t.rows@[i]).id == record_id(records[i])
            && cell_models(t.rows@[i].cells@) == record_cells(records[i], header.len())
}

pub open spec fn no_columns_text() -> Seq<char> {
    "no columns found in CSV"@
}

/// The table that a header and its records make.
///
/// There is one column per header field. Each record gives a row whose cells are
/// its fields read as typed cells, padded with empty cells or cut to the header's
/// width, and whose id is its first cell when that is an integer. A header with
/// no field is refused.
pub fn table_from_records(header: &Vec<String>, records: &Vec<Vec<String>>, source: &str) -> (r:
    Result<Table, Error>)
    ensures
        match r {
            Ok(t) => header@.len() > 0 && table_of_records(
                t,
                fields_view(header@),
                records_view(records@),
                source@,
            ),
            Err(Error::CsvParse { path, message }) => header@.len() == 0 && path@ == source@
                && message@ == no_columns_text(),
            Err(_) => false,
        },
{
    if header.len() == 0 {
        return Err(
            Error::CsvParse { path: source.to_owned(), message: "no columns found in CSV".to_owned() },
        );
    }
    let width = header.len();
    let mut columns: Vec<Column> = Vec::new();
    let mut j: usize = 0;
    while j < width
        invariant
            j <= width,
            width == header@.len(),
            columns@.len() == j,
            forall|m: int|
                0 <= m < j ==> (#[trigger] columns@[m]).name@ == header@[m]@ && columns@[m].index
                    == m,
        decreases width - j,
    {
        columns.push(Column::new(header[j].clone(), j));
        j += 1;
    }
    let ghost recs = records_view(records@);
    let mut rows: Vec<Row> = Vec::new();
    let mut i: usize = 0;
    while i < records.len()
        invariant
            i <= records@.len(),
            width == header@.len(),
            recs == records_view(records@),
            rows@.len() == i,
            forall|m: int|
                0 <= m < i ==> (#[trigger] rows@[m]).id == record_id(recs[m]) && cell_models(
                    rows@[m].cells@,
                ) == record_cells(recs[m], width as nat),
        decreases records.len() - i,
    {
        let record = &records[i];
        let ghost rec = recs[i as int];
        assert(rec == fields_view(record@));
        let mut cells: Vec<CellValue> = Vec::new();
        let mut k: usize = 0;
        while k < width
            invariant
                k <= width,
                rec == fields_view(record@),
                cells@.len() == k,
                forall|m: int| 0 <= m < k ==> (#[trigger] cells@[m])@ == record_cells(rec, width as nat)[m],
            decreases width - k,
        {
            if k < record.len() {
                cells.push(CellValue::parse(record[k].as_str()));
            } else {
                cells.push(CellValue::Empty);
            }
            k += 1;
        }
        assert(cell_models(cells@) =~= record_cells(rec, width as nat));
        let id = if record.len() > 0 {
            match CellValue::parse(record[0].as_str()) {
                CellValue::Integer(v) => Some(v),
                _ => None,
            }
        } else {
            None
        };
        rows.push(Row::new(id, cells));
        i += 1;
    }
    let t = Table { columns, rows, source_path: source.to_owned() };
    assert(fields_view(header@).len() == header@.len());
    Ok(t)
}

/// Whether `e` is the error of a file at `path` whose header has no field.
pub open spec fn is_no_columns_error(e: Error, path: Seq<char>) -> bool {
    match e {
        Error::CsvParse { path: p, message } => p@ == path && message@ == no_columns_text(),
        _ => false,
    }
}

/// Reads comma-separated text, named `source_name`, into a table.
///
/// The first record is the header. The text reads as a table exactly when its
/// header has a field; otherwise the result is `Error::CsvParse`.
pub fn parse_csv_str(content: &str, source_name: &str) -> (r: Result<Table, Error>)
    ensures
        r is Ok <==> csv_header_of(content@).len() > 0,
        match r {
            Ok(t) => table_of_records(
                t,
                csv_header_of(content@),
                csv_records_of(content@),
                source_name@,
            ),
            Err(e) => is_no_columns_error(e, source_name@),
        },
{
    match read_records(content) {
        Ok((header, records)) => table_from_records(&header, &records, source_name),
        Err(message) => Err(Error::Csv { path: source_name.to_owned(), message }),
    }
}


/// The records that writing each cell of `t` as text gives.
pub open spec fn cell_texts(t: Table) -> Seq<Seq<Seq<char>>> {
    t.rows@.map_values(|r: Row| cell_models(r.cells@).map_values(|c: CellModel| cell_text(c)))
}

/// Reading a table, writing every cell back as text, and reading those texts
/// again gives the same row ids and the same cells.
pub proof fn lemma_table_text_round_trip(
    t: Table,
    header: Seq<Seq<char>>,
    records: Seq<Seq<Seq<char>>>,
    source: Seq<char>,
    again: Table,
)
    requires
        header.len() > 0,
        table_of_records(t, header, records, source),
        table_of_records(again, header, cell_texts(t), source),
    ensures
        again.rows@.len() == t.rows@.len(),
        forall|i: int|
            0 <= i < t.rows@.len() ==> (#[trigger] again.rows@[i]).id == t.rows@[i].id
                && cell_models(again.rows@[i].cells@) == cell_models(t.rows@[i].cells@),
{
    let w = header.len();
    assert forall|i: int| 0 <= i < t.rows@.len() implies (#[trigger] again.rows@[i]).id
        == t.rows@[i].id && cell_models(again.rows@[i].cells@) == cell_models(t.rows@[i].cells@) by {
        let rec = records[i];
        let ms = cell_models(t.rows@[i].cells@);
        let texts = cell_texts(t)[i];
        assert(ms == record_cells(rec, w));
        assert(texts == ms.map_values(|c: CellModel| cell_text(c)));
        assert forall|j: int| 0 <= j < w implies #[trigger] record_cells(texts, w)[j] == ms[j] by {
            if j < rec.len() {
                lemma_cell_text_round_trip(rec[j]);
            } else {
                assert(cell_text(CellModel::Empty) =~= Seq::<char>::empty());
                assert(parse_cell(Seq::<char>::empty()) == CellModel::Empty);
            }
        }
        assert(record_cells(texts, w) =~= ms);
        if rec.len() > 0 {
            lemma_cell_text_round_trip(rec[0]);
        } else {
            assert(parse_cell(Seq::<char>::empty()) == CellModel::Empty);
        }
        assert(texts[0] == cell_text(ms[0]));
    }
}

} // verus!
