//! Typed tables: cells, columns, rows and the table read from one file.

use vstd::prelude::*;

use crate::text::{
    all_white, chars_of, lemma_trimmed_surrounded, decimal_text, float_syntax, float_syntax_exec, int_of, int_text,
    lemma_decimal_text_round_trip, lemma_trimmed_idempotent, parse_int_in, trim_str, trimmed,
};

verus! {

/// What a cell holds, as a mathematical value.
pub enum CellModel {
    Integer(i64),
    Float(Seq<char>),
    Text(Seq<char>),
    Empty,
}

/// A typed cell value.
///
/// A floating-point cell keeps the text it was read from; that text has the
/// syntax of a floating-point number and is not an `i64`.
#[derive(Debug, PartialEq)]
pub enum CellValue {
    Integer(i64),
    Float(String),
    String(String),
    Empty,
}

impl View for CellValue {
    type V = CellModel;

    open spec fn view(&self) -> CellModel {
        match self {
            CellValue::Integer(i) => CellModel::Integer(*i),
            CellValue::Float(s) => CellModel::Float(s@),
            CellValue::String(s) => CellModel::Text(s@),
            CellValue::Empty => CellModel::Empty,
        }
    }
}

/// The cell that a raw token denotes: the trimmed token read as the first that
/// fits of integer, floating-point number and text; empty when nothing is left.
pub open spec fn parse_cell(s: Seq<char>) -> CellModel {
    let t = trimmed(s);
    if t.len() == 0 {
        CellModel::Empty
    } else {
        match int_of(t) {
            Some(i) => CellModel::Integer(i),
            None => if float_syntax(t) {
                CellModel::Float(t)
            } else {
                CellModel::Text(t)
            },
        }
    }
}

/// The text a cell is written as.
pub open spec fn cell_text(c: CellModel) -> Seq<char> {
    match c {
        CellModel::Integer(i) => decimal_text(i as int),
        CellModel::Float(t) => t,
        CellModel::Text(t) => t,
        CellModel::Empty => Seq::empty(),
    }
}

impl Clone for CellValue {
    fn clone(&self) -> (r: Self)
        ensures
            r == *self,
    {
        match self {
            CellValue::Integer(i) => CellValue::Integer(*i),
            CellValue::Float(s) => CellValue::Float(s.clone()),
            CellValue::String(s) => CellValue::String(s.clone()),
            CellValue::Empty => CellValue::Empty,
        }
    }
}

impl CellValue {
    /// Reads a raw token as a typed cell.
    pub fn parse(s: &str) -> (r: CellValue)
        ensures
            r@ == parse_cell(s@),
    {
        let t = trim_str(s);
        let v = chars_of(t);
        if v.len() == 0 {
            return CellValue::Empty;
        }
        assert(v@.subrange(0, v@.len() as int) =~= v@);
        match parse_int_in(&v, 0, v.len()) {
            Some(i) => CellValue::Integer(i),
            None => {
                if float_syntax_exec(&v) {
                    CellValue::Float(t.to_owned())
                } else {
                    CellValue::String(t.to_owned())
                }
            },
        }
    }

    /// Whether the cell is empty.
    pub fn is_empty(&self) -> (r: bool)
        ensures
            r == (self@ is Empty),
    {
        match self {
            CellValue::Empty => true,
            _ => false,
        }
    }

    /// The text the cell is written as.
    pub fn to_string_value(&self) -> (r: String)
        ensures
            r@ == cell_text(self@),
    {
        match self {
            CellValue::Integer(i) => int_text(*i),
            CellValue::Float(s) => s.clone(),
            CellValue::String(s) => s.clone(),
            CellValue::Empty => String::new(),
        }
    }
}

/// Writing a parsed cell as text and parsing that text again gives the same cell.
pub proof fn lemma_cell_text_round_trip(s: Seq<char>)
    ensures
        parse_cell(cell_text(parse_cell(s))) == parse_cell(s),
{
    let t = trimmed(s);
    lemma_trimmed_idempotent(s);
    match parse_cell(s) {
        CellModel::Integer(i) => {
            lemma_decimal_text_round_trip(i);
        },
        _ => {},
    }
}

/// White space around a token does not change what it reads as: a token reads
/// as its trimmed text does.
pub proof fn lemma_parse_ignores_white_space(w1: Seq<char>, s: Seq<char>, w2: Seq<char>)
    requires
        all_white(w1),
        all_white(w2),
    ensures
        parse_cell(w1 + s + w2) == parse_cell(s),
        parse_cell(s) == parse_cell(trimmed(s)),
{
    lemma_trimmed_surrounded(w1, s, w2);
    lemma_trimmed_idempotent(s);
}

/// A column: its header text and its position.
#[derive(Debug)]
pub struct Column {
    pub name: String,
    pub index: usize,
}

impl Clone for Column {
    fn clone(&self) -> (r: Self)
        ensures
            r == *self,
    {
        Column { name: self.name.clone(), index: self.index }
    }
}

impl Column {
    pub fn new(name: String, index: usize) -> (r: Column)
        ensures
            r.name == name,
            r.index == index,
    {
        Column { name, index }
    }
}

/// Index of the first column named `name`.
pub open spec fn first_column_named(columns: Seq<Column>, name: Seq<char>) -> Option<int> {
    if exists|i: int| 0 <= i < columns.len() && columns[i].name@ == name {
        Some(
            choose|i: int|
                0 <= i < columns.len() && columns[i].name@ == name && forall|j: int|
                    0 <= j < i ==> columns[j].name@ != name,
        )
    } else {
        None
    }
}

/// The first column named `name`, by its position.
pub fn position_of_column(columns: &Vec<Column>, name: &String) -> (r: Option<usize>)
    ensures
        r matches Some(i) ==> i < columns.len() && columns@[i as int].name@ == name@ && forall|
            j: int,
        |
            0 <= j < i ==> columns@[j].name@ != name@,
        r is None ==> forall|j: int| 0 <= j < columns.len() ==> columns@[j].name@ != name@,
        match r {
            Some(i) => first_column_named(columns@, name@) == Some(i as int),
            None => first_column_named(columns@, name@) is None,
        },
{
    let mut i: usize = 0;
    while i < columns.len()
        invariant
            i <= columns.len(),
            forall|j: int| 0 <= j < i ==> columns@[j].name@ != name@,
        decreases columns.len() - i,
    {
        if columns[i].name == *name {
            let ghost k = i as int;
            assert(0 <= k < columns.len() && columns@[k].name@ == name@ && forall|j: int|
                0 <= j < k ==> columns@[j].name@ != name@);
            proof {
                let c = first_column_named(columns@, name@)->0;
                if c < k {
                    assert(columns@[c].name@ != name@);
                }
                if c > k {
                    assert(columns@[k].name@ != name@);
                }
            }
            return Some(i);
        }
        i += 1;
    }
    None
}

/// A row: the id read from its first cell, and its cells.
#[derive(Debug)]
pub struct Row {
    pub id: Option<i64>,
    pub cells: Vec<CellValue>,
}

impl Clone for Row {
    fn clone(&self) -> (r: Self)
        ensures
            r.id == self.id,
            r.cells@ == self.cells@,
    {
        Row { id: self.id, cells: clone_cells(&self.cells) }
    }
}

/// A copy of each cell, in order.
pub fn clone_cells(cells: &Vec<CellValue>) -> (r: Vec<CellValue>)
    ensures
        r@ == cells@,
{
    let mut out: Vec<CellValue> = Vec::new();
    let mut i: usize = 0;
    while i < cells.len()
        invariant
            i <= cells.len(),
            out@ == cells@.take(i as int),
        decreases cells.len() - i,
    {
        out.push(cells[i].clone());
        i += 1;
        assert(out@ =~= cells@.take(i as int));
    }
    assert(out@ =~= cells@);
    out
}

impl Row {
    pub fn new(id: Option<i64>, cells: Vec<CellValue>) -> (r: Row)
        ensures
            r.id == id,
            r.cells == cells,
    {
        Row { id, cells }
    }

    /// The cell at `index`, if there is one.
    pub fn get(&self, index: usize) -> (r: Option<&CellValue>)
        ensures
            index < self.cells.len() ==> r == Some(&self.cells@[index as int]),
            index >= self.cells.len() ==> r is None,
    {
        if index < self.cells.len() {
            Some(&self.cells[index])
        } else {
            None
        }
    }
}

/// The table read from one file.
#[derive(Debug)]
pub struct Table {
    pub columns: Vec<Column>,
    pub rows: Vec<Row>,
    pub source_path: String,
}

/// Index of the first row with id `id`.
pub open spec fn first_row_with_id(rows: Seq<Row>, id: i64) -> Option<int> {
    if exists|i: int| 0 <= i < rows.len() && rows[i].id == Some(id) {
        Some(
            choose|i: int|
                0 <= i < rows.len() && rows[i].id == Some(id) && forall|j: int|
                    0 <= j < i ==> rows[j].id != Some(id),
        )
    } else {
        None
    }
}

impl Table {
    /// A table with no columns and no rows.
    pub fn new(source_path: String) -> (r: Table)
        ensures
            r.columns@.len() == 0,
            r.rows@.len() == 0,
            r.source_path == source_path,
    {
        Table { columns: Vec::new(), rows: Vec::new(), source_path }
    }

    pub fn column_count(&self) -> (r: usize)
        ensures
            r == self.columns@.len(),
    {
        self.columns.len()
    }

    pub fn row_count(&self) -> (r: usize)
        ensures
            r == self.rows@.len(),
    {
        self.rows.len()
    }

    /// The first column named `name`.
    pub fn find_column(&self, name: &str) -> (r: Option<&Column>)
        ensures
            r == match first_column_named(self.columns@, name@) {
                Some(i) => Some(&self.columns@[i]),
                None => None,
            },
    {
        let key = name.to_owned();
        match position_of_column(&self.columns, &key) {
            Some(i) => Some(&self.columns[i]),
            None => None,
        }
    }

    /// The first row with id `id`.
    pub fn find_row(&self, id: i64) -> (r: Option<&Row>)
        ensures
            r == match first_row_with_id(self.rows@, id) {
                Some(i) => Some(&self.rows@[i]),
                None => None,
            },
    {
        let mut i: usize = 0;
        while i < self.rows.len()
            invariant
                i <= self.rows.len(),
                forall|j: int| 0 <= j < i ==> self.rows@[j].id != Some(id),
            decreases self.rows.len() - i,
        {
            if self.rows[i].id == Some(id) {
                proof {
                    let k = i as int;
                    assert(0 <= k < self.rows.len() && self.rows@[k].id == Some(id));
                    let c = first_row_with_id(self.rows@, id)->0;
                    if c < k {
                        assert(self.rows@[c].id != Some(id));
                    }
                    if c > k {
                        assert(self.rows@[k].id != Some(id));
                    }
                }
                return Some(&self.rows[i]);
            }
            i += 1;
        }
        None
    }
}

} // verus!
