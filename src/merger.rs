//! Merging the tables of a family into one table with per-cell provenance.

use vstd::prelude::*;

use crate::error::Error;
use crate::parser::{
    csv_header_of, csv_records_of, is_no_columns_error, parse_csv_str, table_of_records,
};
use crate::scanner::Family;
use crate::table::{first_column_named, position_of_column, CellModel, CellValue, Column, Row, Table};

verus! {

/// A cell value with the path of the file that supplies it.
pub struct ProvCell {
    pub value: CellModel,
    pub source: Seq<char>,
}

/// A row of the merged view: its id and one provenance cell per unified column.
pub struct RowModel {
    pub id: Option<i64>,
    pub cells: Seq<ProvCell>,
}

/// A cell of the merged table.
#[derive(Debug)]
pub struct ResolvedCell {
    pub value: CellValue,
    pub source: String,
}

impl View for ResolvedCell {
    type V = ProvCell;

    open spec fn view(&self) -> ProvCell {
        ProvCell { value: self.value@, source: self.source@ }
    }
}

impl Clone for ResolvedCell {
    fn clone(&self) -> (r: Self)
        ensures
            r == *self,
    {
        ResolvedCell { value: self.value.clone(), source: self.source.clone() }
    }
}

impl ResolvedCell {
    pub fn new(value: CellValue, source: String) -> (r: ResolvedCell)
        ensures
            r.value == value,
            r.source == source,
    {
        ResolvedCell { value, source }
    }
}

pub open spec fn cells_view(cells: Seq<ResolvedCell>) -> Seq<ProvCell> {
    cells.map_values(|c: ResolvedCell| c@)
}

/// A row of the merged table.
#[derive(Debug)]
pub struct ResolvedRow {
    pub id: Option<i64>,
    pub cells: Vec<ResolvedCell>,
}

impl View for ResolvedRow {
    type V = RowModel;

    open spec fn view(&self) -> RowModel {
        RowModel { id: self.id, cells: cells_view(self.cells@) }
    }
}

pub open spec fn rows_view(rows: Seq<ResolvedRow>) -> Seq<RowModel> {
    rows.map_values(|r: ResolvedRow| r@)
}

/// The merged table of a family.
#[derive(Debug)]
pub struct ResolvedTable {
    pub family_name: String,
    pub columns: Vec<Column>,
    pub rows: Vec<ResolvedRow>,
    pub sources: Vec<String>,
}

impl ResolvedTable {
    /// Each column's index is its position, and each row has one cell per column.
    pub open spec fn wf(&self) -> bool {
        &&& forall|i: int| 0 <= i < self.columns@.len() ==> #[trigger] self.columns@[i].index == i
        &&& forall|i: int|
            0 <= i < self.rows@.len() ==> #[trigger] self.rows@[i].cells@.len()
                == self.columns@.len()
    }
}

/// The header texts of a table, in order.
pub open spec fn table_names(t: Table) -> Seq<Seq<char>> {
    t.columns@.map_values(|c: Column| c.name@)
}

/// `seen` followed by each name of `names` that is not yet there, in order.
pub open spec fn add_names(seen: Seq<Seq<char>>, names: Seq<Seq<char>>) -> Seq<Seq<char>>
    decreases names.len(),
{
    if names.len() == 0 {
        seen
    } else {
        let s = add_names(seen, names.drop_last());
        if s.contains(names.last()) {
            s
        } else {
            s.push(names.last())
        }
    }
}

/// The unified columns of a family: every column name of its tables, once, in
/// order of first appearance.
pub open spec fn unified_names(tables: Seq<Table>) -> Seq<Seq<char>>
    decreases tables.len(),
{
    if tables.len() == 0 {
        Seq::empty()
    } else {
        add_names(unified_names(tables.drop_last()), table_names(tables.last()))
    }
}

/// Every column name that occurs in some table.
pub open spec fn all_column_names(tables: Seq<Table>) -> Set<Seq<char>> {
    Set::new(
        |n: Seq<char>|
            exists|t: int, j: int|
                0 <= t < tables.len() && 0 <= j < tables[t].columns@.len()
                    && #[trigger] tables[t].columns@[j].name@ == n,
    )
}

/// Position of the last column named `n`.
pub open spec fn last_column_named(cols: Seq<Column>, n: Seq<char>) -> Option<int>
    decreases cols.len(),
{
    if cols.len() == 0 {
        None
    } else if cols.last().name@ == n {
        Some(cols.len() - 1)
    } else {
        last_column_named(cols.drop_last(), n)
    }
}

/// What row `r` of table `t` holds under the name `n`: the cell at the index of
/// the last column so named, or empty when there is no such column or cell.
pub open spec fn row_value(t: Table, r: Row, n: Seq<char>) -> CellModel {
    match last_column_named(t.columns@, n) {
        Some(j) => {
            let idx = t.columns@[j].index;
            if idx < r.cells@.len() {
                r.cells@[idx as int]@
            } else {
                CellModel::Empty
            }
        },
        None => CellModel::Empty,
    }
}

/// Row `r` of table `t` spread over the unified columns `u`, each cell tagged with
/// the table's path.
pub open spec fn contribution(t: Table, r: Row, u: Seq<Seq<char>>) -> RowModel {
    RowModel {
        id: r.id,
        cells: u.map_values(|n: Seq<char>| ProvCell { value: row_value(t, r, n), source: t.source_path@ }),
    }
}

pub open spec fn table_contributions(t: Table, u: Seq<Seq<char>>) -> Seq<RowModel> {
    t.rows@.map_values(|r: Row| contribution(t, r, u))
}

/// All rows of all tables, in member order and then record order, spread over `u`.
pub open spec fn contributions(tables: Seq<Table>, u: Seq<Seq<char>>) -> Seq<RowModel>
    decreases tables.len(),
{
    if tables.len() == 0 {
        Seq::empty()
    } else {
        contributions(tables.drop_last(), u) + table_contributions(tables.last(), u)
    }
}

/// Whether some row of `p` has id `k`.
pub open spec fn has_id(p: Seq<RowModel>, k: i64) -> bool {
    exists|i: int| 0 <= i < p.len() && #[trigger] p[i].id == Some(k)
}

/// Position of the last row of `p` with id `k` and a non-empty cell in column `c`.
pub open spec fn latest_nonempty(p: Seq<RowModel>, k: i64, c: int) -> Option<int>
    decreases p.len(),
{
    if p.len() == 0 {
        None
    } else if p.last().id == Some(k) && !(p.last().cells[c].value is Empty) {
        Some(p.len() - 1)
    } else {
        latest_nonempty(p.drop_last(), k, c)
    }
}

/// Position of the first row of `p` with id `k`.
pub open spec fn first_with_id(p: Seq<RowModel>, k: i64) -> Option<int>
    decreases p.len(),
{
    if p.len() == 0 {
        None
    } else {
        match first_with_id(p.drop_last(), k) {
            Some(i) => Some(i),
            None => if p.last().id == Some(k) {
                Some(p.len() - 1)
            } else {
                None
            },
        }
    }
}

/// The merged cell for id `k` and column `c`: from the last row with that id that
/// has a value there; when none has, the empty cell of the first row with that id.
pub open spec fn resolved_cell(p: Seq<RowModel>, k: i64, c: int) -> ProvCell {
    match latest_nonempty(p, k, c) {
        Some(j) => p[j].cells[c],
        None => p[first_with_id(p, k)->0].cells[c],
    }
}

pub open spec fn resolved_row(p: Seq<RowModel>, k: i64, width: nat) -> RowModel {
    RowModel { id: Some(k), cells: Seq::new(width, |c: int| resolved_cell(p, k, c)) }
}

pub open spec fn idless_rows(p: Seq<RowModel>) -> Seq<RowModel> {
    p.filter(|r: RowModel| r.id is None)
}

/// `rows` are the rows of `p` that have an id, merged: one row per id, in
/// ascending id order, each resolved cell by cell.
pub open spec fn id_rows_merged(rows: Seq<RowModel>, p: Seq<RowModel>, width: nat) -> bool {
    &&& forall|i: int|
        0 <= i < rows.len() ==> (#[trigger] rows[i]).id is Some && has_id(p, rows[i].id->0)
            && rows[i] == resolved_row(p, rows[i].id->0, width)
    &&& forall|i: int, j: int| 0 <= i < j < rows.len() ==> rows[i].id->0 < rows[j].id->0
    &&& forall|k: i64| has_id(p, k) ==> exists|i: int| 0 <= i < rows.len() && rows[i].id == Some(k)
}

/// `rows` is the merge of `p`: the merged rows that have an id, then the rows
/// without id, in order.
pub open spec fn merged_rows(rows: Seq<RowModel>, p: Seq<RowModel>, width: nat) -> bool {
    let n = rows.len() - idless_rows(p).len();
    &&& rows.len() >= idless_rows(p).len()
    &&& id_rows_merged(rows.take(n), p, width)
    &&& rows.skip(n) == idless_rows(p)
}

/// `r` is the merge of `tables` under the name `name`.
pub open spec fn merged_from(tables: Seq<Table>, name: Seq<char>, r: ResolvedTable) -> bool {
    let u = unified_names(tables);
    &&& r.family_name@ == name
    &&& r.columns@.map_values(|c: Column| c.name@) == u
    &&& r.wf()
    &&& r.sources@.map_values(|s: String| s@) == tables.map_values(|t: Table| t.source_path@)
    &&& merged_rows(rows_view(r.rows@), contributions(tables, u), u.len())
}


pub open spec fn names_view(names: Seq<String>) -> Seq<Seq<char>> {
    names.map_values(|n: String| n@)
}

pub open spec fn all_width(p: Seq<RowModel>, width: nat) -> bool {
    forall|i: int| 0 <= i < p.len() ==> (#[trigger] p[i]).cells.len() == width
}

proof fn lemma_latest_nonempty_found(p: Seq<RowModel>, k: i64, c: int)
    ensures
        latest_nonempty(p, k, c) matches Some(j) ==> 0 <= j < p.len() && p[j].id == Some(k)
            && !(p[j].cells[c].value is Empty),
    decreases p.len(),
{
    if p.len() > 0 {
        lemma_latest_nonempty_found(p.drop_last(), k, c);
    }
}

proof fn lemma_first_with_id(p: Seq<RowModel>, k: i64)
    ensures
        first_with_id(p, k) matches Some(j) ==> 0 <= j < p.len() && p[j].id == Some(k),
        first_with_id(p, k) is None <==> !has_id(p, k),
    decreases p.len(),
{
    if p.len() > 0 {
        let q = p.drop_last();
        lemma_first_with_id(q, k);
        if has_id(p, k) {
            let i = choose|i: int| 0 <= i < p.len() && #[trigger] p[i].id == Some(k);
            if i < q.len() {
                assert(q[i].id == Some(k));
            }
        }
        if has_id(q, k) {
            let i = choose|i: int| 0 <= i < q.len() && #[trigger] q[i].id == Some(k);
            assert(p[i].id == Some(k));
        }
    }
}

/// A row with another id leaves the merged cells of `k` as they were.
proof fn lemma_resolved_other(p: Seq<RowModel>, x: RowModel, k: i64, c: int)
    requires
        x.id != Some(k),
        has_id(p, k),
    ensures
        resolved_cell(p.push(x), k, c) == resolved_cell(p, k, c),
        has_id(p.push(x), k),
{
    let q = p.push(x);
    assert(q.drop_last() =~= p);
    lemma_latest_nonempty_found(p, k, c);
    lemma_first_with_id(p, k);
    let i = choose|i: int| 0 <= i < p.len() && #[trigger] p[i].id == Some(k);
    assert(q[i].id == Some(k));
}

/// A row with id `k`, when `k` is already there: its non-empty cells take over.
proof fn lemma_resolved_same(p: Seq<RowModel>, x: RowModel, k: i64, c: int)
    requires
        x.id == Some(k),
        has_id(p, k),
        0 <= c < x.cells.len(),
    ensures
        resolved_cell(p.push(x), k, c) == if x.cells[c].value is Empty {
            resolved_cell(p, k, c)
        } else {
            x.cells[c]
        },
{
    let q = p.push(x);
    assert(q.drop_last() =~= p);
    lemma_latest_nonempty_found(p, k, c);
    lemma_first_with_id(p, k);
}

/// A row with id `k`, when `k` is new: its cells are the merged cells.
proof fn lemma_resolved_new(p: Seq<RowModel>, x: RowModel, k: i64, c: int)
    requires
        x.id == Some(k),
        !has_id(p, k),
        0 <= c < x.cells.len(),
    ensures
        resolved_cell(p.push(x), k, c) == x.cells[c],
{
    let q = p.push(x);
    assert(q.drop_last() =~= p);
    lemma_latest_nonempty_found(p, k, c);
    lemma_first_with_id(p, k);
}

/// Whether `n` is among `names`.
fn contains_name(names: &Vec<String>, n: &String) -> (r: bool)
    ensures
        r == names_view(names@).contains(n@),
{
    let mut i: usize = 0;
    while i < names.len()
        invariant
            i <= names.len(),
            forall|j: int| 0 <= j < i ==> names@[j]@ != n@,
        decreases names.len() - i,
    {
        if names[i] == *n {
            assert(names_view(names@)[i as int] == n@);
            return true;
        }
        i += 1;
    }
    assert forall|j: int| 0 <= j < names_view(names@).len() implies names_view(names@)[j] != n@ by {
        assert(names@[j]@ != n@);
    }
    false
}

/// The unified column names of `tables`.
fn unify_columns(tables: &Vec<Table>) -> (r: Vec<String>)
    ensures
        names_view(r@) == unified_names(tables@),
{
    let mut names: Vec<String> = Vec::new();
    let mut t: usize = 0;
    assert(tables@.take(0) =~= Seq::<Table>::empty());
    while t < tables.len()
        invariant
            t <= tables.len(),
            names_view(names@) == unified_names(tables@.take(t as int)),
        decreases tables.len() - t,
    {
        let cols = &tables[t].columns;
        let ghost seen = unified_names(tables@.take(t as int));
        let ghost tn = table_names(tables@[t as int]);
        let mut j: usize = 0;
        assert(tn.take(0) =~= Seq::<Seq<char>>::empty());
        while j < cols.len()
            invariant
                j <= cols.len(),
                cols@ == tables@[t as int].columns@,
                tn == table_names(tables@[t as int]),
                names_view(names@) == add_names(seen, tn.take(j as int)),
            decreases cols.len() - j,
        {
            assert(tn.take(j + 1).drop_last() =~= tn.take(j as int));
            assert(tn.take(j + 1).last() == cols@[j as int].name@);
            if !contains_name(&names, &cols[j].name) {
                names.push(cols[j].name.clone());
                assert(names_view(names@) =~= add_names(seen, tn.take(j as int)).push(
                    cols@[j as int].name@,
                ));
            }
            j += 1;
        }
        assert(tn.take(j as int) =~= tn);
        assert(tables@.take(t + 1).drop_last() =~= tables@.take(t as int));
        t += 1;
    }
    assert(tables@.take(t as int) =~= tables@);
    names
}

/// Position of the last column of `cols` named `n`.
fn last_named(cols: &Vec<Column>, n: &String) -> (r: Option<usize>)
    ensures
        match r {
            Some(j) => last_column_named(cols@, n@) == Some(j as int) && j < cols@.len(),
            None => last_column_named(cols@, n@) is None,
        },
{
    let mut found: Option<usize> = None;
    let mut j: usize = 0;
    assert(cols@.take(0) =~= Seq::<Column>::empty());
    while j < cols.len()
        invariant
            j <= cols.len(),
            match found {
                Some(f) => last_column_named(cols@.take(j as int), n@) == Some(f as int) && f < j,
                None => last_column_named(cols@.take(j as int), n@) is None,
            },
        decreases cols.len() - j,
    {
        assert(cols@.take(j + 1).drop_last() =~= cols@.take(j as int));
        if cols[j].name == *n {
            found = Some(j);
        }
        j += 1;
    }
    assert(cols@.take(j as int) =~= cols@);
    found
}

/// Where a table keeps each unified column: the cell index of the last column so named.
pub open spec fn slot_of(t: Table, n: Seq<char>) -> Option<usize> {
    match last_column_named(t.columns@, n) {
        Some(j) => Some(t.columns@[j].index),
        None => None,
    }
}

fn column_slots(table: &Table, names: &Vec<String>) -> (r: Vec<Option<usize>>)
    ensures
        r@.len() == names@.len(),
        forall|u: int| 0 <= u < names@.len() ==> r@[u] == slot_of(*table, #[trigger] names@[u]@),
{
    let mut slots: Vec<Option<usize>> = Vec::new();
    let mut u: usize = 0;
    while u < names.len()
        invariant
            u <= names.len(),
            slots@.len() == u,
            forall|v: int| 0 <= v < u ==> slots@[v] == slot_of(*table, #[trigger] names@[v]@),
        decreases names.len() - u,
    {
        let name = &names[u];
        let s = match last_named(&table.columns, name) {
            Some(j) => Some(table.columns[j].index),
            None => None,
        };
        assert(s == slot_of(*table, names@[u as int]@));
        let ghost prev = slots@;
        slots.push(s);
        assert(forall|v: int| 0 <= v < u ==> slots@[v] == prev[v]);
        u += 1;
    }
    slots
}

/// Row `row` of `table` spread over the unified columns.
fn expand_row(
    table: &Table,
    row: &Row,
    slots: &Vec<Option<usize>>,
    Ghost(names): Ghost<Seq<Seq<char>>>,
) -> (r: Vec<ResolvedCell>)
    requires
        slots@.len() == names.len(),
        forall|u: int| 0 <= u < names.len() ==> slots@[u] == slot_of(*table, #[trigger] names[u]),
    ensures
        cells_view(r@) == contribution(*table, *row, names).cells,
        r@.len() == names.len(),
{
    let ghost target = contribution(*table, *row, names).cells;
    let mut out: Vec<ResolvedCell> = Vec::new();
    let mut u: usize = 0;
    while u < slots.len()
        invariant
            u <= slots@.len(),
            slots@.len() == names.len(),
            forall|v: int| 0 <= v < names.len() ==> slots@[v] == slot_of(*table, #[trigger] names[v]),
            target == contribution(*table, *row, names).cells,
            cells_view(out@) == target.take(u as int),
        decreases slots.len() - u,
    {
        let value = match slots[u] {
            Some(idx) => if idx < row.cells.len() {
                row.cells[idx].clone()
            } else {
                CellValue::Empty
            },
            None => CellValue::Empty,
        };
        let cell = ResolvedCell::new(value, table.source_path.clone());
        assert(cell@ == target[u as int]);
        let ghost prev = out@;
        out.push(cell);
        assert(cells_view(out@) =~= cells_view(prev).push(cell@));
        u += 1;
        assert(cells_view(out@) =~= target.take(u as int));
    }
    assert(target.take(u as int) =~= target);
    out
}

/// `new`'s non-empty cells over `old`'s.
fn overlay_cells(old: &Vec<ResolvedCell>, new: Vec<ResolvedCell>) -> (r: Vec<ResolvedCell>)
    requires
        old@.len() == new@.len(),
    ensures
        r@.len() == old@.len(),
        forall|c: int|
            0 <= c < r@.len() ==> #[trigger] r@[c] == if new@[c].value@ is Empty {
                old@[c]
            } else {
                new@[c]
            },
{
    let mut out: Vec<ResolvedCell> = Vec::new();
    let mut c: usize = 0;
    while c < new.len()
        invariant
            c <= new@.len(),
            old@.len() == new@.len(),
            out@.len() == c,
            forall|d: int|
                0 <= d < c ==> #[trigger] out@[d] == if new@[d].value@ is Empty {
                    old@[d]
                } else {
                    new@[d]
                },
        decreases new.len() - c,
    {
        if new[c].value.is_empty() {
            out.push(old[c].clone());
        } else {
            out.push(new[c].clone());
        }
        c += 1;
    }
    out
}

/// First position in `rows` whose id is not below `k`.
fn id_position(rows: &Vec<ResolvedRow>, k: i64) -> (r: usize)
    requires
        forall|i: int| 0 <= i < rows@.len() ==> (#[trigger] rows@[i]).id is Some,
        forall|i: int, j: int| 0 <= i < j < rows@.len() ==> rows@[i].id->0 < rows@[j].id->0,
    ensures
        r <= rows@.len(),
        forall|i: int| 0 <= i < r ==> (#[trigger] rows@[i]).id->0 < k,
        forall|i: int| r <= i < rows@.len() ==> (#[trigger] rows@[i]).id->0 >= k,
{
    let mut lo: usize = 0;
    let mut hi: usize = rows.len();
    while lo < hi
        invariant
            lo <= hi <= rows@.len(),
            forall|i: int| 0 <= i < rows@.len() ==> (#[trigger] rows@[i]).id is Some,
            forall|i: int, j: int| 0 <= i < j < rows@.len() ==> rows@[i].id->0 < rows@[j].id->0,
            forall|i: int| 0 <= i < lo ==> (#[trigger] rows@[i]).id->0 < k,
            forall|i: int| hi <= i < rows@.len() ==> (#[trigger] rows@[i]).id->0 >= k,
        decreases hi - lo,
    {
        let mid = lo + (hi - lo) / 2;
        let id = match rows[mid].id {
            Some(v) => v,
            None => k,
        };
        if id < k {
            lo = mid + 1;
        } else {
            hi = mid;
        }
    }
    lo
}

/// Folds one more row with id `k` into the merged rows that have an id.
fn absorb_row(
    by_id: &mut Vec<ResolvedRow>,
    k: i64,
    cells: Vec<ResolvedCell>,
    Ghost(p): Ghost<Seq<RowModel>>,
    Ghost(width): Ghost<nat>,
)
    requires
        id_rows_merged(rows_view(old(by_id)@), p, width),
        cells@.len() == width,
        all_width(p, width),
    ensures
        id_rows_merged(
            rows_view(final(by_id)@),
            p.push(RowModel { id: Some(k), cells: cells_view(cells@) }),
            width,
        ),
{
    let ghost x = RowModel { id: Some(k), cells: cells_view(cells@) };
    let ghost q = p.push(x);
    let ghost before = rows_view(by_id@);
    assert forall|i: int| 0 <= i < by_id@.len() implies (#[trigger] by_id@[i]).id is Some by {
        assert(before[i].id is Some);
    }
    assert forall|i: int, j: int| 0 <= i < j < by_id@.len() implies by_id@[i].id->0
        < by_id@[j].id->0 by {
        assert(before[i].id->0 < before[j].id->0);
    }
    let pos = id_position(by_id, k);
    let exists_k = pos < by_id.len() && by_id[pos].id == Some(k);
    if exists_k {
        assert(before[pos as int].id == Some(k));
        assert(before[pos as int].cells.len() == width);
        assert(by_id@[pos as int].cells@.len() == width);
        let ghost old_cells = by_id@[pos as int].cells@;
        let merged = overlay_cells(&by_id[pos].cells, cells);
        let ghost new_row = RowModel { id: Some(k), cells: cells_view(merged@) };
        assert(has_id(p, k));
        assert(new_row == resolved_row(q, k, width)) by {
            assert forall|c: int| 0 <= c < width implies #[trigger] cells_view(merged@)[c]
                == resolved_cell(q, k, c) by {
                lemma_resolved_same(p, x, k, c);
                assert(before[pos as int].cells[c] == resolved_cell(p, k, c));
                assert(before[pos as int].cells[c] == old_cells[c]@);
                assert(cells_view(merged@)[c] == merged@[c]@);
                assert(x.cells[c] == cells@[c]@);
            }
            assert(cells_view(merged@) =~= Seq::new(width, |c: int| resolved_cell(q, k, c)));
        }
        by_id.set(pos, ResolvedRow { id: Some(k), cells: merged });
        let ghost after = rows_view(by_id@);
        assert(after =~= before.update(pos as int, new_row));
        assert forall|i: int| 0 <= i < after.len() implies (#[trigger] after[i]).id is Some
            && has_id(q, after[i].id->0) && after[i] == resolved_row(q, after[i].id->0, width) by {
            if i != pos {
                let ki = before[i].id->0;
                assert(ki != k);
                assert forall|c: int| 0 <= c < width implies #[trigger] resolved_cell(q, ki, c)
                    == resolved_cell(p, ki, c) by {
                    lemma_resolved_other(p, x, ki, c);
                }
                lemma_resolved_other(p, x, ki, 0);
                assert(resolved_row(q, ki, width).cells =~= resolved_row(p, ki, width).cells);
            } else {
                assert(q[p.len() as int].id == Some(k));
            }
        }
        assert forall|kk: i64| has_id(q, kk) implies exists|i: int|
            0 <= i < after.len() && after[i].id == Some(kk) by {
            if kk != k {
                let j = choose|j: int| 0 <= j < q.len() && #[trigger] q[j].id == Some(kk);
                assert(p[j].id == Some(kk));
                assert(has_id(p, kk));
                let i = choose|i: int| 0 <= i < before.len() && before[i].id == Some(kk);
                assert(after[i].id == Some(kk));
            } else {
                assert(after[pos as int].id == Some(kk));
            }
        }
    } else {
        assert(!has_id(p, k)) by {
            if has_id(p, k) {
                let i = choose|i: int| 0 <= i < before.len() && before[i].id == Some(k);
                if i < pos {
                } else if i == pos {
                } else {
                    assert(before[pos as int].id->0 < before[i].id->0);
                }
            }
        }
        let ghost cv = cells_view(cells@);
        assert(x == resolved_row(q, k, width)) by {
            assert forall|c: int| 0 <= c < width implies #[trigger] cv[c] == resolved_cell(q, k, c) by {
                lemma_resolved_new(p, x, k, c);
            }
            assert(cv =~= Seq::new(width, |c: int| resolved_cell(q, k, c)));
        }
        by_id.insert(pos, ResolvedRow { id: Some(k), cells });
        let ghost after = rows_view(by_id@);
        assert(after =~= before.insert(pos as int, x));
        assert forall|i: int| 0 <= i < after.len() implies (#[trigger] after[i]).id is Some
            && has_id(q, after[i].id->0) && after[i] == resolved_row(q, after[i].id->0, width) by {
            if i != pos {
                let b = if i < pos {
                    i
                } else {
                    i - 1
                };
                assert(after[i] == before[b]);
                let ki = before[b].id->0;
                assert(ki != k) by {
                    if ki == k {
                        assert(has_id(p, k));
                    }
                }
                assert forall|c: int| 0 <= c < width implies #[trigger] resolved_cell(q, ki, c)
                    == resolved_cell(p, ki, c) by {
                    lemma_resolved_other(p, x, ki, c);
                }
                lemma_resolved_other(p, x, ki, 0);
                assert(resolved_row(q, ki, width).cells =~= resolved_row(p, ki, width).cells);
            } else {
                assert(q[p.len() as int].id == Some(k));
            }
        }
        assert forall|i: int, j: int| 0 <= i < j < after.len() implies after[i].id->0
            < after[j].id->0 by {
            if j < pos {
                assert(after[i] == before[i] && after[j] == before[j]);
            } else if j == pos {
                assert(after[i] == before[i]);
            } else if i < pos {
                assert(after[i] == before[i] && after[j] == before[j - 1]);
            } else if i == pos {
                assert(after[j] == before[j - 1]);
            } else {
                assert(after[i] == before[i - 1] && after[j] == before[j - 1]);
            }
        }
        assert forall|kk: i64| has_id(q, kk) implies exists|i: int|
            0 <= i < after.len() && after[i].id == Some(kk) by {
            if kk != k {
                let j = choose|j: int| 0 <= j < q.len() && #[trigger] q[j].id == Some(kk);
                assert(p[j].id == Some(kk));
                assert(has_id(p, kk));
                let i = choose|i: int| 0 <= i < before.len() && before[i].id == Some(kk);
                if i < pos {
                    assert(after[i].id == Some(kk));
                } else {
                    assert(after[i + 1].id == Some(kk));
                }
            } else {
                assert(after[pos as int].id == Some(kk));
            }
        }
    }
}


proof fn lemma_contributions_width(tables: Seq<Table>, u: Seq<Seq<char>>)
    ensures
        all_width(contributions(tables, u), u.len()),
    decreases tables.len(),
{
    if tables.len() > 0 {
        lemma_contributions_width(tables.drop_last(), u);
        let a = contributions(tables.drop_last(), u);
        let b = table_contributions(tables.last(), u);
        assert forall|i: int| 0 <= i < (a + b).len() implies (#[trigger] (a + b)[i]).cells.len()
            == u.len() by {
            if i >= a.len() {
                assert((a + b)[i] == b[i - a.len()]);
            }
        }
    }
}

/// A row without id leaves the merged rows with an id as they were.
proof fn lemma_idless_keeps_merged(rows: Seq<RowModel>, p: Seq<RowModel>, x: RowModel, w: nat)
    requires
        id_rows_merged(rows, p, w),
        x.id is None,
    ensures
        id_rows_merged(rows, p.push(x), w),
{
    let q = p.push(x);
    assert forall|i: int| 0 <= i < rows.len() implies (#[trigger] rows[i]).id is Some && has_id(
        q,
        rows[i].id->0,
    ) && rows[i] == resolved_row(q, rows[i].id->0, w) by {
        let k = rows[i].id->0;
        assert forall|c: int| 0 <= c < w implies #[trigger] resolved_cell(q, k, c)
            == resolved_cell(p, k, c) by {
            lemma_resolved_other(p, x, k, c);
        }
        lemma_resolved_other(p, x, k, 0);
        assert(resolved_row(q, k, w).cells =~= resolved_row(p, k, w).cells);
    }
    assert forall|k: i64| has_id(q, k) implies exists|i: int|
        0 <= i < rows.len() && rows[i].id == Some(k) by {
        let j = choose|j: int| 0 <= j < q.len() && #[trigger] q[j].id == Some(k);
        assert(p[j].id == Some(k));
        assert(has_id(p, k));
    }
}

proof fn lemma_idless_push(p: Seq<RowModel>, x: RowModel)
    ensures
        idless_rows(p.push(x)) == if x.id is None {
            idless_rows(p).push(x)
        } else {
            idless_rows(p)
        },
{
    p.lemma_filter_push(x, |r: RowModel| r.id is None);
}

/// Merges the tables of a family, given in member order.
///
/// The columns are every column name once, in order of first appearance. Rows
/// with an id are merged by id, a later non-empty cell taking over from an
/// earlier one, and come first in ascending id order; rows without id follow,
/// each on its own, in the order they were met.
pub fn merge_tables(family_name: &str, tables: Vec<Table>) -> (r: Result<ResolvedTable, Error>)
    ensures
        match r {
            Ok(t) => tables@.len() > 0 && merged_from(tables@, family_name@, t),
            Err(Error::FamilyNotFound(n)) => tables@.len() == 0 && n@ == family_name@,
            Err(_) => false,
        },
{
    if tables.len() == 0 {
        return Err(Error::FamilyNotFound(family_name.to_owned()));
    }
    let names = unify_columns(&tables);
    let ghost u = names_view(names@);
    let ghost w = u.len();
    let mut columns: Vec<Column> = Vec::new();
    let mut i: usize = 0;
    while i < names.len()
        invariant
            i <= names@.len(),
            columns@.len() == i,
            forall|j: int|
                0 <= j < i ==> (#[trigger] columns@[j]).index == j && columns@[j].name@
                    == names@[j]@,
        decreases names.len() - i,
    {
        columns.push(Column::new(names[i].clone(), i));
        i += 1;
    }
    assert(columns@.map_values(|c: Column| c.name@) =~= u);
    let mut sources: Vec<String> = Vec::new();
    let mut i: usize = 0;
    while i < tables.len()
        invariant
            i <= tables@.len(),
            sources@.len() == i,
            forall|j: int| 0 <= j < i ==> (#[trigger] sources@[j])@ == tables@[j].source_path@,
        decreases tables.len() - i,
    {
        sources.push(tables[i].source_path.clone());
        i += 1;
    }
    assert(sources@.map_values(|s: String| s@) =~= tables@.map_values(|t: Table| t.source_path@));
    let mut by_id: Vec<ResolvedRow> = Vec::new();
    let mut no_id: Vec<ResolvedRow> = Vec::new();
    let mut t: usize = 0;
    assert(tables@.take(0) =~= Seq::<Table>::empty());
    assert(idless_rows(Seq::<RowModel>::empty()) =~= Seq::<RowModel>::empty());
    while t < tables.len()
        invariant
            t <= tables@.len(),
            names_view(names@) == u,
            u == unified_names(tables@),
            w == u.len(),
            id_rows_merged(rows_view(by_id@), contributions(tables@.take(t as int), u), w),
            rows_view(no_id@) == idless_rows(contributions(tables@.take(t as int), u)),
            forall|j: int| 0 <= j < no_id@.len() ==> (#[trigger] no_id@[j]).cells@.len() == w,
        decreases tables.len() - t,
    {
        let table = &tables[t];
        let slots = column_slots(table, &names);
        let ghost done = contributions(tables@.take(t as int), u);
        let ghost here = table_contributions(tables@[t as int], u);
        let mut r: usize = 0;
        assert(done + here.take(0) =~= done);
        while r < table.rows.len()
            invariant
                r <= table.rows@.len(),
                *table == tables@[t as int],
                here == table_contributions(tables@[t as int], u),
                slots@.len() == u.len(),
                forall|v: int| 0 <= v < u.len() ==> slots@[v] == slot_of(*table, #[trigger] u[v]),
                names_view(names@) == u,
                w == u.len(),
                id_rows_merged(rows_view(by_id@), done + here.take(r as int), w),
                rows_view(no_id@) == idless_rows(done + here.take(r as int)),
                forall|j: int| 0 <= j < no_id@.len() ==> (#[trigger] no_id@[j]).cells@.len() == w,
                done == contributions(tables@.take(t as int), u),
            decreases table.rows.len() - r,
        {
            let row = &table.rows[r];
            let ghost p = done + here.take(r as int);
            let cells = expand_row(table, row, &slots, Ghost(u));
            let ghost x = contribution(*table, *row, u);
            assert(here[r as int] == x);
            assert(done + here.take(r + 1) =~= p.push(x));
            proof {
                lemma_idless_push(p, x);
                lemma_contributions_width(tables@.take(t as int), u);
                assert forall|i: int| 0 <= i < p.len() implies (#[trigger] p[i]).cells.len() == w by {
                    if i >= done.len() {
                        let j = i - done.len();
                        assert(p[i] == here[j]);
                        assert(here[j] == contribution(tables@[t as int], tables@[t as int].rows@[j], u));
                    } else {
                        assert(p[i] == done[i]);
                    }
                }
            }
            let ghost cv = cells_view(cells@);
            assert(cv == x.cells);
            match row.id {
                Some(k) => {
                    assert(x == RowModel { id: Some(k), cells: cv });
                    absorb_row(&mut by_id, k, cells, Ghost(p), Ghost(w));
                },
                None => {
                    proof {
                        lemma_idless_keeps_merged(rows_view(by_id@), p, x, w);
                    }
                    let ghost before = no_id@;
                    no_id.push(ResolvedRow { id: None, cells });
                    assert(rows_view(no_id@) =~= rows_view(before).push(x));
                },
            }
            r += 1;
        }
        assert(here.take(r as int) =~= here);
        assert(tables@.take(t + 1).drop_last() =~= tables@.take(t as int));
        t += 1;
    }
    assert(tables@.take(t as int) =~= tables@);
    let ghost p = contributions(tables@, u);
    let ghost first = rows_view(by_id@);
    let ghost second = rows_view(no_id@);
    proof {
        lemma_contributions_width(tables@, u);
    }
    let ghost old_first = by_id@;
    let ghost old_second = no_id@;
    by_id.append(&mut no_id);
    let ghost rows = rows_view(by_id@);
    assert(rows =~= first + second);
    assert(rows.take(first.len() as int) =~= first);
    assert(rows.skip(first.len() as int) =~= second);
    let result = ResolvedTable {
        family_name: family_name.to_owned(),
        columns,
        rows: by_id,
        sources,
    };
    assert forall|i: int| 0 <= i < result.rows@.len() implies #[trigger] result.rows@[i].cells@.len()
        == result.columns@.len() by {
        assert(rows[i] == result.rows@[i]@);
        if i < first.len() {
            assert(first[i].cells.len() == w);
        } else {
            assert(result.rows@[i] == old_second[i - first.len()]);
            assert(old_second[i - first.len()].cells@.len() == w);
        }
    }
    Ok(result)
}


pub proof fn lemma_add_names(seen: Seq<Seq<char>>, names: Seq<Seq<char>>)
    requires
        seen.no_duplicates(),
    ensures
        add_names(seen, names).no_duplicates(),
        forall|n: Seq<char>|
            #[trigger] add_names(seen, names).contains(n) <==> (seen.contains(n) || names.contains(
                n,
            )),
    decreases names.len(),
{
    if names.len() > 0 {
        let init = names.drop_last();
        let x = names.last();
        lemma_add_names(seen, init);
        let s = add_names(seen, init);
        assert forall|n: Seq<char>| names.contains(n) <==> (init.contains(n) || n == x) by {
            if names.contains(n) {
                let i = choose|i: int| 0 <= i < names.len() && names[i] == n;
                if i < init.len() {
                    assert(init[i] == n);
                }
            }
            if init.contains(n) {
                let i = choose|i: int| 0 <= i < init.len() && init[i] == n;
                assert(names[i] == n);
            }
            if n == x {
                assert(names[names.len() - 1] == n);
            }
        }
        if !s.contains(x) {
            let t = s.push(x);
            assert forall|i: int, j: int| 0 <= i < t.len() && 0 <= j < t.len() && i != j implies t[i]
                != t[j] by {
                if i < s.len() && j < s.len() {
                } else if i < s.len() {
                    assert(s.contains(t[i]));
                } else {
                    assert(s.contains(t[j]));
                }
            }
            assert forall|n: Seq<char>| t.contains(n) <==> (s.contains(n) || n == x) by {
                if t.contains(n) {
                    let i = choose|i: int| 0 <= i < t.len() && t[i] == n;
                    if i < s.len() {
                        assert(s[i] == n);
                    }
                }
                if s.contains(n) {
                    let i = choose|i: int| 0 <= i < s.len() && s[i] == n;
                    assert(t[i] == n);
                }
                if n == x {
                    assert(t[s.len() as int] == n);
                }
            }
        }
    }
}

proof fn lemma_unified_names(tables: Seq<Table>)
    ensures
        unified_names(tables).no_duplicates(),
        forall|n: Seq<char>|
            #[trigger] unified_names(tables).contains(n) <==> all_column_names(tables).contains(n),
    decreases tables.len(),
{
    if tables.len() > 0 {
        let init = tables.drop_last();
        let last = tables.last();
        lemma_unified_names(init);
        lemma_add_names(unified_names(init), table_names(last));
        assert forall|n: Seq<char>|
            #[trigger] unified_names(tables).contains(n) <==> all_column_names(tables).contains(n) by {
            if unified_names(init).contains(n) {
                assert(all_column_names(init).contains(n));
                let (t, j) = choose|t: int, j: int|
                    0 <= t < init.len() && 0 <= j < init[t].columns@.len()
                        && #[trigger] init[t].columns@[j].name@ == n;
                assert(tables[t].columns@[j].name@ == n);
            }
            if table_names(last).contains(n) {
                let j = choose|j: int| 0 <= j < table_names(last).len() && table_names(last)[j] == n;
                assert(tables[tables.len() - 1].columns@[j].name@ == n);
            }
            if all_column_names(tables).contains(n) {
                let (t, j) = choose|t: int, j: int|
                    0 <= t < tables.len() && 0 <= j < tables[t].columns@.len()
                        && #[trigger] tables[t].columns@[j].name@ == n;
                if t < init.len() {
                    assert(init[t].columns@[j].name@ == n);
                    assert(all_column_names(init).contains(n));
                } else {
                    assert(table_names(last)[j] == n);
                }
            }
        }
    } else {
        assert forall|n: Seq<char>|
            #[trigger] unified_names(tables).contains(n) <==> all_column_names(tables).contains(
                n,
            ) by {}
    }
}

/// The merged table has one column per distinct column name of its members.
pub proof fn lemma_merged_column_count(tables: Seq<Table>, name: Seq<char>, r: ResolvedTable)
    requires
        merged_from(tables, name, r),
    ensures
        all_column_names(tables).finite(),
        r.columns@.len() == all_column_names(tables).len(),
{
    let u = unified_names(tables);
    lemma_unified_names(tables);
    assert(u.to_set() =~= all_column_names(tables));
    u.unique_seq_to_set();
    vstd::seq_lib::seq_to_set_is_finite(u);
    assert(r.columns@.map_values(|c: Column| c.name@).len() == r.columns@.len());
}

proof fn lemma_latest_nonempty_at(p: Seq<RowModel>, k: i64, c: int, j: int)
    requires
        0 <= j < p.len(),
        p[j].id == Some(k),
        !(p[j].cells[c].value is Empty),
        forall|m: int| j < m < p.len() ==> !(p[m].id == Some(k) && !(p[m].cells[c].value is Empty)),
    ensures
        latest_nonempty(p, k, c) == Some(j),
    decreases p.len(),
{
    if j < p.len() - 1 {
        let q = p.drop_last();
        assert forall|m: int| j < m < q.len() implies !(q[m].id == Some(k) && !(
        q[m].cells[c].value is Empty)) by {
            assert(q[m] == p[m]);
        }
        lemma_latest_nonempty_at(q, k, c, j);
    }
}

proof fn lemma_latest_nonempty_none(p: Seq<RowModel>, k: i64, c: int)
    requires
        forall|m: int| 0 <= m < p.len() ==> !(p[m].id == Some(k) && !(p[m].cells[c].value is Empty)),
    ensures
        latest_nonempty(p, k, c) is None,
    decreases p.len(),
{
    if p.len() > 0 {
        let q = p.drop_last();
        assert forall|m: int| 0 <= m < q.len() implies !(q[m].id == Some(k) && !(
        q[m].cells[c].value is Empty)) by {
            assert(q[m] == p[m]);
        }
        lemma_latest_nonempty_none(q, k, c);
    }
}

/// In the merge of two members, a cell of a row with an id is resolved from the
/// rows of both members with that id.
proof fn lemma_two_members(base: Table, overlay: Table, name: Seq<char>, r: ResolvedTable, i: int)
    requires
        merged_from(seq![base, overlay], name, r),
        0 <= i < r.rows@.len(),
        r.rows@[i].id is Some,
    ensures
        ({
            let u = unified_names(seq![base, overlay]);
            let p = table_contributions(base, u) + table_contributions(overlay, u);
            &&& contributions(seq![base, overlay], u) == p
            &&& r.rows@[i]@ == resolved_row(p, r.rows@[i].id->0, u.len())
            &&& r.rows@[i].cells@.len() == u.len()
            &&& forall|c: int| 0 <= c < u.len() ==> r.columns@[c].name@ == u[c]
        }),
{
    let tables = seq![base, overlay];
    let u = unified_names(tables);
    let p = table_contributions(base, u) + table_contributions(overlay, u);
    assert(tables.drop_last() =~= seq![base]);
    assert(seq![base].drop_last() =~= Seq::<Table>::empty());
    assert(seq![base].last() == base);
    assert(contributions(Seq::<Table>::empty(), u) =~= Seq::<RowModel>::empty());
    assert(contributions(seq![base], u) =~= table_contributions(base, u));
    assert(tables.last() == overlay);
    assert(contributions(tables, u) =~= p);
    let rows = rows_view(r.rows@);
    let n = rows.len() - idless_rows(p).len();
    assert(rows[i] == r.rows@[i]@);
    if i >= n {
        assert(rows.skip(n)[i - n] == rows[i]);
        assert(idless_rows(p).contains(rows[i]));
        assert(false);
    }
    assert(rows.take(n)[i] == rows[i]);
    assert forall|c: int| 0 <= c < u.len() implies r.columns@[c].name@ == u[c] by {
        assert(r.columns@.map_values(|col: Column| col.name@)[c] == u[c]);
    }
}

/// When the overlay gives a non-empty value for a row id and column, the merge holds
/// that value, with the overlay as its source.
pub proof fn lemma_overlay_value_wins(
    base: Table,
    overlay: Table,
    name: Seq<char>,
    r: ResolvedTable,
    i: int,
    c: int,
    j: int,
)
    requires
        merged_from(seq![base, overlay], name, r),
        0 <= i < r.rows@.len(),
        0 <= c < r.columns@.len(),
        0 <= j < overlay.rows@.len(),
        r.rows@[i].id is Some,
        overlay.rows@[j].id == r.rows@[i].id,
        !(row_value(overlay, overlay.rows@[j], r.columns@[c].name@) is Empty),
        forall|m: int|
            j < m < overlay.rows@.len() && overlay.rows@[m].id == r.rows@[i].id ==> (row_value(
                overlay,
                #[trigger] overlay.rows@[m],
                r.columns@[c].name@,
            ) is Empty),
    ensures
        r.rows@[i].cells@[c]@ == (ProvCell {
            value: row_value(overlay, overlay.rows@[j], r.columns@[c].name@),
            source: overlay.source_path@,
        }),
{
    let u = unified_names(seq![base, overlay]);
    let a = table_contributions(base, u);
    let b = table_contributions(overlay, u);
    let p = a + b;
    let k = r.rows@[i].id->0;
    lemma_two_members(base, overlay, name, r, i);
    assert(r.columns@.len() == u.len()) by {
        assert(r.columns@.map_values(|col: Column| col.name@).len() == r.columns@.len());
    }
    assert forall|m: int| a.len() + j < m < p.len() implies !(p[m].id == Some(k) && !(
    p[m].cells[c].value is Empty)) by {
        assert(p[m] == b[m - a.len()]);
    }
    lemma_latest_nonempty_at(p, k, c, a.len() + j);
    assert(p[a.len() + j] == b[j]);
    assert(r.rows@[i].cells@[c]@ == cells_view(r.rows@[i].cells@)[c]);
}

/// When the overlay's rows with a row id are empty in a column, the base's value
/// for it stays, with the base as its source.
pub proof fn lemma_empty_overlay_keeps_base(
    base: Table,
    overlay: Table,
    name: Seq<char>,
    r: ResolvedTable,
    i: int,
    c: int,
    j: int,
)
    requires
        merged_from(seq![base, overlay], name, r),
        0 <= i < r.rows@.len(),
        0 <= c < r.columns@.len(),
        0 <= j < base.rows@.len(),
        r.rows@[i].id is Some,
        base.rows@[j].id == r.rows@[i].id,
        !(row_value(base, base.rows@[j], r.columns@[c].name@) is Empty),
        forall|m: int|
            j < m < base.rows@.len() && base.rows@[m].id == r.rows@[i].id ==> (row_value(
                base,
                #[trigger] base.rows@[m],
                r.columns@[c].name@,
            ) is Empty),
        forall|m: int|
            0 <= m < overlay.rows@.len() && overlay.rows@[m].id == r.rows@[i].id ==> (row_value(
                overlay,
                #[trigger] overlay.rows@[m],
                r.columns@[c].name@,
            ) is Empty),
    ensures
        r.rows@[i].cells@[c]@ == (ProvCell {
            value: row_value(base, base.rows@[j], r.columns@[c].name@),
            source: base.source_path@,
        }),
{
    let u = unified_names(seq![base, overlay]);
    let a = table_contributions(base, u);
    let b = table_contributions(overlay, u);
    let p = a + b;
    let k = r.rows@[i].id->0;
    lemma_two_members(base, overlay, name, r, i);
    assert(r.columns@.len() == u.len()) by {
        assert(r.columns@.map_values(|col: Column| col.name@).len() == r.columns@.len());
    }
    assert forall|m: int| j < m < p.len() implies !(p[m].id == Some(k) && !(
    p[m].cells[c].value is Empty)) by {
        if m < a.len() {
            assert(p[m] == a[m]);
        } else {
            assert(p[m] == b[m - a.len()]);
        }
    }
    assert(p[j] == a[j]);
    lemma_latest_nonempty_at(p, k, c, j);
    assert(r.rows@[i].cells@[c]@ == cells_view(r.rows@[i].cells@)[c]);
}


proof fn lemma_contribution_origin(tables: Seq<Table>, u: Seq<Seq<char>>, idx: int)
    requires
        0 <= idx < contributions(tables, u).len(),
    ensures
        exists|t: int, j: int|
            0 <= t < tables.len() && 0 <= j < tables[t].rows@.len() && contributions(tables, u)[idx]
                == contribution(tables[t], tables[t].rows@[j], u),
    decreases tables.len(),
{
    let init = tables.drop_last();
    let a = contributions(init, u);
    let b = table_contributions(tables.last(), u);
    if idx < a.len() {
        lemma_contribution_origin(init, u, idx);
        let (t, j) = choose|t: int, j: int|
            0 <= t < init.len() && 0 <= j < init[t].rows@.len() && contributions(init, u)[idx]
                == contribution(init[t], init[t].rows@[j], u);
        assert(tables[t] == init[t]);
        assert(contributions(tables, u)[idx] == a[idx]);
    } else {
        let j = idx - a.len();
        assert(contributions(tables, u)[idx] == b[j]);
        assert(tables[tables.len() - 1] == tables.last());
    }
}

proof fn lemma_contribution_present(tables: Seq<Table>, u: Seq<Seq<char>>, t: int, j: int)
    requires
        0 <= t < tables.len(),
        0 <= j < tables[t].rows@.len(),
    ensures
        exists|idx: int|
            0 <= idx < contributions(tables, u).len() && contributions(tables, u)[idx]
                == contribution(tables[t], tables[t].rows@[j], u),
    decreases tables.len(),
{
    let init = tables.drop_last();
    let a = contributions(init, u);
    let b = table_contributions(tables.last(), u);
    if t < tables.len() - 1 {
        assert(init[t] == tables[t]);
        lemma_contribution_present(init, u, t, j);
        let idx = choose|idx: int|
            0 <= idx < a.len() && a[idx] == contribution(init[t], init[t].rows@[j], u);
        assert(contributions(tables, u)[idx] == a[idx]);
    } else {
        assert(contributions(tables, u)[a.len() + j] == b[j]);
    }
}

/// A merged row with an id lies among the rows merged by id.
proof fn lemma_row_with_id(rows: Seq<RowModel>, p: Seq<RowModel>, w: nat, i: int)
    requires
        merged_rows(rows, p, w),
        0 <= i < rows.len(),
        rows[i].id is Some,
    ensures
        i < rows.len() - idless_rows(p).len(),
        rows[i] == resolved_row(p, rows[i].id->0, w),
{
    let n = rows.len() - idless_rows(p).len();
    if i >= n {
        assert(rows.skip(n)[i - n] == rows[i]);
        assert(idless_rows(p).contains(rows[i]));
        assert(false);
    }
    assert(rows.take(n)[i] == rows[i]);
}

/// A row id that only one member has appears exactly once in the merge, with
/// every cell taken from that member.
pub proof fn lemma_single_member_row(tables: Seq<Table>, name: Seq<char>, r: ResolvedTable, t: int, j: int)
    requires
        merged_from(tables, name, r),
        0 <= t < tables.len(),
        0 <= j < tables[t].rows@.len(),
        tables[t].rows@[j].id is Some,
        forall|t2: int, m: int|
            0 <= t2 < tables.len() && t2 != t && 0 <= m < tables[t2].rows@.len() ==> (#[trigger] tables[t2].rows@[m]).id
                != tables[t].rows@[j].id,
    ensures
        exists|i: int| 0 <= i < r.rows@.len() && r.rows@[i].id == tables[t].rows@[j].id,
        forall|i1: int, i2: int|
            0 <= i1 < r.rows@.len() && 0 <= i2 < r.rows@.len() && r.rows@[i1].id
                == tables[t].rows@[j].id && r.rows@[i2].id == tables[t].rows@[j].id ==> i1 == i2,
        forall|i: int, c: int|
            0 <= i < r.rows@.len() && r.rows@[i].id == tables[t].rows@[j].id && 0 <= c
                < r.rows@[i].cells@.len() ==> (#[trigger] r.rows@[i].cells@[c]).source@
                == tables[t].source_path@,
{
    let u = unified_names(tables);
    let p = contributions(tables, u);
    let w = u.len();
    let k = tables[t].rows@[j].id->0;
    let rows = rows_view(r.rows@);
    let n = rows.len() - idless_rows(p).len();
    lemma_contribution_present(tables, u, t, j);
    let idx0 = choose|idx: int|
        0 <= idx < p.len() && p[idx] == contribution(tables[t], tables[t].rows@[j], u);
    assert(p[idx0].id == Some(k));
    assert(has_id(p, k));
    let i0 = choose|i: int| 0 <= i < rows.take(n).len() && rows.take(n)[i].id == Some(k);
    assert(rows[i0] == r.rows@[i0]@);
    assert forall|i1: int, i2: int|
        0 <= i1 < r.rows@.len() && 0 <= i2 < r.rows@.len() && r.rows@[i1].id == Some(k)
            && r.rows@[i2].id == Some(k) implies i1 == i2 by {
        assert(rows[i1] == r.rows@[i1]@);
        assert(rows[i2] == r.rows@[i2]@);
        lemma_row_with_id(rows, p, w, i1);
        lemma_row_with_id(rows, p, w, i2);
        assert(rows.take(n)[i1] == rows[i1]);
        assert(rows.take(n)[i2] == rows[i2]);
        if i1 < i2 {
            assert(rows.take(n)[i1].id->0 < rows.take(n)[i2].id->0);
        } else if i2 < i1 {
            assert(rows.take(n)[i2].id->0 < rows.take(n)[i1].id->0);
        }
    }
    assert forall|i: int, c: int|
        0 <= i < r.rows@.len() && r.rows@[i].id == Some(k) && 0 <= c
            < r.rows@[i].cells@.len() implies (#[trigger] r.rows@[i].cells@[c]).source@
        == tables[t].source_path@ by {
        assert(rows[i] == r.rows@[i]@);
        lemma_row_with_id(rows, p, w, i);
        assert(rows[i].cells[c] == r.rows@[i].cells@[c]@);
        assert(rows[i].cells[c] == resolved_cell(p, k, c));
        lemma_latest_nonempty_found(p, k, c);
        lemma_first_with_id(p, k);
        let idx = match latest_nonempty(p, k, c) {
            Some(m) => m,
            None => first_with_id(p, k)->0,
        };
        assert(p[idx].id == Some(k));
        lemma_contribution_origin(tables, u, idx);
        let (t2, m) = choose|t2: int, m: int|
            0 <= t2 < tables.len() && 0 <= m < tables[t2].rows@.len() && p[idx] == contribution(
                tables[t2],
                tables[t2].rows@[m],
                u,
            );
        assert(tables[t2].rows@[m].id == Some(k));
        assert(t2 == t);
        assert(c < w);
        assert(p[idx].cells[c].source == tables[t].source_path@);
    }
}

proof fn lemma_idless_none(s: Seq<RowModel>)
    requires
        forall|m: int| 0 <= m < s.len() ==> (#[trigger] s[m]).id is Some,
    ensures
        idless_rows(s) == Seq::<RowModel>::empty(),
    decreases s.len(),
{
    if s.len() > 0 {
        let q = s.drop_last();
        assert forall|m: int| 0 <= m < q.len() implies (#[trigger] q[m]).id is Some by {
            assert(q[m] == s[m]);
        }
        lemma_idless_none(q);
        assert(q.push(s.last()) =~= s);
        lemma_idless_push(q, s.last());
    } else {
        assert(idless_rows(s) =~= Seq::<RowModel>::empty());
    }
}

proof fn lemma_idless_single(s: Seq<RowModel>, j: int)
    requires
        0 <= j < s.len(),
        s[j].id is None,
        forall|m: int| 0 <= m < s.len() && m != j ==> (#[trigger] s[m]).id is Some,
    ensures
        idless_rows(s) == seq![s[j]],
    decreases s.len(),
{
    let q = s.drop_last();
    assert(q.push(s.last()) =~= s);
    lemma_idless_push(q, s.last());
    if j == s.len() - 1 {
        assert forall|m: int| 0 <= m < q.len() implies (#[trigger] q[m]).id is Some by {
            assert(q[m] == s[m]);
        }
        lemma_idless_none(q);
        assert(Seq::<RowModel>::empty().push(s.last()) =~= seq![s[j]]);
    } else {
        assert forall|m: int| 0 <= m < q.len() && m != j implies (#[trigger] q[m]).id is Some by {
            assert(q[m] == s[m]);
        }
        assert(q[j] == s[j]);
        lemma_idless_single(q, j);
    }
}

/// Rows without id are never merged: when each of two members has a single row
/// without id, the merge ends with those two rows, in member order, and every
/// row before them has an id.
pub proof fn lemma_idless_rows_kept(
    base: Table,
    overlay: Table,
    name: Seq<char>,
    r: ResolvedTable,
    j0: int,
    j1: int,
)
    requires
        merged_from(seq![base, overlay], name, r),
        0 <= j0 < base.rows@.len(),
        base.rows@[j0].id is None,
        forall|m: int| 0 <= m < base.rows@.len() && m != j0 ==> (#[trigger] base.rows@[m]).id is Some,
        0 <= j1 < overlay.rows@.len(),
        overlay.rows@[j1].id is None,
        forall|m: int|
            0 <= m < overlay.rows@.len() && m != j1 ==> (#[trigger] overlay.rows@[m]).id is Some,
    ensures
        r.rows@.len() >= 2,
        r.rows@[r.rows@.len() - 2]@ == contribution(
            base,
            base.rows@[j0],
            unified_names(seq![base, overlay]),
        ),
        r.rows@[r.rows@.len() - 1]@ == contribution(
            overlay,
            overlay.rows@[j1],
            unified_names(seq![base, overlay]),
        ),
        forall|i: int| 0 <= i < r.rows@.len() - 2 ==> (#[trigger] r.rows@[i]).id is Some,
{
    let tables = seq![base, overlay];
    let u = unified_names(tables);
    let a = table_contributions(base, u);
    let b = table_contributions(overlay, u);
    assert(tables.drop_last() =~= seq![base]);
    assert(seq![base].drop_last() =~= Seq::<Table>::empty());
    assert(seq![base].last() == base);
    assert(contributions(Seq::<Table>::empty(), u) =~= Seq::<RowModel>::empty());
    assert(contributions(seq![base], u) =~= a);
    assert(tables.last() == overlay);
    let p = a + b;
    assert(contributions(tables, u) =~= p);
    assert forall|m: int| 0 <= m < a.len() && m != j0 implies (#[trigger] a[m]).id is Some by {
        assert(base.rows@[m].id is Some);
    }
    assert forall|m: int| 0 <= m < b.len() && m != j1 implies (#[trigger] b[m]).id is Some by {
        assert(overlay.rows@[m].id is Some);
    }
    lemma_idless_single(a, j0);
    lemma_idless_single(b, j1);
    Seq::filter_distributes_over_add(a, b, |x: RowModel| x.id is None);
    assert(idless_rows(p) =~= seq![a[j0], b[j1]]);
    let rows = rows_view(r.rows@);
    let n = rows.len() - 2;
    assert(rows.skip(n) == seq![a[j0], b[j1]]);
    assert(rows.skip(n)[0] == rows[n]);
    assert(rows.skip(n)[1] == rows[n + 1]);
    assert(rows[n] == r.rows@[n]@);
    assert(rows[n + 1] == r.rows@[n + 1]@);
    assert forall|i: int| 0 <= i < r.rows@.len() - 2 implies (#[trigger] r.rows@[i]).id is Some by {
        assert(rows.take(n)[i] == rows[i]);
        assert(rows[i] == r.rows@[i]@);
    }
}


impl ResolvedTable {
    pub fn column_count(&self) -> (r: usize)
        ensures
            r == self.columns@.len(),
    {
        self.columns.len()
    }

    pub fn row_count(&self) -> (r: usize)
        ensures
            r == self.rows@.len(),
    {
        self.rows.len()
    }

    /// Whether each column's index is its position and each row has one cell per column.
    pub fn is_well_formed(&self) -> (r: bool)
        ensures
            r == self.wf(),
    {
        let mut i: usize = 0;
        while i < self.columns.len()
            invariant
                i <= self.columns@.len(),
                forall|j: int| 0 <= j < i ==> #[trigger] self.columns@[j].index == j,
            decreases self.columns.len() - i,
        {
            if self.columns[i].index != i {
                return false;
            }
            i += 1;
        }
        let mut k: usize = 0;
        while k < self.rows.len()
            invariant
                k <= self.rows@.len(),
                forall|j: int| 0 <= j < k ==> #[trigger] self.rows@[j].cells@.len() == self.columns@.len(),
            decreases self.rows.len() - k,
        {
            if self.rows[k].cells.len() != self.columns.len() {
                return false;
            }
            k += 1;
        }
        true
    }

    /// The first column named `name`.
    pub fn find_column(&self, name: &str) -> (r: Option<&Column>)
        ensures
            match first_column_named(self.columns@, name@) {
                Some(i) => r == Some(&self.columns@[i]),
                None => r is None,
            },
    {
        let key = name.to_owned();
        match position_of_column(&self.columns, &key) {
            Some(i) => Some(&self.columns[i]),
            None => None,
        }
    }

    /// The first row with id `id`.
    pub fn find_row(&self, id: i64) -> (r: Option<&ResolvedRow>)
        ensures
            match r {
                Some(row) => exists|i: int|
                    0 <= i < self.rows@.len() && self.rows@[i] == *row && row.id == Some(id)
                        && forall|j: int| 0 <= j < i ==> self.rows@[j].id != Some(id),
                None => forall|j: int| 0 <= j < self.rows@.len() ==> self.rows@[j].id != Some(id),
            },
    {
        let mut i: usize = 0;
        while i < self.rows.len()
            invariant
                i <= self.rows@.len(),
                forall|j: int| 0 <= j < i ==> self.rows@[j].id != Some(id),
            decreases self.rows.len() - i,
        {
            if self.rows[i].id == Some(id) {
                return Some(&self.rows[i]);
            }
            i += 1;
        }
        None
    }

    /// The source of the cell at row `row_idx` and column `col_idx`, if there is one.
    pub fn get_provenance(&self, row_idx: usize, col_idx: usize) -> (r: Option<&String>)
        ensures
            row_idx < self.rows@.len() && col_idx < self.rows@[row_idx as int].cells@.len() ==> r
                == Some(&self.rows@[row_idx as int].cells@[col_idx as int].source),
            !(row_idx < self.rows@.len() && col_idx < self.rows@[row_idx as int].cells@.len())
                ==> r is None,
    {
        if row_idx < self.rows.len() && col_idx < self.rows[row_idx].cells.len() {
            Some(&self.rows[row_idx].cells[col_idx].source)
        } else {
            None
        }
    }
}

/// Whether every text has a header with a field.
pub open spec fn all_members_read(texts: Seq<String>) -> bool {
    forall|i: int| 0 <= i < texts.len() ==> csv_header_of((#[trigger] texts[i])@).len() > 0
}

/// Text `k` is the first whose header has no field.
pub open spec fn first_unread_member(texts: Seq<String>, k: int) -> bool {
    &&& 0 <= k < texts.len()
    &&& csv_header_of(texts[k]@).len() == 0
    &&& forall|j: int| 0 <= j < k ==> csv_header_of((#[trigger] texts[j])@).len() > 0
}

/// Reads each member of a family from its text and merges them.
///
/// `texts[i]` is the content of member `i`. A family with no member is refused;
/// a member that does not read as a table stops the merge with its error. The
/// merge succeeds exactly when the family has members and each reads as a table.
pub fn merge_family(family: &Family, texts: &Vec<String>) -> (r: Result<ResolvedTable, Error>)
    requires
        texts@.len() == family.members@.len(),
    ensures
        family.members@.len() == 0 ==> (r matches Err(Error::FamilyNotFound(n)) && n@
            == family.name@),
        r is Ok <==> family.members@.len() > 0 && all_members_read(texts@),
        family.members@.len() > 0 && r is Err ==> exists|k: int|
            first_unread_member(texts@, k) && is_no_columns_error(
                r->Err_0,
                family.members@[k].path@,
            ),
        r matches Ok(t) ==> exists|tables: Seq<Table>|
            tables.len() == family.members@.len() && (forall|i: int|
                0 <= i < tables.len() ==> #[trigger] table_of_records(
                    tables[i],
                    csv_header_of(texts@[i]@),
                    csv_records_of(texts@[i]@),
                    family.members@[i].path@,
                )) && merged_from(tables, family.name@, t),
{
    if family.members.len() == 0 {
        return Err(Error::FamilyNotFound(family.name.clone()));
    }
    let mut tables: Vec<Table> = Vec::new();
    let mut i: usize = 0;
    while i < family.members.len()
        invariant
            i <= family.members@.len(),
            texts@.len() == family.members@.len(),
            tables@.len() == i,
            forall|j: int| 0 <= j < i ==> csv_header_of((#[trigger] texts@[j])@).len() > 0,
            forall|j: int|
                0 <= j < i ==> #[trigger] table_of_records(
                    tables@[j],
                    csv_header_of(texts@[j]@),
                    csv_records_of(texts@[j]@),
                    family.members@[j].path@,
                ),
        decreases family.members.len() - i,
    {
        match parse_csv_str(texts[i].as_str(), family.members[i].path.as_str()) {
            Ok(t) => tables.push(t),
            Err(e) => {
                assert(first_unread_member(texts@, i as int));
                return Err(e);
            },
        }
        i += 1;
    }
    merge_tables(family.name.as_str(), tables)
}


proof fn lemma_last_column_named_unique(cols: Seq<Column>, n: Seq<char>, j: int)
    requires
        0 <= j < cols.len(),
        cols[j].name@ == n,
        forall|k: int| 0 <= k < cols.len() && k != j ==> (#[trigger] cols[k]).name@ != n,
    ensures
        last_column_named(cols, n) == Some(j),
    decreases cols.len(),
{
    if j < cols.len() - 1 {
        let q = cols.drop_last();
        assert(cols.last().name@ != n) by {
            assert(cols[cols.len() - 1].name@ != n);
        }
        assert forall|k: int| 0 <= k < q.len() && k != j implies (#[trigger] q[k]).name@ != n by {
            assert(q[k] == cols[k]);
        }
        lemma_last_column_named_unique(q, n, j);
    }
}

/// When a table has a single column named `n`, that column is the first of its
/// name, and a row's value under `n` is the cell at that column's index (empty
/// when the row is shorter).
pub proof fn lemma_row_value_single_column(t: Table, r: Row, n: Seq<char>, j: int)
    requires
        0 <= j < t.columns@.len(),
        t.columns@[j].name@ == n,
        forall|k: int|
            0 <= k < t.columns@.len() && k != j ==> (#[trigger] t.columns@[k]).name@ != n,
    ensures
        first_column_named(t.columns@, n) == Some(j),
        row_value(t, r, n) == if t.columns@[j].index < r.cells@.len() {
            r.cells@[t.columns@[j].index as int]@
        } else {
            CellModel::Empty
        },
{
    lemma_last_column_named_unique(t.columns@, n, j);
    let cols = t.columns@;
    assert(0 <= j < cols.len() && cols[j].name@ == n && forall|k: int|
        0 <= k < j ==> cols[k].name@ != n);
    let c = first_column_named(cols, n)->0;
    assert(cols[c].name@ == n);
}


/// A row id that only one row of one member has: the merged row with that id
/// holds, in each column, that row's value under the column's name, with that
/// member as its source.
pub proof fn lemma_single_row_values(tables: Seq<Table>, name: Seq<char>, r: ResolvedTable, t: int, j: int)
    requires
        merged_from(tables, name, r),
        0 <= t < tables.len(),
        0 <= j < tables[t].rows@.len(),
        tables[t].rows@[j].id is Some,
        forall|t2: int, m: int|
            0 <= t2 < tables.len() && 0 <= m < tables[t2].rows@.len() && (t2 != t || m != j)
                ==> (#[trigger] tables[t2].rows@[m]).id != tables[t].rows@[j].id,
    ensures
        forall|i: int, c: int|
            0 <= i < r.rows@.len() && r.rows@[i].id == tables[t].rows@[j].id && 0 <= c
                < r.columns@.len() ==> (#[trigger] r.rows@[i].cells@[c])@ == (ProvCell {
                value: row_value(tables[t], tables[t].rows@[j], r.columns@[c].name@),
                source: tables[t].source_path@,
            }),
{
    let u = unified_names(tables);
    let p = contributions(tables, u);
    let w = u.len();
    let k = tables[t].rows@[j].id->0;
    let rows = rows_view(r.rows@);
    let x = contribution(tables[t], tables[t].rows@[j], u);
    assert(r.columns@.len() == u.len()) by {
        assert(r.columns@.map_values(|col: Column| col.name@).len() == r.columns@.len());
    }
    assert forall|i: int, c: int|
        0 <= i < r.rows@.len() && r.rows@[i].id == Some(k) && 0 <= c
            < r.columns@.len() implies (#[trigger] r.rows@[i].cells@[c])@ == (ProvCell {
        value: row_value(tables[t], tables[t].rows@[j], r.columns@[c].name@),
        source: tables[t].source_path@,
    }) by {
        assert(rows[i] == r.rows@[i]@);
        lemma_row_with_id(rows, p, w, i);
        assert(rows[i].cells[c] == r.rows@[i].cells@[c]@);
        assert(rows[i].cells[c] == resolved_cell(p, k, c));
        lemma_latest_nonempty_found(p, k, c);
        lemma_first_with_id(p, k);
        assert(has_id(p, k)) by {
            lemma_contribution_present(tables, u, t, j);
            let idx0 = choose|idx: int| 0 <= idx < p.len() && p[idx] == x;
            assert(p[idx0].id == Some(k));
        }
        let idx = match latest_nonempty(p, k, c) {
            Some(m) => m,
            None => first_with_id(p, k)->0,
        };
        assert(p[idx].id == Some(k));
        lemma_contribution_origin(tables, u, idx);
        let (t2, m) = choose|t2: int, m: int|
            0 <= t2 < tables.len() && 0 <= m < tables[t2].rows@.len() && p[idx] == contribution(
                tables[t2],
                tables[t2].rows@[m],
                u,
            );
        assert(tables[t2].rows@[m].id == Some(k));
        assert(t2 == t && m == j);
        assert(r.columns@[c].name@ == u[c]) by {
            assert(r.columns@.map_values(|col: Column| col.name@)[c] == u[c]);
        }
    }
}

} // verus!
