//! Edits on the merged view: routing each edit to the file that owns the cell,
//! and rewriting that file with its edits applied.

use vstd::prelude::*;

use crate::error::Error;
use crate::merger::{add_names, lemma_add_names, names_view, table_names, ResolvedRow, ResolvedTable};
use crate::table::{cell_text, first_column_named, position_of_column, Row, Table};
use crate::text::{chars_of, decimal_text, int_text, push_char, push_str};

verus! {

/// A requested change of one cell of the merged view.
#[derive(Debug)]
pub struct Edit {
    pub row_id: i64,
    pub column: String,
    pub value: String,
}

impl Clone for Edit {
    fn clone(&self) -> (r: Self)
        ensures
            r == *self,
    {
        Edit { row_id: self.row_id, column: self.column.clone(), value: self.value.clone() }
    }
}

impl Edit {
    pub fn new(row_id: i64, column: &str, value: &str) -> (r: Edit)
        ensures
            r.row_id == row_id,
            r.column@ == column@,
            r.value@ == value@,
    {
        Edit { row_id, column: column.to_owned(), value: value.to_owned() }
    }
}

/// A family name and the edits requested on its merged view, in order.
#[derive(Debug)]
pub struct PatchFile {
    pub family: String,
    pub edits: Vec<Edit>,
}

impl Clone for PatchFile {
    fn clone(&self) -> (r: Self)
        ensures
            r.family == self.family,
            r.edits@ == self.edits@,
    {
        PatchFile { family: self.family.clone(), edits: copy_edits(&self.edits) }
    }
}

impl PatchFile {
    /// A patch with no edits.
    pub fn new(family: &str) -> (r: PatchFile)
        ensures
            r.family@ == family@,
            r.edits@.len() == 0,
    {
        PatchFile { family: family.to_owned(), edits: Vec::new() }
    }

    /// Appends an edit.
    pub fn add_edit(&mut self, edit: Edit)
        ensures
            final(self).family == old(self).family,
            final(self).edits@ == old(self).edits@.push(edit),
    {
        self.edits.push(edit);
    }
}

/// A batch of patches: where to look, where to write, and which patch files to apply.
#[derive(Debug)]
pub struct BatchFile {
    pub roots: Vec<String>,
    pub output_dir: String,
    pub patches: Vec<String>,
}

/// Which files a patch would change, and which of its edits cannot be placed.
#[derive(Debug)]
pub struct PatchResult {
    pub family: String,
    /// Number of edits that found their cell.
    pub edits_applied: usize,
    /// Each file to change, once, in order of first use, with the row ids of its edits.
    pub modified_sources: Vec<(String, Vec<i64>)>,
    /// Each edit that found no cell, with the reason.
    pub failed_edits: Vec<(Edit, String)>,
}

/// What an export wrote.
#[derive(Debug)]
pub struct ExportResult {
    pub files_written: Vec<String>,
    pub edits_applied: usize,
    /// Each file that could not be written, with the reason.
    pub errors: Vec<(String, String)>,
}

/// Index of the first row with id `id`.
pub open spec fn first_resolved_row(rows: Seq<ResolvedRow>, id: i64) -> Option<int> {
    if exists|i: int| 0 <= i < rows.len() && rows[i].id == Some(id) {
        Some(
            choose|i: int|
                0 <= i < rows.len() && rows[i].id == Some(id) && forall|j: int|
                    0 <= j < i ==> rows[j].id != Some(id),
        )
    } else {
        None
    }
}

/// Where an edit goes.
pub enum Routing {
    RowMissing,
    ColumnMissing,
    /// The file that supplies the edited cell.
    To(Seq<char>),
}

/// The route of an edit: the source of the cell at the first row with its id and
/// the first column with its name.
pub open spec fn route(t: ResolvedTable, e: Edit) -> Routing {
    match first_resolved_row(t.rows@, e.row_id) {
        None => Routing::RowMissing,
        Some(i) => match first_column_named(t.columns@, e.column@) {
            None => Routing::ColumnMissing,
            Some(c) => Routing::To(t.rows@[i].cells@[c].source@),
        },
    }
}

pub open spec fn row_missing_text(id: i64) -> Seq<char> {
    "Row ID "@ + decimal_text(id as int) + " not found"@
}

pub open spec fn column_missing_text(column: Seq<char>) -> Seq<char> {
    "Column '"@ + column + "' not found"@
}

/// The edits that cannot be placed, in order, each with its reason.
pub open spec fn failures(t: ResolvedTable, edits: Seq<Edit>) -> Seq<(Edit, Seq<char>)>
    decreases edits.len(),
{
    if edits.len() == 0 {
        Seq::empty()
    } else {
        let rest = failures(t, edits.drop_last());
        let e = edits.last();
        match route(t, e) {
            Routing::RowMissing => rest.push((e, row_missing_text(e.row_id))),
            Routing::ColumnMissing => rest.push((e, column_missing_text(e.column@))),
            Routing::To(_) => rest,
        }
    }
}

/// The edits that can be placed, in order, each with the file it goes to.
pub open spec fn routed(t: ResolvedTable, edits: Seq<Edit>) -> Seq<(Seq<char>, Edit)>
    decreases edits.len(),
{
    if edits.len() == 0 {
        Seq::empty()
    } else {
        let rest = routed(t, edits.drop_last());
        match route(t, edits.last()) {
            Routing::To(s) => rest.push((s, edits.last())),
            _ => rest,
        }
    }
}

/// The files of `r`, each once, in order of first use.
pub open spec fn routed_files(r: Seq<(Seq<char>, Edit)>) -> Seq<Seq<char>> {
    add_names(Seq::empty(), r.map_values(|p: (Seq<char>, Edit)| p.0))
}

pub open spec fn goes_to(file: Seq<char>) -> spec_fn((Seq<char>, Edit)) -> bool {
    |p: (Seq<char>, Edit)| p.0 == file
}

/// The edits of `r` that go to `file`, in order.
pub open spec fn edits_to(r: Seq<(Seq<char>, Edit)>, file: Seq<char>) -> Seq<Edit> {
    r.filter(goes_to(file)).map_values(|p: (Seq<char>, Edit)| p.1)
}

pub open spec fn failed_view(f: Seq<(Edit, String)>) -> Seq<(Edit, Seq<char>)> {
    f.map_values(|p: (Edit, String)| (p.0, p.1@))
}

/// The first row with id `id`, by its position.
pub fn position_of_row(rows: &Vec<ResolvedRow>, id: i64) -> (r: Option<usize>)
    ensures
        match r {
            Some(i) => first_resolved_row(rows@, id) == Some(i as int) && i < rows@.len(),
            None => first_resolved_row(rows@, id) is None,
        },
{
    let mut i: usize = 0;
    while i < rows.len()
        invariant
            i <= rows.len(),
            forall|j: int| 0 <= j < i ==> rows@[j].id != Some(id),
        decreases rows.len() - i,
    {
        if rows[i].id == Some(id) {
            proof {
                let k = i as int;
                assert(0 <= k < rows.len() && rows@[k].id == Some(id));
                let c = first_resolved_row(rows@, id)->0;
                if c < k {
                    assert(rows@[c].id != Some(id));
                }
                if c > k {
                    assert(rows@[k].id != Some(id));
                }
            }
            return Some(i);
        }
        i += 1;
    }
    None
}

/// Where `e` goes: the source of its cell, or `None` when there is no such cell.
fn route_edit(table: &ResolvedTable, e: &Edit) -> (r: Option<String>)
    requires
        table.wf(),
    ensures
        match route(*table, *e) {
            Routing::To(s) => r matches Some(x) && x@ == s,
            _ => r is None,
        },
{
    match position_of_row(&table.rows, e.row_id) {
        None => None,
        Some(i) => match position_of_column(&table.columns, &e.column) {
            None => None,
            Some(c) => {
                assert(table.rows@[i as int].cells@.len() == table.columns@.len());
                Some(table.rows[i].cells[c].source.clone())
            },
        },
    }
}

fn row_missing_reason(id: i64) -> (r: String)
    ensures
        r@ == row_missing_text(id),
{
    let mut s = String::new();
    push_str(&mut s, "Row ID ");
    let digits = int_text(id);
    push_str(&mut s, digits.as_str());
    push_str(&mut s, " not found");
    s
}

fn column_missing_reason(column: &String) -> (r: String)
    ensures
        r@ == column_missing_text(column@),
{
    let mut s = String::new();
    push_str(&mut s, "Column '");
    push_str(&mut s, column.as_str());
    push_str(&mut s, "' not found");
    s
}

/// A copy of each edit, in order.
pub fn copy_edits(v: &Vec<Edit>) -> (r: Vec<Edit>)
    ensures
        r@ == v@,
{
    let mut out: Vec<Edit> = Vec::new();
    let mut i: usize = 0;
    while i < v.len()
        invariant
            i <= v.len(),
            out@ == v@.take(i as int),
        decreases v.len() - i,
    {
        out.push(v[i].clone());
        i += 1;
        assert(out@ =~= v@.take(i as int));
    }
    assert(out@ =~= v@);
    out
}

proof fn lemma_edits_to_push(r: Seq<(Seq<char>, Edit)>, x: (Seq<char>, Edit), file: Seq<char>)
    ensures
        edits_to(r.push(x), file) == if x.0 == file {
            edits_to(r, file).push(x.1)
        } else {
            edits_to(r, file)
        },
{
    r.lemma_filter_push(x, goes_to(file));
    let f = r.filter(goes_to(file));
    assert(f.push(x).map_values(|p: (Seq<char>, Edit)| p.1) =~= f.map_values(
        |p: (Seq<char>, Edit)| p.1,
    ).push(x.1));
}

proof fn lemma_edits_to_absent(r: Seq<(Seq<char>, Edit)>, file: Seq<char>)
    requires
        !r.map_values(|p: (Seq<char>, Edit)| p.0).contains(file),
    ensures
        edits_to(r, file) == Seq::<Edit>::empty(),
    decreases r.len(),
{
    if r.len() == 0 {
        assert(edits_to(r, file) =~= Seq::<Edit>::empty());
    } else {
        let q = r.drop_last();
        assert(q.push(r.last()) =~= r);
        assert(!q.map_values(|p: (Seq<char>, Edit)| p.0).contains(file)) by {
            if q.map_values(|p: (Seq<char>, Edit)| p.0).contains(file) {
                let m = q.map_values(|p: (Seq<char>, Edit)| p.0);
                let i = choose|i: int| 0 <= i < m.len() && #[trigger] m[i] == file;
                assert(r.map_values(|p: (Seq<char>, Edit)| p.0)[i] == file);
            }
        }
        assert(r.map_values(|p: (Seq<char>, Edit)| p.0)[r.len() - 1] == r.last().0);
        lemma_edits_to_absent(q, file);
        lemma_edits_to_push(q, r.last(), file);
    }
}

/// Position of `f` in `files`.
fn index_of_file(files: &Vec<String>, f: &String) -> (r: Option<usize>)
    ensures
        match r {
            Some(k) => k < files@.len() && files@[k as int]@ == f@,
            None => forall|j: int| 0 <= j < files@.len() ==> files@[j]@ != f@,
        },
{
    let mut k: usize = 0;
    while k < files.len()
        invariant
            k <= files@.len(),
            forall|j: int| 0 <= j < k ==> files@[j]@ != f@,
        decreases files.len() - k,
    {
        if files[k] == *f {
            return Some(k);
        }
        k += 1;
    }
    None
}

/// Adds edit `e`, which goes to `file`, to the grouping of `before`.
fn add_to_groups(
    files: &mut Vec<String>,
    groups: &mut Vec<Vec<Edit>>,
    file: String,
    e: &Edit,
    Ghost(before): Ghost<Seq<(Seq<char>, Edit)>>,
)
    requires
        names_view(old(files)@) == routed_files(before),
        old(groups)@.len() == old(files)@.len(),
        forall|j: int|
            0 <= j < old(files)@.len() ==> (#[trigger] old(groups)@[j])@ == edits_to(
                before,
                old(files)@[j]@,
            ),
    ensures
        names_view(final(files)@) == routed_files(before.push((file@, *e))),
        final(groups)@.len() == final(files)@.len(),
        forall|j: int|
            0 <= j < final(files)@.len() ==> (#[trigger] final(groups)@[j])@ == edits_to(
                before.push((file@, *e)),
                final(files)@[j]@,
            ),
{
    let ghost x = (file@, *e);
    let ghost after = before.push(x);
    let ghost srcs = before.map_values(|p: (Seq<char>, Edit)| p.0);
    proof {
        lemma_add_names(Seq::empty(), srcs);
    }
    assert(after.map_values(|p: (Seq<char>, Edit)| p.0) =~= srcs.push(file@));
    assert(srcs.push(file@).drop_last() =~= srcs);
    match index_of_file(files, &file) {
        Some(k) => {
            assert(names_view(files@)[k as int] == file@);
            assert(routed_files(before).contains(file@));
            let ghost old_groups = groups@;
            let mut g = copy_edits(&groups[k]);
            let ec = e.clone();
            g.push(ec);
            assert(g@ == old_groups[k as int]@.push(*e));
            groups.set(k, g);
            proof {
                assert forall|j: int| 0 <= j < files@.len() implies (#[trigger] groups@[j])@
                    == edits_to(after, files@[j]@) by {
                    lemma_edits_to_push(before, x, files@[j]@);
                    if j != k {
                        assert(groups@[j] == old_groups[j]);
                        assert(names_view(files@).no_duplicates());
                        assert(names_view(files@)[j] != names_view(files@)[k as int]);
                    } else {
                        assert(files@[j]@ == file@);
                        assert(groups@[j]@ == old_groups[j]@.push(*e));
                    }
                }
            }
        },
        None => {
            assert(!srcs.contains(file@)) by {
                if srcs.contains(file@) {
                    assert(routed_files(before).contains(file@));
                    let j = choose|j: int|
                        0 <= j < names_view(files@).len() && names_view(files@)[j] == file@;
                    assert(files@[j]@ == file@);
                }
            }
            proof {
                lemma_edits_to_absent(before, file@);
                lemma_edits_to_push(before, x, file@);
            }
            let mut g: Vec<Edit> = Vec::new();
            g.push(e.clone());
            assert(g@ =~= edits_to(after, file@));
            let ghost old_groups = groups@;
            let ghost old_files = files@;
            files.push(file);
            groups.push(g);
            proof {
                assert forall|j: int| 0 <= j < files@.len() implies (#[trigger] groups@[j])@
                    == edits_to(after, files@[j]@) by {
                    lemma_edits_to_push(before, x, files@[j]@);
                    if j < old_files.len() {
                        assert(groups@[j] == old_groups[j]);
                        assert(files@[j] == old_files[j]);
                        assert(names_view(old_files)[j] == files@[j]@);
                    }
                }
                assert(names_view(files@) =~= names_view(old_files).push(x.0));
            }
        },
    }
}

/// The placeable edits of `edits`, grouped by the file they go to: the files in
/// order of first use, and for each its edits in order.
pub fn route_edits(table: &ResolvedTable, edits: &Vec<Edit>) -> (r: (Vec<String>, Vec<Vec<Edit>>))
    requires
        table.wf(),
    ensures
        names_view(r.0@) == routed_files(routed(*table, edits@)),
        r.1@.len() == r.0@.len(),
        forall|i: int|
            0 <= i < r.0@.len() ==> (#[trigger] r.1@[i])@ == edits_to(
                routed(*table, edits@),
                r.0@[i]@,
            ),
{
    let mut files: Vec<String> = Vec::new();
    let mut groups: Vec<Vec<Edit>> = Vec::new();
    let mut i: usize = 0;
    assert(edits@.take(0) =~= Seq::<Edit>::empty());
    assert(routed_files(Seq::empty()) =~= Seq::<Seq<char>>::empty()) by {
        assert(Seq::<(Seq<char>, Edit)>::empty().map_values(|p: (Seq<char>, Edit)| p.0)
            =~= Seq::<Seq<char>>::empty());
    }
    while i < edits.len()
        invariant
            i <= edits@.len(),
            table.wf(),
            names_view(files@) == routed_files(routed(*table, edits@.take(i as int))),
            groups@.len() == files@.len(),
            forall|j: int|
                0 <= j < files@.len() ==> (#[trigger] groups@[j])@ == edits_to(
                    routed(*table, edits@.take(i as int)),
                    files@[j]@,
                ),
        decreases edits.len() - i,
    {
        let ghost before = routed(*table, edits@.take(i as int));
        let e = &edits[i];
        assert(edits@.take(i + 1).drop_last() =~= edits@.take(i as int));
        assert(edits@.take(i + 1).last() == *e);
        match route_edit(table, e) {
            None => {},
            Some(file) => {
                add_to_groups(&mut files, &mut groups, file, e, Ghost(before));
            },
        }
        i += 1;
    }
    assert(edits@.take(i as int) =~= edits@);
    (files, groups)
}


proof fn lemma_routed_len(t: ResolvedTable, edits: Seq<Edit>)
    ensures
        routed(t, edits).len() <= edits.len(),
    decreases edits.len(),
{
    if edits.len() > 0 {
        lemma_routed_len(t, edits.drop_last());
    }
}

pub open spec fn row_ids(edits: Seq<Edit>) -> Seq<i64> {
    edits.map_values(|e: Edit| e.row_id)
}

/// Works out which files a patch changes and which of its edits cannot be placed.
///
/// Each edit is placed at the first row with its id and the first column with its
/// name; the file that supplies that cell is the one to change. An edit with no
/// such row, or else no such column, is reported with the reason, and the rest of
/// the patch goes on.
pub fn apply_patch(table: &ResolvedTable, patch: &PatchFile) -> (r: Result<PatchResult, Error>)
    requires
        table.wf(),
    ensures
        match r {
            Ok(res) => {
                let placed = routed(*table, patch.edits@);
                let files = routed_files(placed);
                &&& res.family@ == patch.family@
                &&& failed_view(res.failed_edits@) == failures(*table, patch.edits@)
                &&& res.edits_applied == placed.len()
                &&& res.modified_sources@.len() == files.len()
                &&& forall|i: int|
                    0 <= i < files.len() ==> (#[trigger] res.modified_sources@[i]).0@ == files[i]
                        && res.modified_sources@[i].1@ == row_ids(edits_to(placed, files[i]))
            },
            Err(_) => false,
        },
{
    let edits = &patch.edits;
    let mut failed: Vec<(Edit, String)> = Vec::new();
    let mut applied: usize = 0;
    let mut i: usize = 0;
    assert(edits@.take(0) =~= Seq::<Edit>::empty());
    assert(failed_view(failed@) =~= Seq::<(Edit, Seq<char>)>::empty());
    while i < edits.len()
        invariant
            i <= edits@.len(),
            table.wf(),
            *edits == patch.edits,
            failed_view(failed@) == failures(*table, edits@.take(i as int)),
            applied == routed(*table, edits@.take(i as int)).len(),
        decreases edits.len() - i,
    {
        let e = &edits[i];
        assert(edits@.take(i + 1).drop_last() =~= edits@.take(i as int));
        assert(edits@.take(i + 1).last() == *e);
        proof {
            lemma_routed_len(*table, edits@.take(i as int));
        }
        let ghost before = failed@;
        match position_of_row(&table.rows, e.row_id) {
            None => {
                failed.push((e.clone(), row_missing_reason(e.row_id)));
                assert(failed_view(failed@) =~= failed_view(before).push(
                    (*e, row_missing_text(e.row_id)),
                ));
            },
            Some(_) => match position_of_column(&table.columns, &e.column) {
                None => {
                    failed.push((e.clone(), column_missing_reason(&e.column)));
                    assert(failed_view(failed@) =~= failed_view(before).push(
                        (*e, column_missing_text(e.column@)),
                    ));
                },
                Some(_) => {
                    applied += 1;
                },
            },
        }
        i += 1;
    }
    assert(edits@.take(i as int) =~= edits@);
    let (files, groups) = route_edits(table, edits);
    let ghost placed = routed(*table, edits@);
    let mut modified: Vec<(String, Vec<i64>)> = Vec::new();
    let mut k: usize = 0;
    while k < files.len()
        invariant
            k <= files@.len(),
            groups@.len() == files@.len(),
            modified@.len() == k,
            forall|j: int|
                0 <= j < k ==> (#[trigger] modified@[j]).0@ == files@[j]@ && modified@[j].1@
                    == row_ids(groups@[j]@),
        decreases files.len() - k,
    {
        let g = &groups[k];
        let mut ids: Vec<i64> = Vec::new();
        let mut m: usize = 0;
        while m < g.len()
            invariant
                m <= g@.len(),
                ids@ == row_ids(g@.take(m as int)),
            decreases g.len() - m,
        {
            ids.push(g[m].row_id);
            m += 1;
            assert(ids@ =~= row_ids(g@.take(m as int)));
        }
        assert(g@.take(m as int) =~= g@);
        modified.push((files[k].clone(), ids));
        k += 1;
    }
    proof {
        assert forall|j: int| 0 <= j < files@.len() implies files@[j]@ == routed_files(placed)[j] by {
            assert(names_view(files@)[j] == files@[j]@);
        }
    }
    Ok(
        PatchResult {
            family: patch.family.clone(),
            edits_applied: applied,
            modified_sources: modified,
            failed_edits: failed,
        },
    )
}

/// The files a patch rewrites, in order of first use, each with the edits it takes.
pub fn plan_export(table: &ResolvedTable, patch: &PatchFile) -> (r: Vec<(String, Vec<Edit>)>)
    requires
        table.wf(),
    ensures
        ({
            let placed = routed(*table, patch.edits@);
            let files = routed_files(placed);
            &&& r@.len() == files.len()
            &&& forall|i: int|
                0 <= i < files.len() ==> (#[trigger] r@[i]).0@ == files[i] && r@[i].1@ == edits_to(
                    placed,
                    files[i],
                )
        }),
{
    let (files, groups) = route_edits(table, &patch.edits);
    let mut plan: Vec<(String, Vec<Edit>)> = Vec::new();
    let mut k: usize = 0;
    while k < files.len()
        invariant
            k <= files@.len(),
            groups@.len() == files@.len(),
            plan@.len() == k,
            forall|j: int|
                0 <= j < k ==> (#[trigger] plan@[j]).0@ == files@[j]@ && plan@[j].1@ == groups@[j]@,
        decreases files.len() - k,
    {
        plan.push((files[k].clone(), copy_edits(&groups[k])));
        k += 1;
    }
    proof {
        let placed = routed(*table, patch.edits@);
        assert forall|j: int| 0 <= j < files@.len() implies files@[j]@ == routed_files(placed)[j] by {
            assert(names_view(files@)[j] == files@[j]@);
        }
    }
    plan
}

proof fn lemma_route_has_row(t: ResolvedTable, e: Edit)
    requires
        route(t, e) is To,
    ensures
        exists|r: int| 0 <= r < t.rows@.len() && t.rows@[r].id == Some(e.row_id),
{
    assert(first_resolved_row(t.rows@, e.row_id) is Some);
}

proof fn lemma_routed_rows_exist(t: ResolvedTable, edits: Seq<Edit>, j: int)
    requires
        0 <= j < routed(t, edits).len(),
    ensures
        exists|r: int| 0 <= r < t.rows@.len() && t.rows@[r].id == Some(routed(t, edits)[j].1.row_id),
    decreases edits.len(),
{
    if edits.len() == 0 {
        return;
    }
    let init = edits.drop_last();
    let e = edits.last();
    let rr = routed(t, init);
    if route(t, e) is To {
        assert(routed(t, edits) == rr.push((route(t, e)->To_0, e)));
        if j < rr.len() {
            lemma_routed_rows_exist(t, init, j);
            assert(routed(t, edits)[j] == rr[j]);
        } else {
            assert(routed(t, edits)[j].1 == e);
            lemma_route_has_row(t, e);
        }
    } else {
        assert(routed(t, edits) == rr);
        lemma_routed_rows_exist(t, init, j);
    }
}

/// An edit whose row id no row has is reported as failed, with a reason that
/// holds that id, and no file is given an edit for that id.
pub proof fn lemma_missing_row_fails(t: ResolvedTable, edits: Seq<Edit>, i: int)
    requires
        0 <= i < edits.len(),
        forall|r: int| 0 <= r < t.rows@.len() ==> t.rows@[r].id != Some(edits[i].row_id),
    ensures
        failures(t, edits).contains((edits[i], row_missing_text(edits[i].row_id))),
        forall|j: int|
            0 <= j < routed(t, edits).len() ==> (#[trigger] routed(t, edits)[j]).1.row_id
                != edits[i].row_id,
    decreases edits.len(),
{
    let init = edits.drop_last();
    let f = failures(t, init);
    assert forall|j: int| 0 <= j < routed(t, edits).len() implies (#[trigger] routed(
        t,
        edits,
    )[j]).1.row_id != edits[i].row_id by {
        lemma_routed_rows_exist(t, edits, j);
    }
    if i == edits.len() - 1 {
        assert(first_resolved_row(t.rows@, edits[i].row_id) is None);
        assert(failures(t, edits) == f.push((edits[i], row_missing_text(edits[i].row_id))));
        assert(failures(t, edits)[f.len() as int] == (edits[i], row_missing_text(edits[i].row_id)));
    } else {
        assert(init[i] == edits[i]);
        lemma_missing_row_fails(t, init, i);
        let j = choose|j: int| 0 <= j < f.len() && f[j] == (edits[i], row_missing_text(edits[i].row_id));
        assert(failures(t, edits)[j] == f[j]);
    }
}


pub open spec fn needs_quotes(s: Seq<char>) -> bool {
    s.contains(',') || s.contains('"') || s.contains('\n') || s.contains('\r')
}

/// `s` with each quote doubled.
pub open spec fn doubled_quotes(s: Seq<char>) -> Seq<char>
    decreases s.len(),
{
    if s.len() == 0 {
        Seq::empty()
    } else {
        doubled_quotes(s.drop_last()) + if s.last() == '"' {
            seq!['"', '"']
        } else {
            seq![s.last()]
        }
    }
}

/// A field as written in a record: quoted, with quotes doubled, when it holds a
/// comma, a quote or a line break; as it is otherwise.
pub open spec fn escaped(s: Seq<char>) -> Seq<char> {
    if needs_quotes(s) {
        seq!['"'] + doubled_quotes(s) + seq!['"']
    } else {
        s
    }
}

/// Escapes a field for a comma-separated record.
pub fn escape_csv(s: &str) -> (r: String)
    ensures
        r@ == escaped(s@),
{
    let v = chars_of(s);
    let mut quote = false;
    let mut i: usize = 0;
    while i < v.len()
        invariant
            i <= v@.len(),
            v@ == s@,
            quote == (v@.take(i as int).contains(',') || v@.take(i as int).contains('"')
                || v@.take(i as int).contains('\n') || v@.take(i as int).contains('\r')),
        decreases v.len() - i,
    {
        let c = v[i];
        proof {
            let a = v@.take(i as int);
            let b = v@.take(i + 1);
            assert(b == a.push(c));
            assert forall|x: char| b.contains(x) <==> (a.contains(x) || x == c) by {
                if b.contains(x) {
                    let k = choose|k: int| 0 <= k < b.len() && b[k] == x;
                    if k < a.len() {
                        assert(a[k] == x);
                    }
                }
                if a.contains(x) {
                    let k = choose|k: int| 0 <= k < a.len() && a[k] == x;
                    assert(b[k] == x);
                }
                if x == c {
                    assert(b[i as int] == x);
                }
            }
        }
        if c == ',' || c == '"' || c == '\n' || c == '\r' {
            quote = true;
        }
        i += 1;
    }
    assert(v@.take(i as int) =~= s@);
    if !quote {
        return s.to_owned();
    }
    let mut out = String::new();
    push_char(&mut out, '"');
    let mut i: usize = 0;
    assert(v@.take(0) =~= Seq::<char>::empty());
    while i < v.len()
        invariant
            i <= v@.len(),
            out@ == seq!['"'] + doubled_quotes(v@.take(i as int)),
        decreases v.len() - i,
    {
        assert(v@.take(i + 1).drop_last() =~= v@.take(i as int));
        if v[i] == '"' {
            push_char(&mut out, '"');
            push_char(&mut out, '"');
        } else {
            push_char(&mut out, v[i]);
        }
        i += 1;
        assert(out@ =~= seq!['"'] + doubled_quotes(v@.take(i as int)));
    }
    push_char(&mut out, '"');
    out
}

/// The value of the last edit for row id `id` and column `col`.
pub open spec fn edit_value(edits: Seq<Edit>, id: i64, col: Seq<char>) -> Option<Seq<char>>
    decreases edits.len(),
{
    if edits.len() == 0 {
        None
    } else if edits.last().row_id == id && edits.last().column@ == col {
        Some(edits.last().value@)
    } else {
        edit_value(edits.drop_last(), id, col)
    }
}

/// The text written for cell `j` of `row`: an edit's value when the row has an id
/// and an edit names that id and the cell's column; the cell's own text otherwise.
pub open spec fn out_text(t: Table, row: Row, j: int, edits: Seq<Edit>) -> Seq<char> {
    let own = cell_text(row.cells@[j]@);
    match row.id {
        Some(k) => if j < t.columns@.len() {
            match edit_value(edits, k, t.columns@[j].name@) {
                Some(v) => v,
                None => own,
            }
        } else {
            own
        },
        None => own,
    }
}

/// The parts joined by commas.
pub open spec fn joined(parts: Seq<Seq<char>>) -> Seq<char>
    decreases parts.len(),
{
    if parts.len() == 0 {
        Seq::empty()
    } else if parts.len() == 1 {
        parts[0]
    } else {
        joined(parts.drop_last()) + seq![','] + parts.last()
    }
}

pub open spec fn row_line(t: Table, row: Row, edits: Seq<Edit>) -> Seq<char> {
    joined(Seq::new(row.cells@.len(), |j: int| escaped(out_text(t, row, j, edits)))) + seq!['\n']
}

pub open spec fn row_lines(t: Table, rows: Seq<Row>, edits: Seq<Edit>) -> Seq<char>
    decreases rows.len(),
{
    if rows.len() == 0 {
        Seq::empty()
    } else {
        row_lines(t, rows.drop_last(), edits) + row_line(t, rows.last(), edits)
    }
}

/// The text of table `t` with `edits` applied: the header line, then one line per row.
pub open spec fn rendered(t: Table, edits: Seq<Edit>) -> Seq<char> {
    joined(table_names(t)) + seq!['\n'] + row_lines(t, t.rows@, edits)
}

fn find_edit_value<'a>(edits: &'a Vec<Edit>, id: i64, col: &String) -> (r: Option<&'a String>)
    ensures
        match r {
            Some(v) => edit_value(edits@, id, col@) == Some(v@),
            None => edit_value(edits@, id, col@) is None,
        },
{
    let mut i = edits.len();
    assert(edits@.take(i as int) =~= edits@);
    while i > 0
        invariant
            i <= edits@.len(),
            edit_value(edits@, id, col@) == edit_value(edits@.take(i as int), id, col@),
        decreases i,
    {
        let e = &edits[i - 1];
        assert(edits@.take(i as int).drop_last() =~= edits@.take(i - 1));
        assert(edits@.take(i as int).last() == *e);
        if e.row_id == id && e.column == *col {
            return Some(&e.value);
        }
        i -= 1;
    }
    None
}

/// Appends the fields joined by commas.
fn push_joined(out: &mut String, parts: &Vec<String>)
    ensures
        final(out)@ == old(out)@ + joined(parts@.map_values(|p: String| p@)),
{
    let ghost ps = parts@.map_values(|p: String| p@);
    let ghost start = out@;
    let mut j: usize = 0;
    assert(ps.take(0) =~= Seq::<Seq<char>>::empty());
    while j < parts.len()
        invariant
            j <= parts@.len(),
            ps == parts@.map_values(|p: String| p@),
            out@ == start + joined(ps.take(j as int)),
        decreases parts.len() - j,
    {
        assert(ps.take(j + 1).drop_last() =~= ps.take(j as int));
        assert(ps.take(j + 1).last() == parts@[j as int]@);
        if j > 0 {
            push_char(out, ',');
        } else {
            assert(ps.take(1) =~= seq![parts@[0]@]);
        }
        push_str(out, parts[j].as_str());
        j += 1;
        assert(out@ =~= start + joined(ps.take(j as int)));
    }
    assert(ps.take(j as int) =~= ps);
}

/// The text of `table` with `edits` applied.
///
/// The header is written as it is; each row's fields are escaped. A cell takes an
/// edit's value when its row has an id and the last edit naming that id and the
/// cell's column gives it; every other cell keeps its own text.
pub fn render_edited(table: &Table, edits: &Vec<Edit>) -> (r: String)
    ensures
        r@ == rendered(*table, edits@),
{
    let mut out = String::new();
    let mut names: Vec<String> = Vec::new();
    let mut c: usize = 0;
    while c < table.columns.len()
        invariant
            c <= table.columns@.len(),
            names@.len() == c,
            forall|j: int| 0 <= j < c ==> (#[trigger] names@[j])@ == table.columns@[j].name@,
        decreases table.columns.len() - c,
    {
        names.push(table.columns[c].name.clone());
        c += 1;
    }
    assert(names@.map_values(|p: String| p@) =~= table_names(*table));
    push_joined(&mut out, &names);
    push_char(&mut out, '\n');
    let ghost head = joined(table_names(*table)) + seq!['\n'];
    assert(out@ =~= head);
    let mut r: usize = 0;
    assert(table.rows@.take(0) =~= Seq::<Row>::empty());
    while r < table.rows.len()
        invariant
            r <= table.rows@.len(),
            out@ == head + row_lines(*table, table.rows@.take(r as int), edits@),
        decreases table.rows.len() - r,
    {
        let row = &table.rows[r];
        let mut fields: Vec<String> = Vec::new();
        let mut j: usize = 0;
        while j < row.cells.len()
            invariant
                j <= row.cells@.len(),
                fields@.len() == j,
                forall|m: int|
                    0 <= m < j ==> (#[trigger] fields@[m])@ == escaped(
                        out_text(*table, *row, m, edits@),
                    ),
            decreases row.cells.len() - j,
        {
            let own = row.cells[j].to_string_value();
            let text = match row.id {
                Some(k) => if j < table.columns.len() {
                    match find_edit_value(edits, k, &table.columns[j].name) {
                        Some(v) => v.clone(),
                        None => own,
                    }
                } else {
                    own
                },
                None => own,
            };
            fields.push(escape_csv(text.as_str()));
            j += 1;
        }
        assert(fields@.map_values(|p: String| p@) =~= Seq::new(
            row.cells@.len(),
            |m: int| escaped(out_text(*table, *row, m, edits@)),
        ));
        push_joined(&mut out, &fields);
        push_char(&mut out, '\n');
        assert(table.rows@.take(r + 1).drop_last() =~= table.rows@.take(r as int));
        assert(table.rows@.take(r + 1).last() == *row);
        r += 1;
        assert(out@ =~= head + row_lines(*table, table.rows@.take(r as int), edits@));
    }
    assert(table.rows@.take(r as int) =~= table.rows@);
    out
}

} // verus!
