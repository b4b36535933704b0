//! Consolidates families of overlapping tables into one merged table with per-cell
//! provenance, and routes edits on the merged view back to the files that own them.
use vstd::prelude::*;

pub mod error;
pub mod history;
pub mod merger;
pub mod parser;
pub mod patch;
pub mod scanner;
pub mod table;
pub mod text;

pub use error::Error;
pub use history::{create_history_entry, HistoryEntry, HistoryFile, Timestamp};
pub use merger::{merge_family, merge_tables, ResolvedCell, ResolvedRow, ResolvedTable};
pub use parser::{parse_csv_str, table_from_records};
pub use patch::{
    apply_patch, escape_csv, plan_export, render_edited, BatchFile, Edit, ExportResult, PatchFile,
    PatchResult,
};
pub use scanner::{
    extract_family_info, group_families, looks_like_variant, Family, FamilyMember, ScanResult,
};
pub use table::{CellValue, Column, Row, Table};

verus! {

} // verus!
