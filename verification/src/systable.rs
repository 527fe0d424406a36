//! `SYSTABLE` catalog rows.

use vstd::prelude::*;

verus! {

/// One `SYSTABLE` row: a table's name and where its row was found.
#[derive(Debug, Clone, PartialEq, Eq)]
pub struct SysTableEntry {
    /// Table id of the row itself.
    pub table_id: u32,
    /// Table name.
    pub name: String,
    /// Number of columns, where the row says.
    pub col_count: Option<u32>,
    /// First page of the table's data, where the row says.
    pub data_root_page: Option<u32>,
    /// Last page of the table's data, where the row says.
    pub last_page: Option<u32>,
    /// Page on which this row was found.
    pub page_number: u64,
    /// Byte offset of the row tag within the decoded page.
    pub row_offset: usize,
}

} // verus!
