//! A record joined with the name it points to.
use crate::filename::Filename;
use crate::table_record::TableRecord;
use vstd::prelude::*;

verus! {

/// A record together with its resolved name.
pub struct FileMeta {
    pub internal_file_name: Filename,
    pub table_record: TableRecord,
}

impl FileMeta {
    /// Pairs `table_record` with the name that its name index selects.
    pub fn create_from_table_record(table_record: &TableRecord, filename_list: &Vec<Filename>) -> (r: FileMeta)
        requires
            (table_record.name as int) < filename_list@.len(),
        ensures
            r.internal_file_name.filename@ == filename_list@[table_record.name as int].filename@,
            r.table_record == *table_record,
    {
        FileMeta {
            internal_file_name: filename_list[table_record.name as usize].clone(),
            table_record: *table_record,
        }
    }
}

} // verus!
