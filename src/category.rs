//! General_Category tables, built from explicit values alone.
use vstd::prelude::*;

use crate::compress::{compress, compress_entries};
use crate::emit::{emit_range_table, table_text};
use crate::error::UcdError;
use crate::table::{field_of, records_map, PropertyField, PropertyTable, UnicodeDataEntry};

verus! {

/// The General_Category table of a set of records.
pub struct CategoryData {
    pub table: PropertyTable,
}

impl CategoryData {
    /// Inserts the General_Category of every record in order.
    pub fn from_entries(data: &[UnicodeDataEntry]) -> (r: Result<CategoryData, UcdError>)
        ensures
            r is Err <==> exists|i: int| 0 <= i < data@.len() && #[trigger] data@[i].general_category@.len() == 0,
            r is Err ==> r == Err::<CategoryData, UcdError>(UcdError::MalformedPropertyValue),
            r matches Ok(c) ==> c.table.wf() && c.table@ == records_map(data@, PropertyField::GeneralCategory),
    {
        proof {
            assert forall|i: int| #![trigger data@[i]] 0 <= i < data@.len() implies field_of(
                data@[i],
                PropertyField::GeneralCategory,
            ) == data@[i].general_category@ by {}
        }
        match PropertyTable::from_records(data, PropertyField::GeneralCategory) {
            Ok(table) => Ok(CategoryData { table }),
            Err(e) => Err(e),
        }
    }

    /// The text of the table: a header line, then one line per maximal range.
    pub fn emit(&self) -> (text: String)
        requires
            self.table.wf(),
        ensures
            text@ == table_text("# General_Category"@, compress_entries(self.table.entries())),
    {
        let ranges = compress(&self.table);
        emit_range_table("# General_Category", ranges.as_slice())
    }
}

} // verus!
