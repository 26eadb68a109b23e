//! Bidi_Class tables: explicit values widened by the documented defaults for
//! unassigned code points.
use vstd::prelude::*;

use crate::compress::{compress, compress_entries};
use crate::emit::{emit_range_table, table_text};
use crate::error::UcdError;
use crate::table::{
    default_views, field_of, records_map, with_defaults, DefaultRange, PropertyField, PropertyTable,
    UnicodeDataEntry,
};

verus! {

/// The default Bidi_Class ranges (DerivedBidiClass.txt), in the order applied.
pub open spec fn bidi_defaults_spec() -> Seq<(u32, u32, Seq<char>)> {
    seq![
        (0x0600, 0x07BF, seq!['A', 'L']),
        (0x08A0, 0x08FF, seq!['A', 'L']),
        (0xFB50, 0xFDCF, seq!['A', 'L']),
        (0xFDF0, 0xFDFF, seq!['A', 'L']),
        (0xFE70, 0xFEFF, seq!['A', 'L']),
        (0x1EE00, 0x1EEFF, seq!['A', 'L']),
        (0x0590, 0x05FF, seq!['R']),
        (0x07C0, 0x089F, seq!['R']),
        (0xFB1D, 0xFB4F, seq!['R']),
        (0x10800, 0x10FFF, seq!['R']),
        (0x1E800, 0x1EDFF, seq!['R']),
        (0x1EF00, 0x1EFFF, seq!['R']),
        (0x20A0, 0x20CF, seq!['E', 'T']),
    ]
}

fn default_range(start: u32, end: u32, value: &str) -> (d: DefaultRange)
    ensures
        d@ == (start, end, value@),
{
    DefaultRange { start, end, value: value.to_owned() }
}

/// The default Bidi_Class ranges, in the order applied.
pub fn bidi_default_ranges() -> (r: Vec<DefaultRange>)
    ensures
        default_views(r@) == bidi_defaults_spec(),
        forall|i: int| 0 <= i < r@.len() ==> #[trigger] r@[i].value@.len() > 0,
{
    proof {
        reveal_strlit("AL");
        reveal_strlit("R");
        reveal_strlit("ET");
    }
    let mut v: Vec<DefaultRange> = Vec::new();
    v.push(default_range(0x0600, 0x07BF, "AL"));
    v.push(default_range(0x08A0, 0x08FF, "AL"));
    v.push(default_range(0xFB50, 0xFDCF, "AL"));
    v.push(default_range(0xFDF0, 0xFDFF, "AL"));
    v.push(default_range(0xFE70, 0xFEFF, "AL"));
    v.push(default_range(0x1EE00, 0x1EEFF, "AL"));
    v.push(default_range(0x0590, 0x05FF, "R"));
    v.push(default_range(0x07C0, 0x089F, "R"));
    v.push(default_range(0xFB1D, 0xFB4F, "R"));
    v.push(default_range(0x10800, 0x10FFF, "R"));
    v.push(default_range(0x1E800, 0x1EDFF, "R"));
    v.push(default_range(0x1EF00, 0x1EFFF, "R"));
    v.push(default_range(0x20A0, 0x20CF, "ET"));
    assert forall|k: int| 0 <= k < 13 implies #[trigger] default_views(v@)[k] == bidi_defaults_spec()[k]
        && v@[k].value@.len() > 0 by {
        if k == 0 {
        } else if k == 1 {
        } else if k == 2 {
        } else if k == 3 {
        } else if k == 4 {
        } else if k == 5 {
        } else if k == 6 {
        } else if k == 7 {
        } else if k == 8 {
        } else if k == 9 {
        } else if k == 10 {
        } else if k == 11 {
        } else {
        }
    }
    assert(default_views(v@) =~= bidi_defaults_spec());
    v
}

/// The Bidi_Class table of a set of records.
pub struct BidiData {
    pub table: PropertyTable,
}

impl BidiData {
    /// Inserts the Bidi_Class of every record in order, then gives each
    /// default range's value to the code points of the range that have none.
    pub fn from_entries(data: &[UnicodeDataEntry]) -> (r: Result<BidiData, UcdError>)
        ensures
            r is Err <==> exists|i: int| 0 <= i < data@.len() && #[trigger] data@[i].bidi_class@.len() == 0,
            r is Err ==> r == Err::<BidiData, UcdError>(UcdError::MalformedPropertyValue),
            r matches Ok(b) ==> b.table.wf() && b.table@ == with_defaults(
                records_map(data@, PropertyField::BidiClass),
                bidi_defaults_spec(),
            ),
    {
        proof {
            assert forall|i: int| #![trigger data@[i]] 0 <= i < data@.len() implies field_of(
                data@[i],
                PropertyField::BidiClass,
            ) == data@[i].bidi_class@ by {}
        }
        let mut table = match PropertyTable::from_records(data, PropertyField::BidiClass) {
            Ok(t) => t,
            Err(e) => {
                return Err(e);
            },
        };
        let defaults = bidi_default_ranges();
        let ds = defaults.as_slice();
        match table.apply_defaults(ds) {
            Ok(()) => Ok(BidiData { table }),
            Err(e) => Err(e),
        }
    }

    /// The text of the table: a header line, then one line per maximal range.
    pub fn emit(&self) -> (text: String)
        requires
            self.table.wf(),
        ensures
            text@ == table_text("# Bidi_Class"@, compress_entries(self.table.entries())),
    {
        let ranges = compress(&self.table);
        emit_range_table("# Bidi_Class", ranges.as_slice())
    }
}

} // verus!
