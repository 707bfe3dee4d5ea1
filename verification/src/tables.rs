//! Tables of an engine as mathematical objects: finite maps from record keys
//! to records.
//!
//! A table is read as a list of its records in an order that is the engine's
//! own. Statements about what is read after a write hold whatever that order
//! is.
use vstd::prelude::*;

verus! {

/// What is held in a table under a key of its own.
pub trait Keyed: Sized {
    /// The key under which it is held.
    spec fn key_text(self) -> Seq<char>;
}

/// Whether a list holds every record of a table, each once.
pub open spec fn reads<R: Keyed>(records: Seq<R>, table: Map<Seq<char>, R>) -> bool {
    &&& forall|index: int|
        0 <= index < records.len() ==> table.contains_key((#[trigger] records[index]).key_text())
            && table[records[index].key_text()] == records[index]
    &&& forall|left: int, right: int|
        0 <= left < right < records.len() ==> (#[trigger] records[left]).key_text() != (
        #[trigger] records[right]).key_text()
    &&& forall|key: Seq<char>| #[trigger]
        table.contains_key(key) ==> exists|index: int|
            0 <= index < records.len() && (#[trigger] records[index]).key_text() == key
}

/// A table after a record was written: added where its key was not held, else
/// replaced.
pub open spec fn written<R: Keyed>(table: Map<Seq<char>, R>, record: R) -> Map<Seq<char>, R> {
    table.insert(record.key_text(), record)
}

/// Where a record of a table stands in a list of its records.
pub proof fn lemma_read_position<R: Keyed>(
    records: Seq<R>,
    table: Map<Seq<char>, R>,
    key: Seq<char>,
) -> (index: int)
    requires
        reads(records, table),
        table.contains_key(key),
    ensures
        0 <= index < records.len(),
        records[index] == table[key],
        records[index].key_text() == key,
{
    let index = choose|index: int|
        0 <= index < records.len() && (#[trigger] records[index]).key_text() == key;
    assert(table[records[index].key_text()] == records[index]);
    index
}

} // verus!
