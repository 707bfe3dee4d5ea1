//! Laws of allocation: blocks of one scope follow each other without overlap.
use vstd::prelude::*;

use crate::allocator::{allocates_for, cursor};
use crate::protocol::FixtureScope;
use crate::records::{RecordView, allocator_key_text, record_keys_tell_records_apart};
use crate::search::{lemma_position, position};
use crate::tables::{Keyed, lemma_read_position, reads, written};

verus! {

/// Where the allocator of a scope stands in a table.
pub open spec fn cursor_in(table: Map<Seq<char>, RecordView>, scope: FixtureScope) -> u32 {
    if table.contains_key(allocator_key_text(scope)) {
        table[allocator_key_text(scope)]->next
    } else {
        0
    }
}

/// A scope's allocator is read where the table holds it, in whatever order the
/// table is read.
pub proof fn cursor_reads_the_table(
    records: Seq<RecordView>,
    table: Map<Seq<char>, RecordView>,
    scope: FixtureScope,
)
    requires
        reads(records, table),
    ensures
        cursor(records, scope) == cursor_in(table, scope),
{
    let wanted = |record: RecordView| allocates_for(record, scope);
    lemma_position(records, wanted);
    match position(records, wanted) {
        Some(index) => {
            assert(records[index].key_text() == allocator_key_text(scope));
        },
        None => {
            if table.contains_key(allocator_key_text(scope)) {
                let index = lemma_read_position(records, table, allocator_key_text(scope));
                record_keys_tell_records_apart(
                    records[index],
                    RecordView::Allocator { scope, next: 0 },
                );
                assert(!wanted(records[index]));
            }
        },
    }
}

/// Whether every allocator of a table has handed something out.
pub open spec fn allocators_have_moved(table: Map<Seq<char>, RecordView>) -> bool {
    forall|scope: FixtureScope|
        table.contains_key(#[trigger] allocator_key_text(scope)) ==> cursor_in(table, scope) > 0
}

/// An allocation takes the identifiers from where the scope's allocator stands
/// and moves the allocator past them. Its record is new to the table exactly if
/// the allocator stood at zero. The next block of the scope starts where this
/// one ends, and other scopes are left as they were.
pub proof fn allocation_moves_its_cursor(
    table: Map<Seq<char>, RecordView>,
    before: Seq<RecordView>,
    scope: FixtureScope,
    count: u32,
    after: Seq<RecordView>,
)
    requires
        reads(before, table),
        allocators_have_moved(table),
        count > 0,
        cursor(before, scope) + count <= u32::MAX,
        reads(
            after,
            written(
                table,
                RecordView::Allocator { scope, next: (cursor(before, scope) + count) as u32 },
            ),
        ),
    ensures
        cursor(before, scope) == 0 <==> !table.contains_key(allocator_key_text(scope)),
        cursor(after, scope) == cursor(before, scope) + count,
        forall|other: FixtureScope|
            other != scope ==> #[trigger] cursor(after, other) == cursor(before, other),
        allocators_have_moved(
            written(
                table,
                RecordView::Allocator { scope, next: (cursor(before, scope) + count) as u32 },
            ),
        ),
{
    let record = RecordView::Allocator { scope, next: (cursor(before, scope) + count) as u32 };
    let new = written(table, record);
    cursor_reads_the_table(before, table, scope);
    cursor_reads_the_table(after, new, scope);
    assert(record.key_text() == allocator_key_text(scope));
    assert forall|other: FixtureScope| other != scope implies #[trigger] cursor_in(new, other)
        == cursor_in(table, other) by {
        record_keys_tell_records_apart(record, RecordView::Allocator { scope: other, next: 0 });
        assert(RecordView::Allocator { scope: other, next: 0 }.key_text() == allocator_key_text(
            other,
        ));
    }
    assert forall|other: FixtureScope| other != scope implies #[trigger] cursor(after, other)
        == cursor(before, other) by {
        cursor_reads_the_table(before, table, other);
        cursor_reads_the_table(after, new, other);
        assert(cursor_in(new, other) == cursor_in(table, other));
    }
    assert forall|other: FixtureScope| new.contains_key(
        #[trigger] allocator_key_text(other),
    ) implies cursor_in(new, other) > 0 by {
        if other != scope {
            record_keys_tell_records_apart(record, RecordView::Allocator { scope: other, next: 0 });
            assert(RecordView::Allocator { scope: other, next: 0 }.key_text()
                == allocator_key_text(other));
            assert(cursor_in(new, other) == cursor_in(table, other));
        }
    }
}

} // verus!
