//! Identifier allocation: each scope hands out consecutive blocks.
use vstd::prelude::*;

use crate::error::Error;
use crate::protocol::{FixtureScope, IdentifierBlock};
use crate::records::{RecordView, StorageRecord, record_views};
use crate::search::{first, lemma_position_absent, lemma_position_is};

verus! {

/// Whether a record is the allocator of a scope.
pub open spec fn allocates_for(record: RecordView, scope: FixtureScope) -> bool {
    record matches RecordView::Allocator { scope: owner, .. } && owner == scope
}

/// The first allocator of a scope.
pub open spec fn allocator_in(records: Seq<RecordView>, scope: FixtureScope) -> Option<RecordView> {
    first(records, |record: RecordView| allocates_for(record, scope))
}

/// The next identifier that a scope hands out: where its allocator stands, or
/// zero where it has none.
pub open spec fn cursor(records: Seq<RecordView>, scope: FixtureScope) -> u32 {
    match allocator_in(records, scope) {
        Some(record) => record->next,
        None => 0,
    }
}

/// A block that can be handed out once its allocator's record is written.
#[derive(Debug)]
pub struct Allocation {
    /// The allocator as it stands afterwards.
    pub record: StorageRecord,
    /// Whether the record is new to the table rather than replaced in it.
    pub fresh: bool,
    /// The identifiers.
    pub block: IdentifierBlock,
}

fn current_cursor(records: &Vec<StorageRecord>, scope: FixtureScope) -> (next: u32)
    ensures
        next == cursor(record_views(records@), scope),
{
    let ghost views = record_views(records@);
    let ghost wanted = |record: RecordView| allocates_for(record, scope);
    let mut index: usize = 0;
    while index < records.len()
        invariant
            index <= records@.len(),
            views == record_views(records@),
            wanted == (|record: RecordView| allocates_for(record, scope)),
            forall|i: int| 0 <= i < index ==> !wanted(#[trigger] views[i]),
        decreases records@.len() - index,
    {
        assert(views[index as int] == records@[index as int]@);
        if let StorageRecord::Allocator { scope: owner, next } = &records[index] {
            if *owner == scope {
                proof {
                    lemma_position_is(views, wanted, index as int);
                }
                return *next;
            }
        }
        index = index + 1;
    }
    proof {
        lemma_position_absent(views, wanted);
    }
    0
}

/// The block of `count` identifiers that starts where the scope's allocator
/// stands. The allocator's record is new exactly if it stands at zero. A block
/// that would run past the last number is refused.
pub fn allocate(records: &Vec<StorageRecord>, scope: FixtureScope, count: u32) -> (allocated:
    Result<Allocation, Error>)
    ensures
        ({
            let current = cursor(record_views(records@), scope);
            if current + count <= u32::MAX {
                &&& allocated matches Ok(allocation)
                &&& allocation.record@ == (RecordView::Allocator {
                    scope,
                    next: (current + count) as u32,
                })
                &&& allocation.fresh == (current == 0)
                &&& allocation.block == (IdentifierBlock { first: current, length: count })
            } else {
                &&& allocated matches Err(Error::Storage(message))
                &&& message@ == "identifier overflow"@
            }
        }),
{
    let current: u32 = current_cursor(records, scope);
    match current.checked_add(count) {
        None => Err(Error::storage("identifier overflow")),
        Some(next) => Ok(
            Allocation {
                record: StorageRecord::Allocator { scope, next },
                fresh: current == 0,
                block: IdentifierBlock { first: current, length: count },
            },
        ),
    }
}

} // verus!
