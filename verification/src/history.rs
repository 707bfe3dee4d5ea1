//! Histories: requests that are served one after another on the tables of an
//! engine.
//!
//! Only the tables carry over from one request to the next, so a history may run
//! across restarts.
use vstd::prelude::*;

use crate::allocator::cursor;
use crate::authority::{
    AuthorityWriteView, BindPlan, bind_plan, registry_in, registry_or_empty, state_in,
    state_or_empty, write_views,
};
use crate::authority_laws::committed;
use crate::dispatch::{Event, Inquiry, Stage, Step, begun, inquired, resumed};
use crate::document_laws::{
    fetch_reads_the_table, hash_fetch_reads_the_table, held, highest_held, latest_reads_the_table,
};
use crate::documents::{covers, documents_of, next_version, ranks_before, summary_of};
use crate::identity::{assignment_views, declaration_views};
use crate::identity_laws::declarations_are_turned_down_for_their_identities;
use crate::listing_laws::listing_reads_the_table;
use crate::protocol::{
    BoundIdentities, ChangeEvent, ContentHash, DocumentKey, DocumentKind, DocumentView,
    FixtureScope, Rejection, Reply, Request, SlotSummary, StoredDocument, SubscriptionIdentifier,
    Version,
};
use crate::records::{AuthorityView, RecordView, authority_views, record_views};
use crate::tables::{reads, written};

verus! {

/// What an engine holds.
pub ghost struct Tables {
    pub records: Map<Seq<char>, RecordView>,
    pub authority: Map<Seq<char>, AuthorityView>,
}

/// Whether a piece of outside work had an outcome on the tables. A read gives
/// every record, in some order. A write that succeeds is made; one that fails
/// leaves the tables as they were.
pub open spec fn performed(before: Tables, stage: Stage, event: Event, after: Tables) -> bool {
    match (stage, event) {
        (Stage::ReadRecords(_), Event::Records(Ok(records))) => {
            &&& reads(record_views(records@), before.records)
            &&& after == before
        },
        (Stage::ReadAuthority { .. }, Event::Authority(Ok(records))) => {
            &&& reads(authority_views(records@), before.authority)
            &&& after == before
        },
        (Stage::AssertDocument(document), Event::Stamped(Ok(_))) => after == (Tables {
            records: written(before.records, RecordView::Document(document@)),
            ..before
        }),
        (Stage::WriteAllocator(allocation), Event::Written(Ok(_))) => after == (Tables {
            records: written(before.records, allocation.record@),
            ..before
        }),
        (Stage::CommitAuthority(commit), Event::Written(Ok(_))) => after == (Tables {
            authority: committed(before.authority, write_views(commit.writes@)),
            ..before
        }),
        _ => after == before,
    }
}

/// One piece of outside work of a request: its outcome, the tables afterwards and
/// how the request went on.
pub ghost struct Work {
    pub event: Event,
    pub tables: Tables,
    pub step: Step,
}

/// Whether a request that stands at a step comes to its last step by pieces of
/// outside work.
pub open spec fn runs(
    before: Tables,
    step: Step,
    work: Seq<Work>,
    after: Tables,
    last: Step,
) -> bool
    decreases work.len(),
{
    if work.len() == 0 {
        after == before && last == step && !(step is Await)
    } else {
        &&& step matches Step::Await(stage)
        &&& stage.awaits(work[0].event)
        &&& performed(before, stage, work[0].event, work[0].tables)
        &&& resumed(stage, work[0].event, work[0].step)
        &&& runs(work[0].tables, work[0].step, work.skip(1), after, last)
    }
}

/// A request that was served: the work that was done for it, the tables
/// afterwards, and how it ended.
pub ghost struct Served {
    pub request: Request,
    pub work: Seq<Work>,
    pub tables: Tables,
    pub step: Step,
}

/// The tables after the first requests of a history.
pub open spec fn tables_after(start: Tables, history: Seq<Served>, count: int) -> Tables {
    if count == 0 {
        start
    } else {
        history[count - 1].tables
    }
}

/// Whether requests were served one after another, on tables that held `start` at
/// first.
pub open spec fn is_history(start: Tables, history: Seq<Served>) -> bool {
    forall|index: int|
        0 <= index < history.len() ==> runs(
            tables_after(start, history, index),
            begun((#[trigger] history[index]).request),
            history[index].work,
            history[index].tables,
            history[index].step,
        )
}

/// Whether a version is the one that the next store of a document receives.
pub open spec fn is_next_version(
    table: Map<Seq<char>, RecordView>,
    key: DocumentKey,
    version: Version,
) -> bool {
    exists|records: Seq<RecordView>| #[trigger]
        reads(records, table) && version.0 == next_version(documents_of(records), key)
}

/// Whether an identifier is the next that a scope hands out.
pub open spec fn is_cursor(
    table: Map<Seq<char>, RecordView>,
    scope: FixtureScope,
    next: u32,
) -> bool {
    exists|records: Seq<RecordView>| #[trigger]
        reads(records, table) && next == cursor(records, scope)
}

/// Whether binding a schema-whole comes to these writes and this answer.
pub open spec fn is_binding(
    table: Map<Seq<char>, AuthorityView>,
    request: Request,
    writes: Seq<AuthorityWriteView>,
    bound: BoundIdentities,
) -> bool {
    &&& request matches Request::BindIdentities { whole, declarations }
    &&& declarations@.len() > 0
    &&& exists|records: Seq<AuthorityView>| #[trigger]
        reads(records, table) && bind_plan(records, whole@, declaration_views(declarations@)) == (
        BindPlan::Commit {
            writes,
            universe: bound.universe.0,
            assignments: assignment_views(bound.assignments@),
        })
}

/// Whether a request is to be turned down for a reason: a store for a kind that is
/// not the payload's or for an invalid payload, an allocation for a count of zero,
/// a binding for an empty set or for a declaration that is turned down.
pub open spec fn is_turned_down(
    table: Map<Seq<char>, AuthorityView>,
    request: Request,
    rejection: Rejection,
) -> bool {
    match request {
        Request::Store { key, payload } => if key.kind != payload.kind {
            rejection == Rejection::InvalidKind
        } else {
            rejection is InvalidDocument
        },
        Request::AllocateIdentifiers { count, .. } => count == 0 && rejection
            == Rejection::CountZero,
        Request::BindIdentities { whole, declarations } => if declarations@.len() == 0 {
            rejection == Rejection::EmptyDeclarationSet
        } else {
            exists|records: Seq<AuthorityView>| #[trigger]
                reads(records, table) && bind_plan(
                    records,
                    whole@,
                    declaration_views(declarations@),
                ) == BindPlan::Rejected(rejection)
        },
        _ => false,
    }
}

/// Whether a document is what a fetch finds in a table: the version that was asked
/// for, or the highest.
pub open spec fn is_found(
    table: Map<Seq<char>, RecordView>,
    key: DocumentKey,
    version: Option<Version>,
    found: Option<StoredDocument>,
) -> bool {
    match (version, found) {
        (Some(exact), Some(document)) => held(table, key, exact) == Some(document@),
        (Some(exact), None) => held(table, key, exact) is None,
        (None, Some(document)) => document.key == key && highest_held(table, document@),
        (None, None) => forall|any: Version| #[trigger] held(table, key, any) is None,
    }
}

/// Whether a document is one that a fetch by content hash may find in a table.
pub open spec fn is_found_by_hash(
    table: Map<Seq<char>, RecordView>,
    hash: ContentHash,
    found: Option<StoredDocument>,
) -> bool {
    match found {
        Some(document) => document.hash == hash && held(table, document.key, document.version)
            == Some(document@),
        None => forall|key: DocumentKey, version: Version|
            (#[trigger] held(table, key, version)) matches Some(document) ==> document.hash != hash,
    }
}

/// Whether values are the listing of a table: a summary of each covered version
/// that it holds and nothing else, strictly ordered by kind, slot and version.
pub open spec fn lists(
    table: Map<Seq<char>, RecordView>,
    scope: FixtureScope,
    kind: Option<DocumentKind>,
    values: Seq<SlotSummary>,
) -> bool {
    &&& forall|summary: SlotSummary| #[trigger]
        values.contains(summary) <==> {
            &&& covers(scope, kind, summary.key)
            &&& held(table, summary.key, summary.version) matches Some(document)
            &&& summary_of(document) == summary
        }
    &&& forall|p: int, q: int|
        0 <= p < q < values.len() ==> ranks_before(#[trigger] values[p], #[trigger] values[q])
}

/// Whether the end of a request fits its effect on the tables: which answers the
/// request may have, what each tells of the tables before, and what it tells of the
/// tables after. Only a document that is stored, a block that is allocated and a
/// schema-whole that is bound change a table. Subscribers are told of a change
/// exactly if a document is stored, and of the same version as the client.
pub open spec fn is_answered(before: Tables, request: Request, after: Tables, last: Step) -> bool {
    match last {
        Step::Done { reply: Reply::Stored(summary), change } => {
            &&& request matches Request::Store { key, payload }
            &&& key.kind == payload.kind
            &&& change matches Some(told)
            &&& told.subscription == SubscriptionIdentifier(0)
            &&& told.document == summary
            &&& summary.key == key
            &&& is_next_version(before.records, key, summary.version)
            &&& after == (Tables {
                records: written(
                    before.records,
                    RecordView::Document(
                        DocumentView {
                            key,
                            version: summary.version,
                            hash: summary.hash,
                            payload: payload@,
                        },
                    ),
                ),
                ..before
            })
        },
        Step::Done { reply: Reply::IdentifiersAllocated(block), change } => {
            &&& change is None
            &&& request matches Request::AllocateIdentifiers { scope, count }
            &&& count > 0
            &&& block.length == count
            &&& block.first + count <= u32::MAX
            &&& is_cursor(before.records, scope, block.first)
            &&& after == (Tables {
                records: written(
                    before.records,
                    RecordView::Allocator { scope, next: (block.first + count) as u32 },
                ),
                ..before
            })
        },
        Step::Done { reply: Reply::IdentitiesBound(bound), change } => {
            &&& change is None
            &&& after.records == before.records
            &&& exists|writes: Seq<AuthorityWriteView>|
                is_binding(before.authority, request, writes, bound) && after.authority
                    == #[trigger] committed(before.authority, writes)
        },
        Step::Done { reply: Reply::Document(found), change } => {
            &&& change is None
            &&& after == before
            &&& match request {
                Request::Fetch { key, version } => is_found(before.records, key, version, found),
                Request::HashFetch { hash } => is_found_by_hash(before.records, hash, found),
                _ => false,
            }
        },
        Step::Done { reply: Reply::Listed(values), change } => {
            &&& change is None
            &&& after == before
            &&& request matches Request::List { scope, kind }
            &&& lists(before.records, scope, kind, values@)
        },
        Step::Done { reply: Reply::Subscribed { identifier, initial }, change } => {
            &&& change is None
            &&& identifier == SubscriptionIdentifier(0)
            &&& after == before
            &&& request matches Request::Subscribe { scope, kind }
            &&& lists(before.records, scope, kind, initial@)
        },
        Step::Done { reply: Reply::Snapshotted(_), change } => {
            &&& change is None
            &&& after == before
            &&& request is Snapshot
        },
        Step::Done { reply: Reply::Rejected(rejection), change } => {
            &&& change is None
            &&& after == before
            &&& is_turned_down(before.authority, request, rejection)
        },
        Step::Done { reply: Reply::Event(_), .. } => false,
        Step::Failed(error) => after == before && error is Storage,
        Step::Await(_) => false,
    }
}

/// Whether a request has come to a stage without having changed the tables.
spec fn is_pending(tables: Tables, request: Request, stage: Stage) -> bool {
    match stage {
        Stage::Validate { key, payload } => request == (Request::Store { key, payload })
            && key.kind == payload.kind,
        Stage::ReadRecords(inquiry) => match inquiry {
            Inquiry::Store { key, payload } => request == (Request::Store { key, payload })
                && key.kind == payload.kind,
            Inquiry::Fetch { key, version } => request == (Request::Fetch { key, version }),
            Inquiry::List { scope, kind } => request == (Request::List { scope, kind }),
            Inquiry::HashFetch { hash } => request == (Request::HashFetch { hash }),
            Inquiry::Subscribe { scope, kind } => request == (Request::Subscribe { scope, kind }),
            Inquiry::Allocate { scope, count } => request == (Request::AllocateIdentifiers {
                scope,
                count,
            }) && count > 0,
        },
        Stage::HashPayload { key, version, payload } => request == (Request::Store {
            key,
            payload,
        }) && key.kind == payload.kind && is_next_version(tables.records, key, version),
        Stage::AssertDocument(document) => {
            &&& request matches Request::Store { key, payload }
            &&& key.kind == payload.kind
            &&& document.key == key
            &&& document.payload == payload
            &&& is_next_version(tables.records, key, document.version)
        },
        Stage::WriteAllocator(allocation) => {
            &&& request matches Request::AllocateIdentifiers { scope, count }
            &&& count > 0
            &&& allocation.block.first + count <= u32::MAX
            &&& allocation.block.length == count
            &&& is_cursor(tables.records, scope, allocation.block.first)
            &&& allocation.record@ == (RecordView::Allocator {
                scope,
                next: (allocation.block.first + count) as u32,
            })
        },
        Stage::TakeSnapshot => request is Snapshot,
        Stage::ReadAuthority { whole, declarations } => request == (Request::BindIdentities {
            whole,
            declarations,
        }) && declarations@.len() > 0,
        Stage::CommitAuthority(commit) => is_binding(
            tables.authority,
            request,
            write_views(commit.writes@),
            commit.bound,
        ),
    }
}

/// Whether a piece of work has taken a request either to another stage, with the
/// tables unchanged, or to its end.
spec fn has_gone_on(before: Tables, request: Request, work: Work) -> bool {
    match work.step {
        Step::Await(next) => work.tables == before && is_pending(before, request, next),
        _ => is_answered(before, request, work.tables, work.step),
    }
}

/// How a request goes on once the document table was read.
proof fn lemma_inquiry(
    before: Tables,
    request: Request,
    inquiry: Inquiry,
    views: Seq<RecordView>,
    work: Work,
)
    requires
        is_pending(before, request, Stage::ReadRecords(inquiry)),
        reads(views, before.records),
        work.tables == before,
        inquired(inquiry, views, work.step),
    ensures
        has_gone_on(before, request, work),
{
    match inquiry {
        Inquiry::Store { key, .. } => {
            assert(is_next_version(
                before.records,
                key,
                work.step->Await_0->HashPayload_version,
            ));
        },
        Inquiry::Fetch { key, version } => match version {
            Some(exact) => {
                fetch_reads_the_table(views, before.records, key, exact);
            },
            None => {
                latest_reads_the_table(views, before.records, key);
            },
        },
        Inquiry::List { scope, kind } => {
            let values = work.step->reply->Listed_0@;
            listing_reads_the_table(views, before.records, scope, kind, values);
        },
        Inquiry::HashFetch { hash } => {
            hash_fetch_reads_the_table(views, before.records, hash);
        },
        Inquiry::Subscribe { scope, kind } => {
            let values = work.step->reply->initial@;
            listing_reads_the_table(views, before.records, scope, kind, values);
        },
        Inquiry::Allocate { scope, .. } => {
            assert(is_cursor(before.records, scope, cursor(views, scope)));
        },
    }
}

/// How a request goes on after one piece of work.
proof fn lemma_work(before: Tables, request: Request, stage: Stage, work: Work)
    requires
        is_pending(before, request, stage),
        performed(before, stage, work.event, work.tables),
        resumed(stage, work.event, work.step),
    ensures
        has_gone_on(before, request, work),
{
    match (stage, work.event) {
        (Stage::ReadRecords(inquiry), Event::Records(Ok(records))) => {
            lemma_inquiry(before, request, inquiry, record_views(records@), work);
        },
        (Stage::ReadAuthority { whole, declarations }, Event::Authority(Ok(records))) => {
            let views = authority_views(records@);
            assert(reads(views, before.authority));
            match work.step {
                Step::Await(next) => {
                    let commit = next->CommitAuthority_0;
                    assert(bind_plan(views, whole@, declaration_views(declarations@)) == (
                    BindPlan::Commit {
                        writes: write_views(commit.writes@),
                        universe: commit.bound.universe.0,
                        assignments: assignment_views(commit.bound.assignments@),
                    }));
                },
                _ => {},
            }
        },
        (Stage::CommitAuthority(commit), Event::Written(Ok(_))) => {
            let writes = write_views(commit.writes@);
            assert(is_binding(before.authority, request, writes, commit.bound));
        },
        _ => {},
    }
}

/// A request that has changed nothing yet ends as its effect on the tables has it.
proof fn lemma_run(
    before: Tables,
    request: Request,
    stage: Stage,
    work: Seq<Work>,
    after: Tables,
    last: Step,
)
    requires
        is_pending(before, request, stage),
        runs(before, Step::Await(stage), work, after, last),
    ensures
        is_answered(before, request, after, last),
    decreases work.len(),
{
    reveal_with_fuel(runs, 2);
    lemma_work(before, request, stage, work[0]);
    match work[0].step {
        Step::Await(next) => {
            lemma_run(before, request, next, work.skip(1), after, last);
        },
        _ => {},
    }
}

/// A request that is served ends with an answer that fits its effect on the
/// tables: whatever it was answered, what the answer tells is what the tables
/// held, and what was written is what the answer tells.
pub proof fn answers_fit_the_tables(
    before: Tables,
    request: Request,
    work: Seq<Work>,
    after: Tables,
    last: Step,
)
    requires
        runs(before, begun(request), work, after, last),
    ensures
        is_answered(before, request, after, last),
{
    match begun(request) {
        Step::Await(stage) => {
            lemma_run(before, request, stage, work, after, last);
        },
        _ => {},
    }
}

/// An answer carries what the outside work brought. A stored document has the hash
/// that was computed, and its change the snapshot that the write was stamped with.
/// A snapshot is the one that was taken, and a violation the one that was found.
pub proof fn answers_carry_what_the_work_brought(
    before: Tables,
    request: Request,
    work: Seq<Work>,
    after: Tables,
    reply: Reply,
    change: Option<ChangeEvent>,
)
    requires
        runs(before, begun(request), work, after, Step::Done { reply, change }),
    ensures
        reply matches Reply::Stored(summary) ==> (change matches Some(told) && {
            &&& work.len() == 4
            &&& work[0].event matches Event::Validated(Ok(_))
            &&& work[2].event == Event::Hashed(Ok(summary.hash))
            &&& work[3].event == Event::Stamped(Ok(told.snapshot))
        }),
        reply matches Reply::Snapshotted(snapshot) ==> {
            &&& work.len() == 1
            &&& work[0].event == Event::Stamped(Ok(snapshot))
        },
        reply matches Reply::Rejected(Rejection::InvalidDocument(violation)) ==> {
            &&& work.len() == 1
            &&& work[0].event == Event::Validated(Err(violation))
        },
{
    reveal_with_fuel(runs, 5);
    answers_fit_the_tables(before, request, work, after, Step::Done { reply, change });
    match request {
        Request::BindIdentities { whole, declarations } => {
            assert forall|records: Seq<AuthorityView>| #[trigger]
                reads(records, before.authority) implies {
                bind_plan(records, whole@, declaration_views(declarations@)) matches
                BindPlan::Rejected(rejection) ==> !(rejection is InvalidDocument)
            } by {
                let universe = registry_or_empty(registry_in(records)).resolve(whole@)->0.universe;
                declarations_are_turned_down_for_their_identities(
                    state_or_empty(state_in(records, universe), universe),
                    declaration_views(declarations@),
                );
            }
        },
        _ => {},
    }
}

} // verus!
