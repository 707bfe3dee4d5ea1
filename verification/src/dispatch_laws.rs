//! Laws of requests as a whole: what one request gives back of another.
use vstd::prelude::*;

use crate::allocator::Allocation;
use crate::allocator_laws::{allocation_moves_its_cursor, allocators_have_moved};
use crate::authority::{BindCommit, write_views};
use crate::authority_laws::{
    authority_is_sound, binding_keeps_every_identity, committed,
    rebinding_receives_identical_identities,
};
use crate::dispatch::{Event, Inquiry, Stage, Step, begun, resumed};
use crate::document_laws::store_then_fetch;
use crate::documents::{documents_of, next_version};
use crate::identity::{assignment_views, declaration_views};
use crate::identity_laws::all_mint_or_bind;
use crate::listing_laws::listing_is_determined;
use crate::protocol::{
    BindOutcome, ContentHash, DeclaredIdentity, DocumentKey, DocumentKind, DocumentPayload,
    DocumentView, FixtureScope, Rejection, Reply, Request, SchemaWholeHandle, StoredDocument,
    Version,
};
use crate::records::{
    AuthorityRecord, AuthorityView, RecordView, StorageRecord, authority_views, record_views,
};
use crate::tables::{reads, written};

verus! {

/// A request that is turned down has written nothing.
pub proof fn rejected_requests_write_nothing(
    stage: Stage,
    event: Event,
    step: Step,
    rejection: Rejection,
)
    requires
        resumed(stage, event, step),
        step matches Step::Done { reply, .. } && reply == Reply::Rejected(rejection),
    ensures
        !stage.writes(),
{
}

/// Nothing is awaited after a write: a request writes at most once, at its end.
pub proof fn requests_write_once_and_last(stage: Stage, event: Event, step: Step)
    requires
        resumed(stage, event, step),
        stage.writes(),
    ensures
        !(step is Await),
{
}

/// Subscribers are told of a change exactly when a document was stored, and they
/// are told what the client is answered.
pub proof fn changes_are_told_exactly_of_stored_documents(stage: Stage, event: Event, step: Step)
    requires
        resumed(stage, event, step),
        step is Done,
    ensures
        (step->change) is Some <==> stage is AssertDocument,
        step->change matches Some(change) ==> step->reply == Reply::Stored(change.document),
{
}

/// A request that a client may make awaits at most four pieces of work, and each
/// piece brings it nearer to its end.
pub proof fn requests_come_to_an_end(request: Request, stage: Stage, event: Event, step: Step)
    requires
        resumed(stage, event, step),
    ensures
        begun(request) matches Step::Await(first) ==> first.work_left() <= 4,
        step matches Step::Await(next) ==> next.work_left() < stage.work_left(),
{
}

/// A fetch gives back what a store wrote: the payload, its hash and the version
/// that followed the latest one, both when the latest version is asked for and
/// when that version is.
pub proof fn a_fetch_gives_back_what_a_store_wrote(
    table: Map<Seq<char>, RecordView>,
    before: Vec<StorageRecord>,
    key: DocumentKey,
    payload: DocumentPayload,
    hash: ContentHash,
    hashing: Stage,
    document: StoredDocument,
    after: Vec<StorageRecord>,
    latest_step: Step,
    version_step: Step,
)
    requires
        reads(record_views(before@), table),
        resumed(
            Stage::ReadRecords(Inquiry::Store { key, payload }),
            Event::Records(Ok(before)),
            Step::Await(hashing),
        ),
        resumed(hashing, Event::Hashed(Ok(hash)), Step::Await(Stage::AssertDocument(document))),
        reads(record_views(after@), written(table, RecordView::Document(document@))),
        resumed(
            Stage::ReadRecords(Inquiry::Fetch { key, version: None }),
            Event::Records(Ok(after)),
            latest_step,
        ),
        resumed(
            Stage::ReadRecords(Inquiry::Fetch { key, version: Some(document.version) }),
            Event::Records(Ok(after)),
            version_step,
        ),
    ensures
        document@ == (DocumentView {
            key,
            version: Version(next_version(documents_of(record_views(before@)), key) as u64),
            hash,
            payload: payload@,
        }),
        latest_step matches Step::Done { reply: Reply::Document(Some(found)), .. } && found@
            == document@,
        version_step matches Step::Done { reply: Reply::Document(Some(found)), .. } && found@
            == document@,
{
    store_then_fetch(table, record_views(before@), document@, record_views(after@));
}

/// A subscription starts from what a listing of the same scope and kind is
/// answered.
pub proof fn a_subscription_starts_from_the_listing(
    scope: FixtureScope,
    kind: Option<DocumentKind>,
    records: Vec<StorageRecord>,
    listed: Step,
    subscribed: Step,
)
    requires
        resumed(
            Stage::ReadRecords(Inquiry::List { scope, kind }),
            Event::Records(Ok(records)),
            listed,
        ),
        resumed(
            Stage::ReadRecords(Inquiry::Subscribe { scope, kind }),
            Event::Records(Ok(records)),
            subscribed,
        ),
    ensures
        listed matches Step::Done { reply: Reply::Listed(values), .. } && (
        subscribed matches Step::Done { reply: Reply::Subscribed { initial, .. }, .. } && initial@
            == values@),
{
    listing_is_determined(
        documents_of(record_views(records@)),
        scope,
        kind,
        listed->reply->Listed_0@,
        subscribed->reply->initial@,
    );
}

/// Blocks of one scope follow each other: the second of two allocations starts
/// where the first ends, so they share no identifier.
pub proof fn blocks_of_a_scope_never_overlap(
    table: Map<Seq<char>, RecordView>,
    scope: FixtureScope,
    before: Vec<StorageRecord>,
    count: u32,
    first: Allocation,
    after: Vec<StorageRecord>,
    later_count: u32,
    second: Allocation,
)
    requires
        reads(record_views(before@), table),
        allocators_have_moved(table),
        count > 0,
        resumed(
            Stage::ReadRecords(Inquiry::Allocate { scope, count }),
            Event::Records(Ok(before)),
            Step::Await(Stage::WriteAllocator(first)),
        ),
        reads(record_views(after@), written(table, first.record@)),
        resumed(
            Stage::ReadRecords(Inquiry::Allocate { scope, count: later_count }),
            Event::Records(Ok(after)),
            Step::Await(Stage::WriteAllocator(second)),
        ),
    ensures
        first.block.length == count,
        second.block.first == first.block.first + first.block.length,
        second.block.length == later_count,
{
    allocation_moves_its_cursor(
        table,
        record_views(before@),
        scope,
        count,
        record_views(after@),
    );
}

/// A schema-whole that is bound again, when only the table has survived, is
/// answered with the same universe, and every key that both requests declare
/// with the same identity, as bound.
pub proof fn a_rebound_whole_is_answered_alike(
    table: Map<Seq<char>, AuthorityView>,
    whole: SchemaWholeHandle,
    records: Vec<AuthorityRecord>,
    declarations: Vec<DeclaredIdentity>,
    first: BindCommit,
    later_whole: SchemaWholeHandle,
    later_records: Vec<AuthorityRecord>,
    later_declarations: Vec<DeclaredIdentity>,
    second: BindCommit,
)
    requires
        reads(authority_views(records@), table),
        authority_is_sound(table),
        all_mint_or_bind(declaration_views(declarations@)),
        resumed(
            Stage::ReadAuthority { whole, declarations },
            Event::Authority(Ok(records)),
            Step::Await(Stage::CommitAuthority(first)),
        ),
        later_whole@ == whole@,
        reads(authority_views(later_records@), committed(table, write_views(first.writes@))),
        all_mint_or_bind(declaration_views(later_declarations@)),
        resumed(
            Stage::ReadAuthority { whole: later_whole, declarations: later_declarations },
            Event::Authority(Ok(later_records)),
            Step::Await(Stage::CommitAuthority(second)),
        ),
    ensures
        second.bound.universe == first.bound.universe,
        forall|later: int, earlier: int|
            0 <= later < later_declarations@.len() && 0 <= earlier < declarations@.len() && (
            #[trigger] later_declarations@[later]).key@ == (
            #[trigger] declarations@[earlier]).key@ ==> {
                &&& second.bound.assignments@[later].identity
                    == first.bound.assignments@[earlier].identity
                &&& second.bound.assignments@[later].outcome == BindOutcome::Bound
            },
{
    let declared = declaration_views(declarations@);
    let later_declared = declaration_views(later_declarations@);
    let assigned = assignment_views(first.bound.assignments@);
    let later_assigned = assignment_views(second.bound.assignments@);
    rebinding_receives_identical_identities(
        table,
        authority_views(records@),
        whole@,
        declared,
        write_views(first.writes@),
        first.bound.universe.0,
        assigned,
        authority_views(later_records@),
        later_declared,
    );
    binding_keeps_every_identity(
        table,
        authority_views(records@),
        whole@,
        declared,
        write_views(first.writes@),
        first.bound.universe.0,
        assigned,
    );
    assert forall|later: int, earlier: int|
        0 <= later < later_declarations@.len() && 0 <= earlier < declarations@.len() && (
        #[trigger] later_declarations@[later]).key@ == (
        #[trigger] declarations@[earlier]).key@ implies {
        &&& second.bound.assignments@[later].identity == first.bound.assignments@[earlier].identity
        &&& second.bound.assignments@[later].outcome == BindOutcome::Bound
    } by {
        assert(later_declared[later].key == later_declarations@[later].key@);
        assert(declared[earlier].key == declarations@[earlier].key@);
        assert(later_assigned[later] == second.bound.assignments@[later]@);
        assert(assigned[earlier] == first.bound.assignments@[earlier]@);
    }
}

} // verus!
