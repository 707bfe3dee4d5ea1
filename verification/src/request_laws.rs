//! Laws of requests from their beginning to their end, told by what was read, by
//! what is to be written and by the answer.
use vstd::prelude::*;

use crate::allocator::{allocates_for, cursor};
use crate::dispatch::{Event, Inquiry, Stage, Step, begin, resume};
use crate::documents::{
    covers, documents_of, is_covered, is_listing, is_listing_order, latest_at,
    lemma_document_is_record, lemma_latest_is, lemma_latest_present, lemma_record_is_document,
    next_version, stands_before, summaries, summary_of,
};
use crate::error::Error;
use crate::protocol::{
    ChangeEvent, ContentHash, DocumentKey, DocumentKind, DocumentPayload, DocumentView,
    DocumentViolation, FixtureScope, Rejection, Reply, Request, SlotSummary, Snapshot,
    StoredDocument, SubscriptionIdentifier, Version,
};
use crate::records::{RecordView, StorageRecord, record_views, tag_of};
use crate::search::{lemma_position, position};

verus! {

/// Whether a document has the content of another, field by field.
pub open spec fn same_document(left: StoredDocument, right: StoredDocument) -> bool {
    &&& left.key == right.key
    &&& left.version == right.version
    &&& left.hash == right.hash
    &&& left.payload.kind == right.payload.kind
    &&& left.payload.body@ == right.payload.body@
}

/// The place among records of the document that is `index`-th among their
/// documents.
spec fn place_of(records: Seq<RecordView>, index: int) -> int
    decreases records.len(),
{
    if records.len() == 0 {
        0
    } else if records.last() is Document && index == documents_of(records.drop_last()).len() {
        records.len() - 1
    } else {
        place_of(records.drop_last(), index)
    }
}

proof fn lemma_place_of(records: Seq<RecordView>, index: int)
    requires
        0 <= index < documents_of(records).len(),
    ensures
        0 <= place_of(records, index) < records.len(),
        records[place_of(records, index)] == RecordView::Document(documents_of(records)[index]),
    decreases records.len(),
{
    if records.len() > 0 && !(records.last() is Document && index == documents_of(
        records.drop_last(),
    ).len()) {
        lemma_place_of(records.drop_last(), index);
    }
}

proof fn lemma_places_ascend(records: Seq<RecordView>, left: int, right: int)
    requires
        0 <= left < right < documents_of(records).len(),
    ensures
        place_of(records, left) < place_of(records, right),
    decreases records.len(),
{
    let rest = records.drop_last();
    if right < documents_of(rest).len() {
        lemma_places_ascend(rest, left, right);
    } else {
        lemma_place_of(rest, left);
    }
}

proof fn lemma_place_is_reached(records: Seq<RecordView>, place: int) -> (index: int)
    requires
        0 <= place < records.len(),
        records[place] is Document,
    ensures
        0 <= index < documents_of(records).len(),
        place_of(records, index) == place,
        documents_of(records)[index] == records[place]->Document_0,
    decreases records.len(),
{
    let rest = records.drop_last();
    if place < rest.len() {
        let index = lemma_place_is_reached(rest, place);
        assert(documents_of(records)[index] == documents_of(rest)[index]);
        index
    } else {
        documents_of(rest).len() as int
    }
}

/// Whatever fails outside fails the request, with the message of the failure.
pub proof fn outside_failures_fail_the_request(
    stage: Stage,
    event: Event,
    message: String,
    step: Step,
)
    requires
        call_ensures(resume, (stage, event), step),
        event == Event::Records(Err(message)) || event == Event::Hashed(Err(message)) || event
            == Event::Stamped(Err(message)) || event == Event::Written(Err(message)) || event
            == Event::Authority(Err(message)),
    ensures
        step == Step::Failed(Error::Storage(message)),
{
}

/// A store whose kind is not its payload's is turned down before any work.
pub proof fn a_store_of_another_kind_is_turned_down(
    key: DocumentKey,
    payload: DocumentPayload,
    first: Step,
)
    requires
        call_ensures(begin, (Request::Store { key, payload },), first),
    ensures
        first == (Step::Done { reply: Reply::Rejected(Rejection::InvalidKind), change: None })
            <==> key.kind != payload.kind,
        key.kind == payload.kind ==> first is Await,
{
}

/// A store whose payload is invalid is turned down with what is wrong with it.
pub proof fn a_store_of_an_invalid_payload_is_turned_down(
    key: DocumentKey,
    payload: DocumentPayload,
    violation: DocumentViolation,
    first: Step,
    last: Step,
)
    requires
        key.kind == payload.kind,
        call_ensures(begin, (Request::Store { key, payload },), first),
        first matches Step::Await(stage) ==> call_ensures(
            resume,
            (stage, Event::Validated(Err(violation))),
            last,
        ),
    ensures
        last == (Step::Done {
            reply: Reply::Rejected(Rejection::InvalidDocument(violation)),
            change: None,
        }),
{
}

/// A store whose kind is its payload's, and all of whose work succeeds, is answered
/// as stored, whatever its scope, kind and slot. What is written is the payload
/// under the key and the computed hash, with a version that is one more than the
/// highest that was read of the document, or one. Client and subscribers are told
/// the key, the version and the hash that were written, and subscribers the
/// snapshot of the write.
pub proof fn a_valid_store_is_answered_as_stored(
    key: DocumentKey,
    payload: DocumentPayload,
    records: Vec<StorageRecord>,
    hash: ContentHash,
    snapshot: Snapshot,
    first: Step,
    second: Step,
    third: Step,
    fourth: Step,
    last: Step,
)
    requires
        key.kind == payload.kind,
        call_ensures(begin, (Request::Store { key, payload },), first),
        first matches Step::Await(stage) ==> call_ensures(
            resume,
            (stage, Event::Validated(Ok(()))),
            second,
        ),
        second matches Step::Await(stage) ==> call_ensures(
            resume,
            (stage, Event::Records(Ok(records))),
            third,
        ),
        third matches Step::Await(stage) ==> call_ensures(
            resume,
            (stage, Event::Hashed(Ok(hash))),
            fourth,
        ),
        fourth matches Step::Await(stage) ==> call_ensures(
            resume,
            (stage, Event::Stamped(Ok(snapshot))),
            last,
        ),
    ensures
        first matches Step::Await(Stage::Validate { payload: checked, .. }) && checked == payload,
        second matches Step::Await(Stage::ReadRecords(_)),
        third matches Step::Await(Stage::HashPayload { payload: hashed, .. }) && hashed == payload,
        fourth matches Step::Await(Stage::AssertDocument(document)) && {
            &&& document.key == key
            &&& document.hash == hash
            &&& document.payload == payload
            &&& forall|place: int|
                0 <= place < records@.len() ==> ((#[trigger] records@[place]) matches
                StorageRecord::Document(held) ==> (held.key == key ==> held.version.0
                    < document.version.0))
            &&& document.version.0 == 1 || exists|place: int|
                0 <= place < records@.len() && ((#[trigger] records@[place]) matches
                StorageRecord::Document(held) && held.key == key && held.version.0 + 1
                    == document.version.0)
            &&& document.version.0 >= 1
            &&& last == (Step::Done {
                reply: Reply::Stored(SlotSummary { key, version: document.version, hash }),
                change: Some(
                    ChangeEvent {
                        subscription: SubscriptionIdentifier(0),
                        snapshot,
                        document: SlotSummary { key, version: document.version, hash },
                    },
                ),
            })
        },
{
    let views = record_views(records@);
    let documents = documents_of(views);
    let document = fourth->Await_0->AssertDocument_0;
    assert forall|place: int| 0 <= place < records@.len() implies ((#[trigger] records@[place])
        matches StorageRecord::Document(held) ==> (held.key == key ==> held.version.0
        < document.version.0)) by {
        assert(views[place] == records@[place]@);
        if records@[place] is Document && records@[place]->Document_0.key == key {
            let index = lemma_place_is_reached(views, place);
            lemma_latest_present(documents, key, index);
            let chosen = choose|i: int| latest_at(documents, key, i);
            lemma_latest_is(documents, key, chosen);
            assert(documents[index].key == key);
        }
    }
    if document.version.0 != 1 {
        if exists|i: int| latest_at(documents, key, i) {
            let chosen = choose|i: int| latest_at(documents, key, i);
            lemma_latest_is(documents, key, chosen);
            lemma_place_of(views, chosen);
            let place = place_of(views, chosen);
            assert(views[place] == records@[place]@);
            assert(records@[place] is Document);
        }
    }
}

/// A fetch of a version is answered with the first document that was read under its
/// key and version, whole and unchanged, and with nothing exactly if none was read.
pub proof fn a_fetch_of_a_version_gives_that_version(
    key: DocumentKey,
    version: Version,
    records: Vec<StorageRecord>,
    first: Step,
    last: Step,
)
    requires
        call_ensures(begin, (Request::Fetch { key, version: Some(version) },), first),
        first matches Step::Await(stage) ==> call_ensures(
            resume,
            (stage, Event::Records(Ok(records))),
            last,
        ),
    ensures
        last matches Step::Done { reply: Reply::Document(found), change: None } && match found {
            Some(document) => exists|place: int|
                0 <= place < records@.len() && ((#[trigger] records@[place]) matches
                StorageRecord::Document(held) && same_document(document, held) && held.key == key
                    && held.version == version) && forall|earlier: int|
                    0 <= earlier < place ==> ((#[trigger] records@[earlier]) matches
                    StorageRecord::Document(other) ==> !(other.key == key && other.version
                        == version)),
            None => forall|place: int|
                0 <= place < records@.len() ==> ((#[trigger] records@[place]) matches
                StorageRecord::Document(held) ==> !(held.key == key && held.version == version)),
        },
{
    let views = record_views(records@);
    let documents = documents_of(views);
    let wanted = |document: DocumentView| document.key == key && document.version == version;
    lemma_position(documents, wanted);
    match position(documents, wanted) {
        Some(index) => {
            lemma_place_of(views, index);
            let place = place_of(views, index);
            assert(views[place] == records@[place]@);
            assert forall|earlier: int| 0 <= earlier < place implies ((
            #[trigger] records@[earlier]) matches StorageRecord::Document(other) ==> !(other.key
                == key && other.version == version)) by {
                assert(views[earlier] == records@[earlier]@);
                if records@[earlier] is Document {
                    let before = lemma_place_is_reached(views, earlier);
                    if before > index {
                        lemma_places_ascend(views, index, before);
                    }
                    assert(!wanted(documents[before]));
                }
            }
            assert(records@[place] is Document);
        },
        None => {
            assert forall|place: int| 0 <= place < records@.len() implies ((
            #[trigger] records@[place]) matches StorageRecord::Document(held) ==> !(held.key == key
                && held.version == version)) by {
                assert(views[place] == records@[place]@);
                if records@[place] is Document {
                    let index = lemma_place_is_reached(views, place);
                    assert(!wanted(documents[index]));
                }
            }
        },
    }
}

/// A fetch without a version is answered with the document that has the highest
/// version of those that were read under its key, the last of them if several have
/// it, and with nothing exactly if none was read.
pub proof fn a_fetch_of_the_latest_gives_the_highest_version(
    key: DocumentKey,
    records: Vec<StorageRecord>,
    first: Step,
    last: Step,
)
    requires
        call_ensures(begin, (Request::Fetch { key, version: None },), first),
        first matches Step::Await(stage) ==> call_ensures(
            resume,
            (stage, Event::Records(Ok(records))),
            last,
        ),
    ensures
        last matches Step::Done { reply: Reply::Document(found), change: None } && match found {
            Some(document) => exists|place: int|
                0 <= place < records@.len() && ((#[trigger] records@[place]) matches
                StorageRecord::Document(held) && same_document(document, held) && held.key == key)
                    && forall|other: int|
                    0 <= other < records@.len() ==> ((#[trigger] records@[other]) matches
                    StorageRecord::Document(one) ==> (one.key == key ==> one.version.0
                        < document.version.0 || (one.version == document.version && other
                        <= place))),
            None => forall|place: int|
                0 <= place < records@.len() ==> ((#[trigger] records@[place]) matches
                StorageRecord::Document(held) ==> held.key != key),
        },
{
    let views = record_views(records@);
    let documents = documents_of(views);
    if exists|i: int| latest_at(documents, key, i) {
        let chosen = choose|i: int| latest_at(documents, key, i);
        lemma_latest_is(documents, key, chosen);
        lemma_place_of(views, chosen);
        let place = place_of(views, chosen);
        assert(views[place] == records@[place]@);
        assert forall|other: int| 0 <= other < records@.len() implies ((
        #[trigger] records@[other]) matches StorageRecord::Document(one) ==> (one.key == key
            ==> one.version.0 < documents[chosen].version.0 || (one.version
            == documents[chosen].version && other <= place))) by {
            assert(views[other] == records@[other]@);
            if records@[other] is Document {
                let index = lemma_place_is_reached(views, other);
                assert(documents[index].key == records@[other]->Document_0.key);
                if index < chosen {
                    lemma_places_ascend(views, index, chosen);
                }
            }
        }
        assert(records@[place] is Document);
    } else {
        assert forall|place: int| 0 <= place < records@.len() implies ((
        #[trigger] records@[place]) matches StorageRecord::Document(held) ==> held.key != key) by {
            assert(views[place] == records@[place]@);
            if records@[place] is Document && records@[place]->Document_0.key == key {
                let index = lemma_place_is_reached(views, place);
                lemma_latest_present(documents, key, index);
            }
        }
    }
}

/// A fetch by content hash is answered with the first document that was read with
/// that hash, whole and unchanged, and with nothing exactly if none was read.
pub proof fn a_fetch_by_hash_gives_a_document_with_that_hash(
    hash: ContentHash,
    records: Vec<StorageRecord>,
    first: Step,
    last: Step,
)
    requires
        call_ensures(begin, (Request::HashFetch { hash },), first),
        first matches Step::Await(stage) ==> call_ensures(
            resume,
            (stage, Event::Records(Ok(records))),
            last,
        ),
    ensures
        last matches Step::Done { reply: Reply::Document(found), change: None } && match found {
            Some(document) => exists|place: int|
                0 <= place < records@.len() && ((#[trigger] records@[place]) matches
                StorageRecord::Document(held) && same_document(document, held) && held.hash
                    == hash) && forall|earlier: int|
                    0 <= earlier < place ==> ((#[trigger] records@[earlier]) matches
                    StorageRecord::Document(other) ==> other.hash != hash),
            None => forall|place: int|
                0 <= place < records@.len() ==> ((#[trigger] records@[place]) matches
                StorageRecord::Document(held) ==> held.hash != hash),
        },
{
    let views = record_views(records@);
    let documents = documents_of(views);
    let wanted = |document: DocumentView| document.hash == hash;
    lemma_position(documents, wanted);
    match position(documents, wanted) {
        Some(index) => {
            lemma_place_of(views, index);
            let place = place_of(views, index);
            assert(views[place] == records@[place]@);
            assert forall|earlier: int| 0 <= earlier < place implies ((
            #[trigger] records@[earlier]) matches StorageRecord::Document(other) ==> other.hash
                != hash) by {
                assert(views[earlier] == records@[earlier]@);
                if records@[earlier] is Document {
                    let before = lemma_place_is_reached(views, earlier);
                    if before > index {
                        lemma_places_ascend(views, index, before);
                    }
                    assert(!wanted(documents[before]));
                }
            }
            assert(records@[place] is Document);
        },
        None => {
            assert forall|place: int| 0 <= place < records@.len() implies ((
            #[trigger] records@[place]) matches StorageRecord::Document(held) ==> held.hash
                != hash) by {
                assert(views[place] == records@[place]@);
                if records@[place] is Document {
                    let index = lemma_place_is_reached(views, place);
                    assert(!wanted(documents[index]));
                }
            }
        },
    }
}

/// A snapshot request is answered with the snapshot that was taken.
pub proof fn a_snapshot_is_the_one_that_was_taken(
    scope: FixtureScope,
    snapshot: Snapshot,
    first: Step,
    last: Step,
)
    requires
        call_ensures(begin, (Request::Snapshot { scope },), first),
        first matches Step::Await(stage) ==> call_ensures(
            resume,
            (stage, Event::Stamped(Ok(snapshot))),
            last,
        ),
    ensures
        first == Step::Await(Stage::TakeSnapshot),
        last == (Step::Done { reply: Reply::Snapshotted(snapshot), change: None }),
{
}

/// An allocation of nothing is turned down before any work, and no other is.
pub proof fn an_allocation_of_nothing_is_turned_down(
    scope: FixtureScope,
    count: u32,
    first: Step,
)
    requires
        call_ensures(begin, (Request::AllocateIdentifiers { scope, count },), first),
    ensures
        first == (Step::Done { reply: Reply::Rejected(Rejection::CountZero), change: None })
            <==> count == 0,
        count > 0 ==> first is Await,
{
}

/// An allocation whose work succeeds is answered with as many identifiers as were
/// asked, from where the first allocator that was read of its scope stands, or from
/// zero where none was read. What is written is that allocator, past the block; it is
/// added exactly if it stood at zero. The request fails only if the block would run
/// past the last number.
pub proof fn an_allocation_is_answered_with_the_next_block(
    scope: FixtureScope,
    count: u32,
    records: Vec<StorageRecord>,
    first: Step,
    second: Step,
    last: Step,
)
    requires
        count > 0,
        call_ensures(begin, (Request::AllocateIdentifiers { scope, count },), first),
        first matches Step::Await(stage) ==> call_ensures(
            resume,
            (stage, Event::Records(Ok(records))),
            second,
        ),
        second matches Step::Await(stage) ==> call_ensures(
            resume,
            (stage, Event::Written(Ok(()))),
            last,
        ),
    ensures
        exists|current: u32| #[trigger]
            stands_at(records@, scope, current) && if current + count <= u32::MAX {
                &&& second matches Step::Await(Stage::WriteAllocator(allocation))
                &&& allocation.record matches StorageRecord::Allocator { scope: owner, next }
                &&& owner == scope
                &&& next == current + count
                &&& allocation.fresh == (current == 0)
                &&& last matches Step::Done {
                    reply: Reply::IdentifiersAllocated(block),
                    change: None,
                }
                &&& block.first == current
                &&& block.length == count
            } else {
                &&& second matches Step::Failed(Error::Storage(message))
                &&& message@ == "identifier overflow"@
            },
{
    let views = record_views(records@);
    let wanted = |record: RecordView| allocates_for(record, scope);
    lemma_position(views, wanted);
    assert forall|place: int| 0 <= place < records@.len() implies #[trigger] views[place]
        == records@[place]@ by {}
    let current = cursor(views, scope);
    match position(views, wanted) {
        Some(place) => {
            assert(records@[place] matches StorageRecord::Allocator { scope: owner, next } && owner
                == scope && next == current);
            assert forall|earlier: int| 0 <= earlier < place implies ((
            #[trigger] records@[earlier]) matches StorageRecord::Allocator { scope: owner, .. }
                ==> owner != scope) by {
                assert(!wanted(views[earlier]));
            }
        },
        None => {
            assert forall|place: int| 0 <= place < records@.len() implies ((
            #[trigger] records@[place]) matches StorageRecord::Allocator { scope: owner, .. }
                ==> owner != scope) by {
                assert(!wanted(views[place]));
            }
        },
    }
    assert(stands_at(records@, scope, current));
}

/// Whether the allocator of a scope stands at an identifier among records: the first
/// that is the scope's does, or there is none and the identifier is zero.
pub open spec fn stands_at(records: Seq<StorageRecord>, scope: FixtureScope, next: u32) -> bool {
    ||| exists|place: int|
        0 <= place < records.len() && ((#[trigger] records[place]) matches
        StorageRecord::Allocator { scope: owner, next: stands } && owner == scope && stands
            == next) && forall|earlier: int|
            0 <= earlier < place ==> ((#[trigger] records[earlier]) matches
            StorageRecord::Allocator { scope: owner, .. } ==> owner != scope)
    ||| next == 0 && forall|place: int|
        0 <= place < records.len() ==> ((#[trigger] records[place]) matches
        StorageRecord::Allocator { scope: owner, .. } ==> owner != scope)
}

/// Whether a summary is that of a document, field by field.
pub open spec fn sums_up(summary: SlotSummary, document: StoredDocument) -> bool {
    summary.key == document.key && summary.version == document.version && summary.hash
        == document.hash
}

/// Whether `places` are the places among records of the documents of a scope, and of
/// one kind where a kind is given: all of them, each once.
pub open spec fn are_places_of(
    records: Seq<StorageRecord>,
    scope: FixtureScope,
    kind: Option<DocumentKind>,
    places: Seq<int>,
) -> bool {
    &&& forall|p: int|
        0 <= p < places.len() ==> 0 <= #[trigger] places[p] < records.len() && (
        records[places[p]] matches StorageRecord::Document(document) && document.key.scope == scope
            && (kind is None || kind == Some(document.key.kind)))
    &&& forall|place: int|
        0 <= place < records.len() && ((#[trigger] records[place]) matches
        StorageRecord::Document(document) && document.key.scope == scope && (kind is None || kind
            == Some(document.key.kind))) ==> places.contains(place)
    &&& forall|p: int, q: int|
        0 <= p < q < places.len() ==> #[trigger] places[p] != #[trigger] places[q]
}

/// Whether values are the listing of records, told field by field: the summaries of
/// the documents of the scope, and of one kind where a kind is given, by the number
/// of their kind, then by slot, then by version, then as they were read.
pub open spec fn are_listed(
    records: Seq<StorageRecord>,
    scope: FixtureScope,
    kind: Option<DocumentKind>,
    values: Seq<SlotSummary>,
    places: Seq<int>,
) -> bool {
    &&& are_places_of(records, scope, kind, places)
    &&& values.len() == places.len()
    &&& forall|p: int|
        0 <= p < values.len() ==> sums_up(
            #[trigger] values[p],
            records[places[p]]->Document_0,
        )
    &&& forall|p: int, q: int|
        0 <= p < q < values.len() ==> {
            let (left, right) = (#[trigger] values[p], #[trigger] values[q]);
            let (left_kind, right_kind) = (tag_of(left.key.kind), tag_of(right.key.kind));
            left_kind < right_kind || (left_kind == right_kind && (left.key.slot.0
                < right.key.slot.0 || (left.key.slot == right.key.slot && (left.version.0
                < right.version.0 || (left.version == right.version && places[p] < places[q])))))
        }
}

/// A listing order of the documents among records is a listing of the records.
proof fn lemma_are_listed(
    records: Seq<StorageRecord>,
    scope: FixtureScope,
    kind: Option<DocumentKind>,
    values: Seq<SlotSummary>,
) -> (places: Seq<int>)
    requires
        is_listing(documents_of(record_views(records)), scope, kind, values),
    ensures
        are_listed(records, scope, kind, values, places),
{
    let views = record_views(records);
    let documents = documents_of(views);
    let order = choose|order: Seq<int>| #[trigger]
        is_listing_order(documents, scope, kind, order) && values == summaries(documents, order);
    let places = order.map_values(|index: int| place_of(views, index));
    assert forall|place: int| 0 <= place < records.len() implies #[trigger] views[place]
        == records[place]@ by {}
    assert forall|p: int| 0 <= p < places.len() implies 0 <= #[trigger] places[p] < records.len()
        && (records[places[p]] matches StorageRecord::Document(document) && document.key.scope
        == scope && (kind is None || kind == Some(document.key.kind)) && sums_up(
        values[p],
        document,
    )) by {
        assert(covers(scope, kind, documents[order[p]].key));
        lemma_place_of(views, order[p]);
        assert(views[places[p]] == records[places[p]]@);
        assert(values[p] == summary_of(documents[order[p]]));
    }
    assert forall|place: int|
        0 <= place < records.len() && ((#[trigger] records[place]) matches StorageRecord::Document(
            document,
        ) && document.key.scope == scope && (kind is None || kind == Some(
            document.key.kind,
        ))) implies places.contains(place) by {
        assert(views[place] == records[place]@);
        let index = lemma_place_is_reached(views, place);
        assert(covers(scope, kind, documents[index].key));
        assert(order.contains(index));
        let p = order.index_of(index);
        assert(places[p] == place);
    }
    assert forall|p: int, q: int| 0 <= p < q < values.len() implies {
        let (left, right) = (#[trigger] values[p], #[trigger] values[q]);
        let (left_kind, right_kind) = (tag_of(left.key.kind), tag_of(right.key.kind));
        &&& left_kind < right_kind || (left_kind == right_kind && (left.key.slot.0
            < right.key.slot.0 || (left.key.slot == right.key.slot && (left.version.0
            < right.version.0 || (left.version == right.version && places[p] < places[q])))))
        &&& places[p] != places[q]
    } by {
        let (one, other) = (order[p], order[q]);
        assert(stands_before(documents, one, other));
        assert(values[p] == summary_of(documents[one]));
        assert(values[q] == summary_of(documents[other]));
        if one < other {
            lemma_places_ascend(views, one, other);
        } else if other < one {
            lemma_places_ascend(views, other, one);
        }
    }
    assert forall|p: int, q: int| 0 <= p < q < places.len() implies #[trigger] places[p]
        != #[trigger] places[q] by {
        let (left, right) = (values[p], values[q]);
    }
    assert(are_places_of(records, scope, kind, places));
    places
}

/// A document is covered exactly if it has the scope, and the kind where one is given.
pub proof fn a_document_is_covered_by_its_scope_and_kind(
    scope: FixtureScope,
    kind: Option<DocumentKind>,
    key: DocumentKey,
    covered: bool,
)
    requires
        call_ensures(is_covered, (scope, kind, &key), covered),
    ensures
        covered <==> key.scope == scope && (kind is None || kind == Some(key.kind)),
{
}

/// A listing without a kind holds a summary of every version that was read in the
/// scope, whatever its kind, and one with a kind holds exactly those of that kind;
/// each once, in order.
pub proof fn a_listing_holds_every_version_of_its_scope_and_kind(
    scope: FixtureScope,
    kind: Option<DocumentKind>,
    records: Vec<StorageRecord>,
    first: Step,
    last: Step,
)
    requires
        call_ensures(begin, (Request::List { scope, kind },), first),
        first matches Step::Await(stage) ==> call_ensures(
            resume,
            (stage, Event::Records(Ok(records))),
            last,
        ),
    ensures
        last matches Step::Done { reply: Reply::Listed(values), change: None } && exists|
            places: Seq<int>,
        | #[trigger] are_listed(records@, scope, kind, values@, places),
{
    lemma_are_listed(records@, scope, kind, last->reply->Listed_0@);
}

/// A listing holds a summary exactly if it is that of a version that was read in the
/// scope, and of the kind where a kind is given.
pub proof fn a_listing_holds_what_was_read(
    scope: FixtureScope,
    kind: Option<DocumentKind>,
    records: Vec<StorageRecord>,
    first: Step,
    last: Step,
    summary: SlotSummary,
)
    requires
        call_ensures(begin, (Request::List { scope, kind },), first),
        first matches Step::Await(stage) ==> call_ensures(
            resume,
            (stage, Event::Records(Ok(records))),
            last,
        ),
    ensures
        last matches Step::Done { reply: Reply::Listed(values), change: None } && (values@.contains(
            summary,
        ) <==> summary.key.scope == scope && (kind is None || kind == Some(summary.key.kind))
            && exists|place: int|
            0 <= place < records@.len() && ((#[trigger] records@[place]) matches
            StorageRecord::Document(document) && sums_up(summary, document))),
{
    let values = last->reply->Listed_0@;
    let places = lemma_are_listed(records@, scope, kind, values);
    if values.contains(summary) {
        let p = values.index_of(summary);
        assert(sums_up(values[p], records@[places[p]]->Document_0));
        assert(0 <= places[p] < records@.len());
        assert(records@[places[p]] is Document);
    }
    if summary.key.scope == scope && (kind is None || kind == Some(summary.key.kind)) && (exists|
        place: int,
    |
        0 <= place < records@.len() && ((#[trigger] records@[place]) matches
        StorageRecord::Document(document) && sums_up(summary, document))) {
        let place = choose|place: int|
            0 <= place < records@.len() && ((#[trigger] records@[place]) matches
            StorageRecord::Document(document) && sums_up(summary, document));
        assert(places.contains(place));
        let p = places.index_of(place);
        assert(values[p] == summary);
    }
}

/// A subscription is answered with the listing of its scope and kind.
pub proof fn a_subscription_is_answered_with_its_listing(
    scope: FixtureScope,
    kind: Option<DocumentKind>,
    records: Vec<StorageRecord>,
    first: Step,
    last: Step,
)
    requires
        call_ensures(begin, (Request::Subscribe { scope, kind },), first),
        first matches Step::Await(stage) ==> call_ensures(
            resume,
            (stage, Event::Records(Ok(records))),
            last,
        ),
    ensures
        last matches Step::Done { reply: Reply::Subscribed { identifier, initial }, change: None }
            && identifier == SubscriptionIdentifier(0) && exists|places: Seq<int>| #[trigger]
            are_listed(records@, scope, kind, initial@, places),
{
    lemma_are_listed(records@, scope, kind, last->reply->initial@);
}

/// A request awaits every outcome of its work, whatever the outcome holds, but for one:
/// a document that was read at the last version cannot be stored again.
pub proof fn a_request_awaits_every_outcome_of_its_work(
    stage: Stage,
    event: Event,
    awaiting: bool,
)
    requires
        call_ensures(Stage::is_awaiting, (&stage, &event), awaiting),
    ensures
        awaiting == stage.awaits(event),
        match (stage, event) {
            (
                Stage::ReadRecords(Inquiry::Store { key, .. }),
                Event::Records(Ok(records)),
            ) => awaiting <==> forall|place: int|
                0 <= place < records@.len() ==> ((#[trigger] records@[place]) matches
                StorageRecord::Document(held) ==> !(held.key == key && held.version.0
                    == u64::MAX)),
            _ => awaiting <==> (stage is Validate && event is Validated) || (stage is ReadRecords
                && event is Records) || (stage is HashPayload && event is Hashed) || ((stage
                is AssertDocument || stage is TakeSnapshot) && event is Stamped) || ((stage
                is WriteAllocator || stage is CommitAuthority) && event is Written) || (stage
                is ReadAuthority && event is Authority),
        },
{
    match (stage, event) {
        (Stage::ReadRecords(Inquiry::Store { key, .. }), Event::Records(Ok(records))) => {
            lemma_last_version(key, records@);
        },
        _ => {},
    }
}

proof fn lemma_last_version(key: DocumentKey, records: Seq<StorageRecord>)
    ensures
        next_version(documents_of(record_views(records)), key) <= u64::MAX
            <==> forall|place: int|
            0 <= place < records.len() ==> ((#[trigger] records[place]) matches
            StorageRecord::Document(held) ==> !(held.key == key && held.version.0 == u64::MAX)),
{
    let views = record_views(records);
    let documents = documents_of(views);
    assert forall|place: int| 0 <= place < records.len() implies #[trigger] views[place]
        == records[place]@ by {}
    if exists|i: int| latest_at(documents, key, i) {
        let chosen = choose|i: int| latest_at(documents, key, i);
        lemma_latest_is(documents, key, chosen);
        let place = lemma_document_is_record(views, chosen);
        assert(views[place] == records[place]@);
        assert(records[place] is Document);
        assert forall|other: int| 0 <= other < records.len() && documents[chosen].version.0
            < u64::MAX implies ((#[trigger] records[other]) matches StorageRecord::Document(held)
            ==> !(held.key == key && held.version.0 == u64::MAX)) by {
            assert(views[other] == records[other]@);
            if records[other] is Document {
                let index = lemma_record_is_document(views, other);
                assert(documents[index].key == records[other]->Document_0.key);
            }
        }
    } else {
        assert forall|other: int| 0 <= other < records.len() implies ((
        #[trigger] records[other]) matches StorageRecord::Document(held) ==> !(held.key == key
            && held.version.0 == u64::MAX)) by {
            assert(views[other] == records[other]@);
            if records[other] is Document && records[other]->Document_0.key == key {
                let index = lemma_record_is_document(views, other);
                lemma_latest_present(documents, key, index);
            }
        }
    }
}

/// A failure is told with its message behind what failed.
pub proof fn a_failure_is_told_with_its_message(error: Error, text: String)
    requires
        call_ensures(Error::message, (&error,), text),
    ensures
        error matches Error::Storage(detail) ==> text@ == "storage: "@ + detail@,
        error matches Error::Actor(detail) ==> text@ == "actor: "@ + detail@,
{
}

} // verus!
