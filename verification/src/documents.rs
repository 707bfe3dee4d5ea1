//! Documents: which version is latest, which a request fetches, and how a
//! listing is ordered.
use vstd::prelude::*;

use crate::protocol::{
    ContentHash, DocumentKey, DocumentKind, DocumentView, FixtureScope, SlotSummary, StoredDocument,
    Version,
};
use crate::records::{RecordView, StorageRecord, kind_tag, record_views, tag_of};
use crate::search::{first, lemma_position_absent, lemma_position_is};

verus! {

/// The documents among records, in the order of the records.
pub open spec fn documents_of(records: Seq<RecordView>) -> Seq<DocumentView>
    decreases records.len(),
{
    if records.len() == 0 {
        Seq::empty()
    } else {
        match records.last() {
            RecordView::Document(document) => documents_of(records.drop_last()).push(document),
            RecordView::Allocator { .. } => documents_of(records.drop_last()),
        }
    }
}

/// The contents of documents.
pub open spec fn document_views(documents: Seq<StoredDocument>) -> Seq<DocumentView> {
    documents.map_values(|document: StoredDocument| document@)
}

/// The content of a document, if there is one.
pub open spec fn found_view(found: Option<StoredDocument>) -> Option<DocumentView> {
    match found {
        Some(document) => Some(document@),
        None => None,
    }
}

/// The documents among records, in the order of the records.
pub fn documents(records: Vec<StorageRecord>) -> (documents: Vec<StoredDocument>)
    ensures
        document_views(documents@) == documents_of(record_views(records@)),
{
    let mut documents: Vec<StoredDocument> = Vec::new();
    let ghost views = record_views(records@);
    assert(document_views(documents@) =~= documents_of(views.take(0)));
    for record in iter: records
        invariant
            iter.seq() == records@,
            views == record_views(records@),
            document_views(documents@) == documents_of(views.take(iter.index())),
    {
        let ghost done = documents@;
        proof {
            assert(views.take(iter.index() + 1).drop_last() =~= views.take(iter.index()));
            assert(views.take(iter.index() + 1).last() == record@);
        }
        match record {
            StorageRecord::Document(document) => {
                documents.push(document);
                assert(document_views(documents@) =~= document_views(done).push(document@));
            },
            StorageRecord::Allocator { .. } => {},
        }
    }
    assert(views.take(views.len() as int) =~= views);
    documents
}

/// Whether the latest version of a document stands at `index`: no other version
/// of it is higher, and none that is equal stands later.
pub open spec fn latest_at(documents: Seq<DocumentView>, key: DocumentKey, index: int) -> bool {
    &&& 0 <= index < documents.len()
    &&& documents[index].key == key
    &&& forall|other: int|
        0 <= other < documents.len() && (#[trigger] documents[other]).key == key
            ==> documents[other].version.0 < documents[index].version.0 || (
        documents[other].version == documents[index].version && other <= index)
}

/// The latest version of a document, if it has any.
pub open spec fn latest(documents: Seq<DocumentView>, key: DocumentKey) -> Option<DocumentView> {
    if exists|index: int| latest_at(documents, key, index) {
        Some(documents[choose|index: int| latest_at(documents, key, index)])
    } else {
        None
    }
}

/// The version that the next store of a document receives.
pub open spec fn next_version(documents: Seq<DocumentView>, key: DocumentKey) -> nat {
    match latest(documents, key) {
        Some(document) => document.version.0 as nat + 1,
        None => 1,
    }
}

/// A place that holds the latest version settles which version is latest.
pub proof fn lemma_latest_is(documents: Seq<DocumentView>, key: DocumentKey, index: int)
    requires
        latest_at(documents, key, index),
    ensures
        latest(documents, key) == Some(documents[index]),
{
    let chosen = choose|place: int| latest_at(documents, key, place);
    assert(latest_at(documents, key, chosen));
    assert(documents[chosen].key == key);
    assert(documents[index].key == key);
}

/// A document without versions has no latest one.
pub proof fn lemma_latest_absent(documents: Seq<DocumentView>, key: DocumentKey)
    requires
        forall|index: int|
            0 <= index < documents.len() ==> (#[trigger] documents[index]).key != key,
    ensures
        latest(documents, key) is None,
{
    if exists|index: int| latest_at(documents, key, index) {
        let chosen = choose|index: int| latest_at(documents, key, index);
        assert(documents[chosen].key != key);
    }
}

/// A document with versions has a latest one.
pub proof fn lemma_latest_present(documents: Seq<DocumentView>, key: DocumentKey, index: int)
    requires
        0 <= index < documents.len(),
        documents[index].key == key,
    ensures
        exists|place: int| latest_at(documents, key, place),
        latest(documents, key) is Some,
    decreases documents.len(),
{
    let rest = documents.drop_last();
    let last = documents.len() - 1;
    assert(forall|i: int| 0 <= i < last ==> #[trigger] rest[i] == documents[i]);
    if exists|i: int| 0 <= i < rest.len() && (#[trigger] rest[i]).key == key {
        let earlier = choose|i: int| 0 <= i < rest.len() && (#[trigger] rest[i]).key == key;
        lemma_latest_present(rest, key, earlier);
        let chosen = choose|place: int| latest_at(rest, key, place);
        assert(rest[chosen].key == key);
        if documents[last].key == key && documents[chosen].version.0 <= documents[last].version.0 {
            assert forall|other: int|
                0 <= other < documents.len() && (#[trigger] documents[other]).key == key implies (
            documents[other].version.0 < documents[last].version.0 || (documents[other].version
                == documents[last].version && other <= last)) by {
                if other < last {
                    assert(rest[other].key == key);
                }
            }
            assert(latest_at(documents, key, last));
        } else {
            assert forall|other: int|
                0 <= other < documents.len() && (#[trigger] documents[other]).key == key implies (
            documents[other].version.0 < documents[chosen].version.0 || (documents[other].version
                == documents[chosen].version && other <= chosen)) by {
                if other < last {
                    assert(rest[other].key == key);
                }
            }
            assert(latest_at(documents, key, chosen));
        }
    } else {
        assert(index == last) by {
            if index < last {
                assert(rest[index].key == key);
            }
        }
        assert forall|other: int|
            0 <= other < documents.len() && (#[trigger] documents[other]).key == key implies (
        documents[other].version.0 < documents[last].version.0 || (documents[other].version
            == documents[last].version && other <= last)) by {
            if other < last {
                assert(rest[other].key == key);
            }
        }
        assert(latest_at(documents, key, last));
    }
}

/// Where a document among records stands as a record.
pub proof fn lemma_document_is_record(records: Seq<RecordView>, index: int) -> (place: int)
    requires
        0 <= index < documents_of(records).len(),
    ensures
        0 <= place < records.len(),
        records[place] == RecordView::Document(documents_of(records)[index]),
    decreases records.len(),
{
    let rest = records.drop_last();
    if index < documents_of(rest).len() {
        let place = lemma_document_is_record(rest, index);
        assert(records[place] == rest[place]);
        assert(documents_of(records)[index] == documents_of(rest)[index]);
        place
    } else {
        records.len() - 1
    }
}

/// Where a record that is a document stands among the documents.
pub proof fn lemma_record_is_document(records: Seq<RecordView>, place: int) -> (index: int)
    requires
        0 <= place < records.len(),
        records[place] is Document,
    ensures
        0 <= index < documents_of(records).len(),
        documents_of(records)[index] == records[place]->Document_0,
    decreases records.len(),
{
    let rest = records.drop_last();
    if place < rest.len() {
        let index = lemma_record_is_document(rest, place);
        assert(documents_of(records)[index] == documents_of(rest)[index]);
        index
    } else {
        documents_of(rest).len() as int
    }
}

fn latest_index(documents: &Vec<StoredDocument>, key: &DocumentKey) -> (found: Option<usize>)
    ensures
        match found {
            Some(index) => latest_at(document_views(documents@), *key, index as int),
            None => forall|index: int|
                0 <= index < documents@.len() ==> (#[trigger] document_views(
                    documents@,
                )[index]).key != *key,
        },
{
    let ghost views = document_views(documents@);
    let mut best: Option<usize> = None;
    let mut index: usize = 0;
    while index < documents.len()
        invariant
            index <= documents@.len(),
            views == document_views(documents@),
            match best {
                Some(chosen) => latest_at(views.take(index as int), *key, chosen as int),
                None => forall|i: int| 0 <= i < index ==> (#[trigger] views[i]).key != *key,
            },
        decreases documents@.len() - index,
    {
        let ghost before = views.take(index as int);
        let ghost after = views.take(index + 1);
        assert(views[index as int] == documents@[index as int]@);
        assert(forall|i: int| 0 <= i < index ==> #[trigger] before[i] == views[i]);
        assert(forall|i: int| 0 <= i <= index ==> #[trigger] after[i] == views[i]);
        if documents[index].key == *key {
            let higher: bool = match best {
                Some(chosen) => {
                    assert(before[chosen as int] == documents@[chosen as int]@);
                    documents[chosen].version.0 <= documents[index].version.0
                },
                None => true,
            };
            if higher {
                proof {
                    assert(after[index as int].key == *key);
                    assert forall|other: int|
                        0 <= other < after.len() && (#[trigger] after[other]).key == *key implies (
                    after[other].version.0 < after[index as int].version.0 || (after[other].version
                        == after[index as int].version && other <= index)) by {
                        if other < index {
                            assert(before[other].key == *key);
                        }
                    }
                    assert(latest_at(after, *key, index as int));
                }
                best = Some(index);
            } else {
                proof {
                    let chosen = best->0 as int;
                    assert forall|other: int|
                        0 <= other < after.len() && (#[trigger] after[other]).key == *key implies (
                    after[other].version.0 < after[chosen].version.0 || (after[other].version
                        == after[chosen].version && other <= chosen)) by {
                        if other < index {
                            assert(before[other].key == *key);
                        }
                    }
                    assert(latest_at(after, *key, chosen));
                }
            }
        } else {
            proof {
                if best is Some {
                    let chosen = best->0 as int;
                    assert forall|other: int|
                        0 <= other < after.len() && (#[trigger] after[other]).key == *key implies (
                    after[other].version.0 < after[chosen].version.0 || (after[other].version
                        == after[chosen].version && other <= chosen)) by {
                        assert(before[other].key == *key);
                    }
                    assert(latest_at(after, *key, chosen));
                }
            }
        }
        index = index + 1;
    }
    assert(views.take(index as int) =~= views);
    best
}

/// The latest version of a document, if it has any.
pub fn latest_for(documents: Vec<StoredDocument>, key: &DocumentKey) -> (found: Option<
    StoredDocument,
>)
    ensures
        found_view(found) == latest(document_views(documents@), *key),
{
    let mut candidates = documents;
    let ghost views = document_views(documents@);
    match latest_index(&candidates, key) {
        Some(index) => {
            proof {
                lemma_latest_is(views, *key, index as int);
                assert(views[index as int] == candidates@[index as int]@);
            }
            Some(candidates.swap_remove(index))
        },
        None => {
            proof {
                lemma_latest_absent(views, *key);
            }
            None
        },
    }
}

/// Whether a document's latest version among records can be followed by
/// another.
pub fn has_next_version(records: &Vec<StorageRecord>, key: &DocumentKey) -> (available: bool)
    ensures
        available == (next_version(documents_of(record_views(records@)), *key) <= u64::MAX),
{
    let ghost views = record_views(records@);
    let ghost stored = documents_of(views);
    let mut index: usize = 0;
    while index < records.len()
        invariant
            index <= records@.len(),
            views == record_views(records@),
            stored == documents_of(views),
            forall|i: int|
                0 <= i < index ==> ((#[trigger] views[i]) matches RecordView::Document(document)
                    ==> !(document.key == *key && document.version.0 == u64::MAX)),
        decreases records@.len() - index,
    {
        assert(views[index as int] == records@[index as int]@);
        if let StorageRecord::Document(document) = &records[index] {
            if document.key == *key && document.version.0 == u64::MAX {
                proof {
                    let place = lemma_record_is_document(views, index as int);
                    lemma_latest_present(stored, *key, place);
                    let chosen = choose|i: int| latest_at(stored, *key, i);
                    assert(stored[place].key == *key);
                    lemma_latest_is(stored, *key, chosen);
                }
                return false;
            }
        }
        index = index + 1;
    }
    proof {
        if latest(stored, *key) is Some {
            let chosen = choose|i: int| latest_at(stored, *key, i);
            let place = lemma_document_is_record(views, chosen);
            assert(views[place] == RecordView::Document(stored[chosen]));
        }
    }
    true
}

/// The version that the next store of a document receives: one more than its
/// latest version, or one.
pub fn version_to_store(documents: &Vec<StoredDocument>, key: &DocumentKey) -> (version: Version)
    requires
        next_version(document_views(documents@), *key) <= u64::MAX,
    ensures
        version.0 == next_version(document_views(documents@), *key),
{
    let ghost views = document_views(documents@);
    match latest_index(documents, key) {
        Some(index) => {
            proof {
                lemma_latest_is(views, *key, index as int);
                assert(views[index as int] == documents@[index as int]@);
            }
            Version(documents[index].version.0 + 1)
        },
        None => {
            proof {
                lemma_latest_absent(views, *key);
            }
            Version(1)
        },
    }
}

/// The first document under a key and version.
pub open spec fn under_version(
    documents: Seq<DocumentView>,
    key: DocumentKey,
    version: Version,
) -> Option<DocumentView> {
    first(documents, |document: DocumentView| document.key == key && document.version == version)
}

/// What a fetch finds: the given version, or the latest where none is given.
pub open spec fn fetched(
    documents: Seq<DocumentView>,
    key: DocumentKey,
    version: Option<Version>,
) -> Option<DocumentView> {
    match version {
        Some(version) => under_version(documents, key, version),
        None => latest(documents, key),
    }
}

/// The first document with a content hash.
pub open spec fn under_hash(documents: Seq<DocumentView>, hash: ContentHash) -> Option<
    DocumentView,
> {
    first(documents, |document: DocumentView| document.hash == hash)
}

/// What a fetch finds: the given version, or the latest where none is given.
pub fn fetch(documents: Vec<StoredDocument>, key: &DocumentKey, version: Option<Version>) -> (found:
    Option<StoredDocument>)
    ensures
        found_view(found) == fetched(document_views(documents@), *key, version),
{
    let exact = match version {
        Some(exact) => exact,
        None => {
            return latest_for(documents, key);
        },
    };
    let mut candidates = documents;
    let ghost views = document_views(documents@);
    let ghost wanted = |document: DocumentView|
        document.key == *key && document.version == exact;
    let mut index: usize = 0;
    while index < candidates.len()
        invariant
            candidates == documents,
            version == Some(exact),
            index <= candidates@.len(),
            views == document_views(documents@),
            wanted == (|document: DocumentView|
                document.key == *key && document.version == exact),
            forall|i: int| 0 <= i < index ==> !wanted(#[trigger] views[i]),
        decreases candidates@.len() - index,
    {
        assert(views[index as int] == candidates@[index as int]@);
        if candidates[index].key == *key && candidates[index].version == exact {
            proof {
                lemma_position_is(views, wanted, index as int);
            }
            return Some(candidates.swap_remove(index));
        }
        index = index + 1;
    }
    proof {
        lemma_position_absent(views, wanted);
    }
    None
}

/// The first document with a content hash.
pub fn fetch_by_hash(documents: Vec<StoredDocument>, hash: &ContentHash) -> (found: Option<
    StoredDocument,
>)
    ensures
        found_view(found) == under_hash(document_views(documents@), *hash),
{
    let mut candidates = documents;
    let ghost views = document_views(documents@);
    let ghost wanted = |document: DocumentView| document.hash == *hash;
    let mut index: usize = 0;
    while index < candidates.len()
        invariant
            candidates == documents,
            index <= candidates@.len(),
            views == document_views(documents@),
            wanted == (|document: DocumentView| document.hash == *hash),
            forall|i: int| 0 <= i < index ==> !wanted(#[trigger] views[i]),
        decreases candidates@.len() - index,
    {
        assert(views[index as int] == candidates@[index as int]@);
        if candidates[index].hash == *hash {
            proof {
                lemma_position_is(views, wanted, index as int);
            }
            return Some(candidates.swap_remove(index));
        }
        index = index + 1;
    }
    proof {
        lemma_position_absent(views, wanted);
    }
    None
}

/// Whether a listing or a subscription of a scope, and of one kind where a kind
/// is given, covers a document.
pub open spec fn covers(scope: FixtureScope, kind: Option<DocumentKind>, key: DocumentKey) -> bool {
    &&& key.scope == scope
    &&& kind matches Some(only) ==> key.kind == only
}

/// Whether a listing or a subscription covers a document.
pub fn is_covered(scope: FixtureScope, kind: Option<DocumentKind>, key: &DocumentKey) -> (covered:
    bool)
    ensures
        covered == covers(scope, kind, *key),
{
    key.scope == scope && match kind {
        Some(only) => key.kind == only,
        None => true,
    }
}

/// The summary of a document.
pub open spec fn summary_of(document: DocumentView) -> SlotSummary {
    SlotSummary { key: document.key, version: document.version, hash: document.hash }
}

/// Whether a version ranks strictly before another: by the number of its kind,
/// then by its slot, then by its version.
pub open spec fn ranks_before(left: SlotSummary, right: SlotSummary) -> bool {
    ||| tag_of(left.key.kind) < tag_of(right.key.kind)
    ||| tag_of(left.key.kind) == tag_of(right.key.kind) && left.key.slot.0 < right.key.slot.0
    ||| tag_of(left.key.kind) == tag_of(right.key.kind) && left.key.slot == right.key.slot
        && left.version.0 < right.version.0
}

/// Whether a document stands before another in a listing: it ranks before, or
/// neither ranks before the other and it was read before.
pub open spec fn stands_before(documents: Seq<DocumentView>, left: int, right: int) -> bool {
    ||| ranks_before(summary_of(documents[left]), summary_of(documents[right]))
    ||| !ranks_before(summary_of(documents[right]), summary_of(documents[left])) && left < right
}

/// Whether `order` names the covered documents, each once and in the order of a
/// listing.
pub open spec fn is_listing_order(
    documents: Seq<DocumentView>,
    scope: FixtureScope,
    kind: Option<DocumentKind>,
    order: Seq<int>,
) -> bool {
    &&& forall|place: int|
        0 <= place < order.len() ==> 0 <= #[trigger] order[place] < documents.len() && covers(
            scope,
            kind,
            documents[order[place]].key,
        )
    &&& forall|index: int|
        0 <= index < documents.len() && covers(scope, kind, (#[trigger] documents[index]).key)
            ==> order.contains(index)
    &&& forall|left: int, right: int|
        0 <= left < right < order.len() ==> stands_before(
            documents,
            #[trigger] order[left],
            #[trigger] order[right],
        )
}

/// The summaries of the named documents.
pub open spec fn summaries(documents: Seq<DocumentView>, order: Seq<int>) -> Seq<SlotSummary> {
    order.map_values(|index: int| summary_of(documents[index]))
}

/// Whether `values` is the listing of a scope, and of one kind where a kind is
/// given: a summary of each covered document, in the order of a listing.
pub open spec fn is_listing(
    documents: Seq<DocumentView>,
    scope: FixtureScope,
    kind: Option<DocumentKind>,
    values: Seq<SlotSummary>,
) -> bool {
    exists|order: Seq<int>|
        #[trigger] is_listing_order(documents, scope, kind, order) && values == summaries(
            documents,
            order,
        )
}

fn document_ranks_before(left: &StoredDocument, right: &StoredDocument) -> (before: bool)
    ensures
        before == ranks_before(summary_of(left@), summary_of(right@)),
{
    let left_tag: u8 = kind_tag(left.key.kind);
    let right_tag: u8 = kind_tag(right.key.kind);
    if left_tag != right_tag {
        left_tag < right_tag
    } else if left.key.slot.0 != right.key.slot.0 {
        left.key.slot.0 < right.key.slot.0
    } else {
        left.version.0 < right.version.0
    }
}

/// The place at which a document that was read last joins a listing order:
/// behind every document that it does not rank before.
fn joining_place(documents: &Vec<StoredDocument>, order: &Vec<usize>, index: usize) -> (place:
    usize)
    requires
        index < documents@.len(),
        forall|q: int| 0 <= q < order@.len() ==> #[trigger] order@[q] < index,
        forall|p: int, q: int|
            0 <= p < q < order@.len() ==> stands_before(
                document_views(documents@),
                #[trigger] order@[p] as int,
                #[trigger] order@[q] as int,
            ),
    ensures
        place <= order@.len(),
        forall|q: int|
            0 <= q < order@.len() ==> (ranks_before(
                summary_of(document_views(documents@)[index as int]),
                summary_of(document_views(documents@)[#[trigger] order@[q] as int]),
            ) <==> place <= q),
{
    let ghost views = document_views(documents@);
    let mut place: usize = order.len();
    while place > 0
        invariant
            place <= order@.len(),
            index < documents@.len(),
            views == document_views(documents@),
            forall|q: int| 0 <= q < order@.len() ==> #[trigger] order@[q] < index,
            forall|p: int, q: int|
                0 <= p < q < order@.len() ==> stands_before(
                    views,
                    #[trigger] order@[p] as int,
                    #[trigger] order@[q] as int,
                ),
            forall|q: int|
                place <= q < order@.len() ==> ranks_before(
                    summary_of(views[index as int]),
                    summary_of(views[#[trigger] order@[q] as int]),
                ),
        decreases place,
    {
        let neighbour: usize = order[place - 1];
        assert(views[index as int] == documents@[index as int]@);
        assert(views[neighbour as int] == documents@[neighbour as int]@);
        if !document_ranks_before(&documents[index], &documents[neighbour]) {
            assert forall|q: int| 0 <= q < place implies !ranks_before(
                summary_of(views[index as int]),
                summary_of(views[#[trigger] order@[q] as int]),
            ) by {
                if q < place - 1 {
                    assert(stands_before(views, order@[q] as int, order@[place - 1] as int));
                }
            }
            return place;
        }
        place = place - 1;
    }
    place
}

/// The listing of a scope, and of one kind where a kind is given.
pub fn list(
    documents: &Vec<StoredDocument>,
    scope: FixtureScope,
    kind: Option<DocumentKind>,
) -> (values: Vec<SlotSummary>)
    ensures
        is_listing(document_views(documents@), scope, kind, values@),
{
    let ghost views = document_views(documents@);
    let mut order: Vec<usize> = Vec::new();
    let mut index: usize = 0;
    while index < documents.len()
        invariant
            index <= documents@.len(),
            views == document_views(documents@),
            forall|q: int|
                0 <= q < order@.len() ==> #[trigger] order@[q] < index && covers(
                    scope,
                    kind,
                    views[order@[q] as int].key,
                ),
            forall|i: int|
                0 <= i < index && covers(scope, kind, (#[trigger] views[i]).key)
                    ==> order@.contains(i as usize),
            forall|p: int, q: int|
                0 <= p < q < order@.len() ==> stands_before(
                    views,
                    #[trigger] order@[p] as int,
                    #[trigger] order@[q] as int,
                ),
        decreases documents@.len() - index,
    {
        assert(views[index as int] == documents@[index as int]@);
        if is_covered(scope, kind, &documents[index].key) {
            let ghost before = order@;
            let place: usize = joining_place(documents, &order, index);
            order.insert(place, index);
            proof {
                let after = order@;
                assert forall|i: int|
                    0 <= i < index + 1 && covers(scope, kind, (#[trigger] views[i]).key) implies
                after.contains(i as usize) by {
                    if i < index {
                        let q = before.index_of(i as usize);
                        assert(before[q] == i as usize);
                        if q < place {
                            assert(after[q] == i as usize);
                        } else {
                            assert(after[q + 1] == i as usize);
                        }
                    } else {
                        assert(after[place as int] == i as usize);
                    }
                }
                assert forall|p: int, q: int| 0 <= p < q < after.len() implies stands_before(
                    views,
                    #[trigger] after[p] as int,
                    #[trigger] after[q] as int,
                ) by {
                    let from = |place_after: int|
                        if place_after < place {
                            place_after
                        } else {
                            place_after - 1
                        };
                    if p != place && q != place {
                        assert(before[from(p)] == after[p]);
                        assert(before[from(q)] == after[q]);
                    } else if p == place {
                        assert(before[q - 1] == after[q]);
                    } else {
                        assert(before[p] == after[p]);
                    }
                }
                assert forall|q: int| 0 <= q < after.len() implies #[trigger] after[q] < index + 1
                    && covers(scope, kind, views[after[q] as int].key) by {
                    if q < place {
                        assert(after[q] == before[q]);
                    } else if q > place {
                        assert(after[q] == before[q - 1]);
                    }
                }
            }
        }
        index = index + 1;
    }
    let mut values: Vec<SlotSummary> = Vec::new();
    let ghost named = order@.map_values(|place: usize| place as int);
    let mut place: usize = 0;
    while place < order.len()
        invariant
            place <= order@.len(),
            views == document_views(documents@),
            named == order@.map_values(|place: usize| place as int),
            forall|q: int| 0 <= q < order@.len() ==> #[trigger] order@[q] < documents@.len(),
            values@ == summaries(views, named.take(place as int)),
        decreases order@.len() - place,
    {
        let document = &documents[order[place]];
        values.push(
            SlotSummary { key: document.key, version: document.version, hash: document.hash },
        );
        assert(views[named[place as int]] == document@);
        assert(values@ =~= summaries(views, named.take(place + 1)));
        place = place + 1;
    }
    proof {
        assert(named.take(place as int) =~= named);
        assert forall|i: int|
            0 <= i < views.len() && covers(scope, kind, (#[trigger] views[i]).key) implies
        named.contains(i) by {
            let q = order@.index_of(i as usize);
            assert(order@[q] == i as usize);
            assert(named[q] == i);
        }
        assert(is_listing_order(views, scope, kind, named));
    }
    values
}

} // verus!
