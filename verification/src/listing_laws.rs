//! Laws of listings: what they hold and in which order.
use vstd::prelude::*;

use crate::document_laws::{held, lemma_held_is_document, lemma_read_is_held, store_then_fetch};
use crate::documents::{
    covers, documents_of, is_listing, is_listing_order, lemma_document_is_record, next_version,
    ranks_before, stands_before, summaries, summary_of,
};
use crate::protocol::{DocumentKind, DocumentView, FixtureScope, SlotSummary};
use crate::records::{RecordView, kind_tag_is_injective, record_keys_tell_records_apart};
use crate::tables::{Keyed, reads, written};

verus! {

/// Two sequences with the same items, each in an order that holds one way only,
/// are the same sequence.
proof fn lemma_order_is_determined<T>(
    left: Seq<T>,
    right: Seq<T>,
    before: spec_fn(T, T) -> bool,
)
    requires
        forall|one: T, other: T| !(#[trigger] before(one, other) && before(other, one)),
        forall|p: int, q: int|
            0 <= p < q < left.len() ==> before(#[trigger] left[p], #[trigger] left[q]),
        forall|p: int, q: int|
            0 <= p < q < right.len() ==> before(#[trigger] right[p], #[trigger] right[q]),
        forall|item: T| left.contains(item) <==> right.contains(item),
    ensures
        left == right,
    decreases left.len(),
{
    if left.len() == 0 {
        if right.len() > 0 {
            assert(right.contains(right[0]));
            assert(left.contains(right[0]));
        }
        assert(left =~= right);
    } else {
        assert(left.contains(left[0]));
        assert(right.contains(left[0]));
        assert(right.len() > 0);
        let left_last = left.last();
        let right_last = right.last();
        assert(left.contains(left_last));
        assert(right.contains(left_last));
        assert(right.contains(right_last));
        assert(left.contains(right_last));
        let p = right.index_of(left_last);
        let q = left.index_of(right_last);
        assert(right[p] == left_last);
        assert(left[q] == right_last);
        if left_last != right_last {
            assert(before(right[p], right[right.len() - 1]));
            assert(before(left[q], left[left.len() - 1]));
        }
        assert(left_last == right_last);
        let left_rest = left.drop_last();
        let right_rest = right.drop_last();
        assert forall|item: T| left_rest.contains(item) implies right_rest.contains(item) by {
            let i = left_rest.index_of(item);
            assert(left[i] == item);
            assert(left.contains(item));
            let j = right.index_of(item);
            assert(right[j] == item);
            assert(before(left[i], left[left.len() - 1]));
            assert(j != right.len() - 1);
            assert(right_rest[j] == item);
        }
        assert forall|item: T| right_rest.contains(item) implies left_rest.contains(item) by {
            let i = right_rest.index_of(item);
            assert(right[i] == item);
            assert(right.contains(item));
            let j = left.index_of(item);
            assert(left[j] == item);
            assert(before(right[i], right[right.len() - 1]));
            assert(j != left.len() - 1);
            assert(left_rest[j] == item);
        }
        lemma_order_is_determined(left_rest, right_rest, before);
        assert(left =~= left_rest.push(left_last));
        assert(right =~= right_rest.push(right_last));
    }
}

/// A scope and kind have one listing.
pub proof fn listing_is_determined(
    documents: Seq<DocumentView>,
    scope: FixtureScope,
    kind: Option<DocumentKind>,
    left: Seq<SlotSummary>,
    right: Seq<SlotSummary>,
)
    requires
        is_listing(documents, scope, kind, left),
        is_listing(documents, scope, kind, right),
    ensures
        left == right,
{
    let left_order = choose|order: Seq<int>| #[trigger]
        is_listing_order(documents, scope, kind, order) && left == summaries(documents, order);
    let right_order = choose|order: Seq<int>| #[trigger]
        is_listing_order(documents, scope, kind, order) && right == summaries(documents, order);
    let before = |one: int, other: int| stands_before(documents, one, other);
    assert forall|item: int| left_order.contains(item) <==> right_order.contains(item) by {
        if left_order.contains(item) {
            let p = left_order.index_of(item);
            assert(left_order[p] == item);
            assert(covers(scope, kind, documents[item].key));
        }
        if right_order.contains(item) {
            let p = right_order.index_of(item);
            assert(right_order[p] == item);
            assert(covers(scope, kind, documents[item].key));
        }
    }
    lemma_order_is_determined(left_order, right_order, before);
}

/// A listing holds a summary of each covered version that the table holds and
/// nothing else, strictly ordered by kind, slot and version, in whatever order
/// the table is read.
pub proof fn listing_reads_the_table(
    records: Seq<RecordView>,
    table: Map<Seq<char>, RecordView>,
    scope: FixtureScope,
    kind: Option<DocumentKind>,
    values: Seq<SlotSummary>,
)
    requires
        reads(records, table),
        is_listing(documents_of(records), scope, kind, values),
    ensures
        forall|summary: SlotSummary| #[trigger]
            values.contains(summary) <==> {
                &&& covers(scope, kind, summary.key)
                &&& held(table, summary.key, summary.version) matches Some(document)
                &&& summary_of(document) == summary
            },
        forall|p: int, q: int|
            0 <= p < q < values.len() ==> ranks_before(#[trigger] values[p], #[trigger] values[q]),
{
    let documents = documents_of(records);
    let order = choose|order: Seq<int>| #[trigger]
        is_listing_order(documents, scope, kind, order) && values == summaries(documents, order);
    assert forall|summary: SlotSummary| #[trigger] values.contains(summary) <==> {
        &&& covers(scope, kind, summary.key)
        &&& held(table, summary.key, summary.version) matches Some(document)
        &&& summary_of(document) == summary
    } by {
        if values.contains(summary) {
            let p = values.index_of(summary);
            assert(values[p] == summary_of(documents[order[p]]));
            lemma_read_is_held(records, table, order[p]);
        }
        if covers(scope, kind, summary.key) && (held(
            table,
            summary.key,
            summary.version,
        ) matches Some(document) && summary_of(document) == summary) {
            let index = lemma_held_is_document(records, table, summary.key, summary.version);
            assert(covers(scope, kind, documents[index].key));
            assert(order.contains(index));
            let p = order.index_of(index);
            assert(values[p] == summary);
        }
    }
    assert forall|p: int, q: int| 0 <= p < q < values.len() implies ranks_before(
        #[trigger] values[p],
        #[trigger] values[q],
    ) by {
        let left = order[p];
        let right = order[q];
        assert(values[p] == summary_of(documents[left]));
        assert(values[q] == summary_of(documents[right]));
        assert(stands_before(documents, left, right));
        if !ranks_before(values[p], values[q]) {
            kind_tag_is_injective(documents[left].key.kind, documents[right].key.kind);
            assert(documents[left].key == documents[right].key);
            assert(documents[left].version == documents[right].version);
            lemma_same_version_same_place(records, table, left, right);
        }
    }
}

/// A table that is read lists each version of a document once.
proof fn lemma_same_version_same_place(
    records: Seq<RecordView>,
    table: Map<Seq<char>, RecordView>,
    left: int,
    right: int,
)
    requires
        reads(records, table),
        0 <= left < documents_of(records).len(),
        0 <= right < documents_of(records).len(),
        documents_of(records)[left].key == documents_of(records)[right].key,
        documents_of(records)[left].version == documents_of(records)[right].version,
    ensures
        left == right,
{
    if left < right {
        lemma_versions_are_distinct(records, left, right);
    } else if right < left {
        lemma_versions_are_distinct(records, right, left);
    }
}

proof fn lemma_versions_are_distinct(records: Seq<RecordView>, left: int, right: int)
    requires
        forall|p: int, q: int|
            0 <= p < q < records.len() ==> (#[trigger] records[p]).key_text() != (
            #[trigger] records[q]).key_text(),
        0 <= left < right < documents_of(records).len(),
    ensures
        documents_of(records)[left].key != documents_of(records)[right].key || documents_of(
            records,
        )[left].version != documents_of(records)[right].version,
    decreases records.len(),
{
    let rest = records.drop_last();
    assert forall|p: int, q: int| 0 <= p < q < rest.len() implies (#[trigger] rest[p]).key_text()
        != (#[trigger] rest[q]).key_text() by {
        assert(rest[p] == records[p]);
        assert(rest[q] == records[q]);
    }
    if right < documents_of(rest).len() {
        lemma_versions_are_distinct(rest, left, right);
    } else {
        let place = lemma_document_is_record(rest, left);
        assert(rest[place] == records[place]);
        assert(records[place].key_text() != records[records.len() - 1].key_text());
    }
}

/// A listing does not depend on the order in which the table is read.
pub proof fn listing_ignores_read_order(
    table: Map<Seq<char>, RecordView>,
    left_records: Seq<RecordView>,
    right_records: Seq<RecordView>,
    scope: FixtureScope,
    kind: Option<DocumentKind>,
    left: Seq<SlotSummary>,
    right: Seq<SlotSummary>,
)
    requires
        reads(left_records, table),
        reads(right_records, table),
        is_listing(documents_of(left_records), scope, kind, left),
        is_listing(documents_of(right_records), scope, kind, right),
    ensures
        left == right,
{
    listing_reads_the_table(left_records, table, scope, kind, left);
    listing_reads_the_table(right_records, table, scope, kind, right);
    lemma_order_is_determined(
        left,
        right,
        |one: SlotSummary, other: SlotSummary| ranks_before(one, other),
    );
}

/// A store adds the summary of its document to the listings that cover it, and
/// nothing to any other. So a subscriber that starts from a listing and adds
/// each change that its subscription covers has the listing of every later
/// moment.
pub proof fn store_extends_the_listings_that_cover_it(
    table: Map<Seq<char>, RecordView>,
    before: Seq<RecordView>,
    document: DocumentView,
    after: Seq<RecordView>,
    scope: FixtureScope,
    kind: Option<DocumentKind>,
    old_values: Seq<SlotSummary>,
    new_values: Seq<SlotSummary>,
)
    requires
        reads(before, table),
        document.version.0 == next_version(documents_of(before), document.key),
        reads(after, written(table, RecordView::Document(document))),
        is_listing(documents_of(before), scope, kind, old_values),
        is_listing(documents_of(after), scope, kind, new_values),
    ensures
        forall|summary: SlotSummary| #[trigger]
            new_values.contains(summary) <==> old_values.contains(summary) || (covers(
                scope,
                kind,
                document.key,
            ) && summary == summary_of(document)),
        !old_values.contains(summary_of(document)),
        !covers(scope, kind, document.key) ==> new_values == old_values,
{
    let record = RecordView::Document(document);
    let new = written(table, record);
    store_then_fetch(table, before, document, after);
    listing_reads_the_table(before, table, scope, kind, old_values);
    listing_reads_the_table(after, new, scope, kind, new_values);
    assert(held(new, document.key, document.version) == Some(document));
    assert(held(table, document.key, document.version) is None);
    assert forall|summary: SlotSummary| #[trigger]
        new_values.contains(summary) <==> old_values.contains(summary) || (covers(
            scope,
            kind,
            document.key,
        ) && summary == summary_of(document)) by {
        if summary.key != document.key || summary.version != document.version {
            let probe = RecordView::Document(
                DocumentView {
                    key: summary.key,
                    version: summary.version,
                    hash: arbitrary(),
                    payload: arbitrary(),
                },
            );
            record_keys_tell_records_apart(record, probe);
            assert(held(new, summary.key, summary.version) == held(
                table,
                summary.key,
                summary.version,
            ));
        }
    }
    if !covers(scope, kind, document.key) {
        lemma_order_is_determined(
            new_values,
            old_values,
            |one: SlotSummary, other: SlotSummary| ranks_before(one, other),
        );
    }
}

} // verus!
