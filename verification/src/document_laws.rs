//! Laws of the document table: what a read gives back of a store.
use vstd::prelude::*;

use crate::allocator::cursor;
use crate::allocator_laws::{allocators_have_moved, cursor_in, cursor_reads_the_table};
use crate::documents::{
    documents_of, latest, latest_at, lemma_document_is_record, lemma_latest_present,
    lemma_record_is_document, next_version, under_hash, under_version,
};
use crate::protocol::{ContentHash, DocumentKey, DocumentView, FixtureScope, Version};
use crate::records::{
    RecordView, allocator_key_text, document_key_text, record_keys_tell_records_apart,
};
use crate::search::{lemma_position, position};
use crate::tables::{Keyed, lemma_read_position, reads, written};

verus! {

/// The version of a document that a table holds, if it holds it.
pub open spec fn held(
    table: Map<Seq<char>, RecordView>,
    key: DocumentKey,
    version: Version,
) -> Option<DocumentView> {
    if table.contains_key(document_key_text(key, version)) {
        Some(table[document_key_text(key, version)]->Document_0)
    } else {
        None
    }
}

/// Whether a document is the highest version that a table holds of it.
pub open spec fn highest_held(
    table: Map<Seq<char>, RecordView>,
    document: DocumentView,
) -> bool {
    &&& held(table, document.key, document.version) == Some(document)
    &&& forall|version: Version| #[trigger]
        held(table, document.key, version) is Some ==> version.0 <= document.version.0
}

/// What a table holds under a document's record key is that document.
pub proof fn lemma_held_is_document(
    records: Seq<RecordView>,
    table: Map<Seq<char>, RecordView>,
    key: DocumentKey,
    version: Version,
) -> (index: int)
    requires
        reads(records, table),
        held(table, key, version) is Some,
    ensures
        0 <= index < documents_of(records).len(),
        Some(documents_of(records)[index]) == held(table, key, version),
        documents_of(records)[index].key == key,
        documents_of(records)[index].version == version,
{
    let place = lemma_read_position(records, table, document_key_text(key, version));
    let probe = RecordView::Document(
        DocumentView { key, version, hash: arbitrary(), payload: arbitrary() },
    );
    record_keys_tell_records_apart(records[place], probe);
    lemma_record_is_document(records, place)
}

/// A document that was read is held under its key and version.
pub proof fn lemma_read_is_held(
    records: Seq<RecordView>,
    table: Map<Seq<char>, RecordView>,
    index: int,
)
    requires
        reads(records, table),
        0 <= index < documents_of(records).len(),
    ensures
        ({
            let document = documents_of(records)[index];
            held(table, document.key, document.version) == Some(document)
        }),
{
    let place = lemma_document_is_record(records, index);
    assert(table.contains_key(records[place].key_text()));
}

/// Fetching a version gives what the table holds of that version, in whatever
/// order the table is read.
pub proof fn fetch_reads_the_table(
    records: Seq<RecordView>,
    table: Map<Seq<char>, RecordView>,
    key: DocumentKey,
    version: Version,
)
    requires
        reads(records, table),
    ensures
        under_version(documents_of(records), key, version) == held(table, key, version),
{
    let documents = documents_of(records);
    let wanted = |document: DocumentView| document.key == key && document.version == version;
    lemma_position(documents, wanted);
    match position(documents, wanted) {
        Some(index) => {
            lemma_read_is_held(records, table, index);
        },
        None => {
            if held(table, key, version) is Some {
                let index = lemma_held_is_document(records, table, key, version);
                assert(!wanted(documents[index]));
            }
        },
    }
}

/// Fetching the latest version gives the highest version that the table holds,
/// in whatever order the table is read, and nothing if it holds none.
pub proof fn latest_reads_the_table(
    records: Seq<RecordView>,
    table: Map<Seq<char>, RecordView>,
    key: DocumentKey,
)
    requires
        reads(records, table),
    ensures
        match latest(documents_of(records), key) {
            Some(document) => document.key == key && highest_held(table, document),
            None => forall|version: Version| #[trigger] held(table, key, version) is None,
        },
{
    let documents = documents_of(records);
    match latest(documents, key) {
        Some(document) => {
            let chosen = choose|index: int| latest_at(documents, key, index);
            assert(documents[chosen].key == key);
            lemma_read_is_held(records, table, chosen);
            assert forall|version: Version| #[trigger] held(table, key, version) is Some implies
            version.0 <= document.version.0 by {
                let index = lemma_held_is_document(records, table, key, version);
                assert(documents[index].key == key);
            }
        },
        None => {
            assert forall|version: Version| #[trigger] held(table, key, version) is None by {
                if held(table, key, version) is Some {
                    let index = lemma_held_is_document(records, table, key, version);
                    lemma_latest_present(documents, key, index);
                }
            }
        },
    }
}

/// The highest version that a table holds of a document is its latest.
pub proof fn highest_held_is_latest(
    records: Seq<RecordView>,
    table: Map<Seq<char>, RecordView>,
    document: DocumentView,
)
    requires
        reads(records, table),
        highest_held(table, document),
    ensures
        latest(documents_of(records), document.key) == Some(document),
{
    latest_reads_the_table(records, table, document.key);
    assert(held(table, document.key, document.version) is Some);
    match latest(documents_of(records), document.key) {
        Some(other) => {
            assert(held(table, other.key, other.version) is Some);
            assert(other.version == document.version);
        },
        None => {},
    }
}

/// Fetching by content hash gives a held document with that hash, and nothing
/// only if no held document has it.
pub proof fn hash_fetch_reads_the_table(
    records: Seq<RecordView>,
    table: Map<Seq<char>, RecordView>,
    hash: ContentHash,
)
    requires
        reads(records, table),
    ensures
        match under_hash(documents_of(records), hash) {
            Some(document) => {
                &&& document.hash == hash
                &&& held(table, document.key, document.version) == Some(document)
            },
            None => forall|key: DocumentKey, version: Version|
                (#[trigger] held(table, key, version)) matches Some(document) ==> document.hash
                    != hash,
        },
{
    let documents = documents_of(records);
    let wanted = |document: DocumentView| document.hash == hash;
    lemma_position(documents, wanted);
    match position(documents, wanted) {
        Some(index) => {
            lemma_read_is_held(records, table, index);
        },
        None => {
            assert forall|key: DocumentKey, version: Version|
                (#[trigger] held(table, key, version)) matches Some(document) implies held(
                table,
                key,
                version,
            )->0.hash != hash by {
                let index = lemma_held_is_document(records, table, key, version);
                assert(!wanted(documents[index]));
            }
        },
    }
}

/// Storing a document adds one version to the table and disturbs no other: the
/// record key is new to the table, the stored version is what a fetch of it
/// and a fetch of the latest version give from then on, every other fetch
/// gives what it gave before, and so does every allocator.
pub proof fn store_then_fetch(
    table: Map<Seq<char>, RecordView>,
    before: Seq<RecordView>,
    document: DocumentView,
    after: Seq<RecordView>,
)
    requires
        reads(before, table),
        document.version.0 == next_version(documents_of(before), document.key),
        reads(after, written(table, RecordView::Document(document))),
    ensures
        !table.contains_key(RecordView::Document(document).key_text()),
        under_version(documents_of(after), document.key, document.version) == Some(document),
        latest(documents_of(after), document.key) == Some(document),
        next_version(documents_of(after), document.key) == document.version.0 + 1,
        forall|key: DocumentKey, version: Version|
            key != document.key || version != document.version ==> #[trigger] under_version(
                documents_of(after),
                key,
                version,
            ) == under_version(documents_of(before), key, version),
        forall|key: DocumentKey|
            key != document.key ==> #[trigger] latest(documents_of(after), key) == latest(
                documents_of(before),
                key,
            ),
        forall|scope: FixtureScope| #[trigger] cursor(after, scope) == cursor(before, scope),
{
    let record = RecordView::Document(document);
    let new = written(table, record);
    latest_reads_the_table(before, table, document.key);
    assert(held(table, document.key, document.version) is None) by {
        if held(table, document.key, document.version) is Some {
            assert(latest(documents_of(before), document.key) is Some);
        }
    }
    assert forall|key: DocumentKey, version: Version|
        key != document.key || version != document.version implies #[trigger] held(
        new,
        key,
        version,
    ) == held(table, key, version) by {
        let probe = RecordView::Document(
            DocumentView { key, version, hash: arbitrary(), payload: arbitrary() },
        );
        record_keys_tell_records_apart(record, probe);
    }
    assert(held(new, document.key, document.version) == Some(document));
    fetch_reads_the_table(after, new, document.key, document.version);
    assert(highest_held(new, document)) by {
        assert forall|version: Version| #[trigger]
            held(new, document.key, version) is Some implies version.0 <= document.version.0 by {
            if version != document.version {
                assert(held(table, document.key, version) is Some);
            }
        }
    }
    highest_held_is_latest(after, new, document);
    assert forall|key: DocumentKey, version: Version|
        key != document.key || version != document.version implies #[trigger] under_version(
        documents_of(after),
        key,
        version,
    ) == under_version(documents_of(before), key, version) by {
        fetch_reads_the_table(after, new, key, version);
        fetch_reads_the_table(before, table, key, version);
        assert(held(new, key, version) == held(table, key, version));
    }
    assert forall|key: DocumentKey| key != document.key implies #[trigger] latest(
        documents_of(after),
        key,
    ) == latest(documents_of(before), key) by {
        lemma_latest_follows_the_table(table, before, new, after, key);
    }
    assert forall|scope: FixtureScope| #[trigger] cursor(after, scope) == cursor(before, scope) by {
        cursor_reads_the_table(before, table, scope);
        cursor_reads_the_table(after, new, scope);
        record_keys_tell_records_apart(record, RecordView::Allocator { scope, next: 0 });
    }
}

/// Two tables that hold the same versions of a document have the same latest
/// version of it.
proof fn lemma_latest_follows_the_table(
    table: Map<Seq<char>, RecordView>,
    before: Seq<RecordView>,
    new: Map<Seq<char>, RecordView>,
    after: Seq<RecordView>,
    key: DocumentKey,
)
    requires
        reads(before, table),
        reads(after, new),
        forall|version: Version| #[trigger]
            held(new, key, version) == held(table, key, version),
    ensures
        latest(documents_of(after), key) == latest(documents_of(before), key),
{
    latest_reads_the_table(before, table, key);
    latest_reads_the_table(after, new, key);
    match latest(documents_of(before), key) {
        Some(document) => {
            assert(held(new, key, document.version) == Some(document));
            assert(highest_held(new, document)) by {
                assert forall|version: Version| #[trigger]
                    held(new, document.key, version) is Some implies version.0
                    <= document.version.0 by {
                    assert(held(table, document.key, version) is Some);
                }
            }
            highest_held_is_latest(after, new, document);
        },
        None => {
            match latest(documents_of(after), key) {
                Some(document) => {
                    assert(held(table, key, document.version) is Some);
                },
                None => {},
            }
        },
    }
}

/// Writing an allocator leaves every fetch as it was.
pub proof fn allocation_leaves_documents(
    table: Map<Seq<char>, RecordView>,
    before: Seq<RecordView>,
    scope: FixtureScope,
    next: u32,
    after: Seq<RecordView>,
)
    requires
        reads(before, table),
        reads(after, written(table, RecordView::Allocator { scope, next })),
    ensures
        forall|key: DocumentKey, version: Version| #[trigger]
            under_version(documents_of(after), key, version) == under_version(
                documents_of(before),
                key,
                version,
            ),
        forall|key: DocumentKey| #[trigger]
            latest(documents_of(after), key) == latest(documents_of(before), key),
{
    let record = RecordView::Allocator { scope, next };
    let new = written(table, record);
    assert forall|key: DocumentKey, version: Version| #[trigger]
        held(new, key, version) == held(table, key, version) by {
        let probe = RecordView::Document(
            DocumentView { key, version, hash: arbitrary(), payload: arbitrary() },
        );
        record_keys_tell_records_apart(record, probe);
    }
    assert forall|key: DocumentKey, version: Version| #[trigger]
        under_version(documents_of(after), key, version) == under_version(
            documents_of(before),
            key,
            version,
        ) by {
        fetch_reads_the_table(after, new, key, version);
        fetch_reads_the_table(before, table, key, version);
        assert(held(new, key, version) == held(table, key, version));
    }
    assert forall|key: DocumentKey| #[trigger]
        latest(documents_of(after), key) == latest(documents_of(before), key) by {
        lemma_latest_follows_the_table(table, before, new, after, key);
    }
}

/// Whether a table holds, of every document that it holds at all, each version
/// from one to the highest.
pub open spec fn versions_are_dense(table: Map<Seq<char>, RecordView>) -> bool {
    forall|key: DocumentKey, version: Version|
        (#[trigger] held(table, key, version)) is Some ==> {
            &&& version.0 >= 1
            &&& forall|earlier: Version|
                1 <= earlier.0 <= version.0 ==> #[trigger] held(table, key, earlier) is Some
        }
}

/// Every store keeps the versions of each document dense: no version is skipped
/// and none is lost.
pub proof fn store_keeps_versions_dense(
    table: Map<Seq<char>, RecordView>,
    before: Seq<RecordView>,
    document: DocumentView,
)
    requires
        reads(before, table),
        versions_are_dense(table),
        document.version.0 == next_version(documents_of(before), document.key),
    ensures
        versions_are_dense(written(table, RecordView::Document(document))),
{
    let record = RecordView::Document(document);
    let new = written(table, record);
    latest_reads_the_table(before, table, document.key);
    assert forall|key: DocumentKey, version: Version|
        key != document.key || version != document.version implies #[trigger] held(
        new,
        key,
        version,
    ) == held(table, key, version) by {
        let probe = RecordView::Document(
            DocumentView { key, version, hash: arbitrary(), payload: arbitrary() },
        );
        record_keys_tell_records_apart(record, probe);
    }
    assert(held(new, document.key, document.version) is Some);
    assert forall|key: DocumentKey, version: Version|
        (#[trigger] held(new, key, version)) is Some implies {
        &&& version.0 >= 1
        &&& forall|earlier: Version|
            1 <= earlier.0 <= version.0 ==> #[trigger] held(new, key, earlier) is Some
    } by {
        assert forall|earlier: Version| 1 <= earlier.0 <= version.0 implies #[trigger] held(
            new,
            key,
            earlier,
        ) is Some by {
            if key == document.key && version == document.version {
                if earlier != document.version {
                    let last = latest(documents_of(before), key)->0;
                    assert(held(table, key, last.version) is Some);
                    assert(held(table, key, earlier) is Some);
                }
            } else {
                assert(held(table, key, version) is Some);
                assert(held(table, key, earlier) is Some);
                if key == document.key && earlier == document.version {
                } else {
                    assert(held(new, key, earlier) == held(table, key, earlier));
                }
            }
        }
        if key != document.key || version != document.version {
            assert(held(table, key, version) is Some);
        }
    }
}

/// Whether a table holds dense versions, and only allocators that have handed
/// something out.
pub open spec fn documents_are_sound(table: Map<Seq<char>, RecordView>) -> bool {
    versions_are_dense(table) && allocators_have_moved(table)
}

/// An empty table is sound.
pub proof fn empty_documents_are_sound()
    ensures
        documents_are_sound(Map::empty()),
{
}

/// Every store keeps the document table sound.
pub proof fn stores_keep_the_documents_sound(
    table: Map<Seq<char>, RecordView>,
    before: Seq<RecordView>,
    document: DocumentView,
)
    requires
        reads(before, table),
        documents_are_sound(table),
        document.version.0 == next_version(documents_of(before), document.key),
    ensures
        documents_are_sound(written(table, RecordView::Document(document))),
{
    let record = RecordView::Document(document);
    let new = written(table, record);
    store_keeps_versions_dense(table, before, document);
    assert forall|scope: FixtureScope| new.contains_key(
        #[trigger] allocator_key_text(scope),
    ) implies cursor_in(new, scope) > 0 by {
        let probe = RecordView::Allocator { scope, next: 0 };
        record_keys_tell_records_apart(record, probe);
        assert(probe.key_text() == allocator_key_text(scope));
        assert(table.contains_key(allocator_key_text(scope)));
        assert(cursor_in(table, scope) > 0);
    }
}

/// Every allocation keeps the document table sound.
pub proof fn allocations_keep_the_documents_sound(
    table: Map<Seq<char>, RecordView>,
    before: Seq<RecordView>,
    scope: FixtureScope,
    count: u32,
)
    requires
        reads(before, table),
        documents_are_sound(table),
        count > 0,
        cursor(before, scope) + count <= u32::MAX,
    ensures
        documents_are_sound(
            written(
                table,
                RecordView::Allocator { scope, next: (cursor(before, scope) + count) as u32 },
            ),
        ),
{
    let next = (cursor(before, scope) + count) as u32;
    let record = RecordView::Allocator { scope, next };
    let new = written(table, record);
    assert forall|key: DocumentKey, version: Version| #[trigger]
        held(new, key, version) == held(table, key, version) by {
        let probe = RecordView::Document(
            DocumentView { key, version, hash: arbitrary(), payload: arbitrary() },
        );
        record_keys_tell_records_apart(record, probe);
    }
    assert forall|other: FixtureScope| new.contains_key(
        #[trigger] allocator_key_text(other),
    ) implies cursor_in(new, other) > 0 by {
        let probe = RecordView::Allocator { scope: other, next: 0 };
        record_keys_tell_records_apart(record, probe);
        assert(probe.key_text() == allocator_key_text(other));
        assert(record.key_text() == allocator_key_text(scope));
        if other != scope {
            assert(table.contains_key(allocator_key_text(other)));
            assert(cursor_in(table, other) > 0);
        }
    }
    assert forall|key: DocumentKey, version: Version|
        (#[trigger] held(new, key, version)) is Some implies {
        &&& version.0 >= 1
        &&& forall|earlier: Version|
            1 <= earlier.0 <= version.0 ==> #[trigger] held(new, key, earlier) is Some
    } by {
        assert(held(table, key, version) is Some);
        assert forall|earlier: Version| 1 <= earlier.0 <= version.0 implies #[trigger] held(
            new,
            key,
            earlier,
        ) is Some by {
            assert(held(table, key, earlier) is Some);
        }
    }
}

} // verus!
