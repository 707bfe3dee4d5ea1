//! Laws of record keys, told in words and numerals.
use vstd::prelude::*;

use crate::protocol::{DocumentKey, DocumentKind, Version};
use crate::records::{
    AuthorityRecord, StorageRecord, document_record_key, kind_tag, tag_of,
};
use crate::text::decimal;

verus! {

/// The kinds are numbered from zero to five, in the order of a listing.
pub proof fn kinds_are_numbered_in_order(kind: DocumentKind, tag: u8)
    requires
        call_ensures(kind_tag, (kind,), tag),
    ensures
        tag == tag_of(kind),
        tag < 6,
        0 == tag_of(DocumentKind::TypeSchema) < tag_of(DocumentKind::SignalContract) < tag_of(
            DocumentKind::NexusRuntime,
        ) < tag_of(DocumentKind::SemaStorage) < tag_of(DocumentKind::Nomos) < tag_of(
            DocumentKind::Logos,
        ),
{
}

/// A record's key spells out what the record is: `doc` with the scope, the number of the
/// kind, the slot and the version of a document, or `allocator` with the scope, each
/// behind a colon.
pub proof fn a_record_key_spells_out_its_record(record: StorageRecord, text: String)
    requires
        call_ensures(StorageRecord::record_key, (&record,), text),
    ensures
        match record {
            StorageRecord::Document(document) => text@ == "doc:"@ + decimal(
                document.key.scope.0 as nat,
            ) + seq![':'] + decimal(tag_of(document.key.kind) as nat) + seq![':'] + decimal(
                document.key.slot.0 as nat,
            ) + seq![':'] + decimal(document.version.0 as nat),
            StorageRecord::Allocator { scope, .. } => text@ == "allocator:"@ + decimal(
                scope.0 as nat,
            ),
        },
{
    match record {
        StorageRecord::Document(document) => {
            assert(text@ =~= "doc:"@ + decimal(document.key.scope.0 as nat) + seq![':'] + decimal(
                tag_of(document.key.kind) as nat,
            ) + seq![':'] + decimal(document.key.slot.0 as nat) + seq![':'] + decimal(
                document.version.0 as nat,
            ));
        },
        _ => {},
    }
}

/// The registry has one key, and the bindings of a universe have a key with its number.
pub proof fn an_authority_key_spells_out_its_record(record: AuthorityRecord, text: String)
    requires
        call_ensures(AuthorityRecord::record_key, (&record,), text),
    ensures
        match record {
            AuthorityRecord::UniverseRegistry(_) => text@ == "universe-registry"@,
            AuthorityRecord::UniverseState(state) => text@ == "universe-state:"@ + decimal(
                state.universe as nat,
            ),
        },
{
}

/// A version of a document has the key of its record.
pub proof fn a_version_has_the_key_of_its_record(
    key: DocumentKey,
    version: Version,
    text: String,
    record: StorageRecord,
    spelt: String,
)
    requires
        call_ensures(document_record_key, (&key, version), text),
        call_ensures(StorageRecord::record_key, (&record,), spelt),
        record matches StorageRecord::Document(document) && document.key == key
            && document.version == version,
    ensures
        text@ == spelt@,
{
}

} // verus!
