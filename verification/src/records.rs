//! The durable records and the keys under which an engine holds them.
use vstd::prelude::*;
use vstd::string::StringExecFns;

use crate::identity::{RegistryView, StateView, UniverseRegistry, UniverseState};
use crate::protocol::{
    DocumentKey, DocumentKind, DocumentView, FixtureScope, StoredDocument, Version,
};
use crate::tables::Keyed;
use crate::text::{
    decimal, decimal_is_injective, lemma_decimal_shape, lemma_split_at_colon, push_decimal,
};

verus! {

/// One record of the document table: a stored version, or the cursor of a
/// scope's identifier allocator.
#[derive(Clone, Debug, PartialEq, Eq)]
pub enum StorageRecord {
    Document(StoredDocument),
    Allocator { scope: FixtureScope, next: u32 },
}

/// The content of a [`StorageRecord`].
pub ghost enum RecordView {
    Document(DocumentView),
    Allocator { scope: FixtureScope, next: u32 },
}

impl View for StorageRecord {
    type V = RecordView;

    open spec fn view(&self) -> RecordView {
        match *self {
            StorageRecord::Document(document) => RecordView::Document(document@),
            StorageRecord::Allocator { scope, next } => RecordView::Allocator { scope, next },
        }
    }
}

/// The contents of records.
pub open spec fn record_views(records: Seq<StorageRecord>) -> Seq<RecordView> {
    records.map_values(|record: StorageRecord| record@)
}

/// The number that stands for a kind in record keys and in listings.
pub open spec fn tag_of(kind: DocumentKind) -> u8 {
    match kind {
        DocumentKind::TypeSchema => 0,
        DocumentKind::SignalContract => 1,
        DocumentKind::NexusRuntime => 2,
        DocumentKind::SemaStorage => 3,
        DocumentKind::Nomos => 4,
        DocumentKind::Logos => 5,
    }
}

/// The number that stands for a kind.
pub fn kind_tag(kind: DocumentKind) -> (tag: u8)
    ensures
        tag == tag_of(kind),
{
    match kind {
        DocumentKind::TypeSchema => 0,
        DocumentKind::SignalContract => 1,
        DocumentKind::NexusRuntime => 2,
        DocumentKind::SemaStorage => 3,
        DocumentKind::Nomos => 4,
        DocumentKind::Logos => 5,
    }
}

/// The record key of one version of a document: the scope, the kind's number,
/// the slot and the version, each after a colon.
pub open spec fn document_key_text(key: DocumentKey, version: Version) -> Seq<char> {
    "doc:"@ + (decimal(key.scope.0 as nat) + seq![':'] + (decimal(tag_of(key.kind) as nat) + seq![
        ':',
    ] + (decimal(key.slot.0 as nat) + seq![':'] + decimal(version.0 as nat))))
}

/// The record key of the allocator of a scope.
pub open spec fn allocator_key_text(scope: FixtureScope) -> Seq<char> {
    "allocator:"@ + decimal(scope.0 as nat)
}

impl Keyed for RecordView {
    open spec fn key_text(self) -> Seq<char> {
        match self {
            RecordView::Document(document) => document_key_text(document.key, document.version),
            RecordView::Allocator { scope, .. } => allocator_key_text(scope),
        }
    }
}

/// The record key of one version of a document.
pub fn document_record_key(key: &DocumentKey, version: Version) -> (text: String)
    ensures
        text@ == document_key_text(*key, version),
{
    proof {
        reveal_strlit(":");
    }
    let mut text: String = "doc:".to_string();
    push_decimal(&mut text, key.scope.0);
    text.append(":");
    push_decimal(&mut text, kind_tag(key.kind) as u64);
    text.append(":");
    push_decimal(&mut text, key.slot.0);
    text.append(":");
    push_decimal(&mut text, version.0);
    assert(text@ =~= document_key_text(*key, version));
    text
}

impl StorageRecord {
    /// The key under which the record is held.
    pub fn record_key(&self) -> (text: String)
        ensures
            text@ == self@.key_text(),
    {
        match self {
            StorageRecord::Document(document) => document_record_key(
                &document.key,
                document.version,
            ),
            StorageRecord::Allocator { scope, .. } => {
                let mut text: String = "allocator:".to_string();
                push_decimal(&mut text, scope.0);
                text
            },
        }
    }
}

/// Two kinds have the same number only if they are the same kind.
pub proof fn kind_tag_is_injective(left: DocumentKind, right: DocumentKind)
    requires
        tag_of(left) == tag_of(right),
    ensures
        left == right,
{
}

/// Two versions of documents have the same record key only if they are the
/// same version of the same document.
pub proof fn document_record_key_is_injective(
    left: DocumentKey,
    left_version: Version,
    right: DocumentKey,
    right_version: Version,
)
    requires
        document_key_text(left, left_version) == document_key_text(right, right_version),
    ensures
        left == right,
        left_version == right_version,
{
    reveal_strlit("doc:");
    let left_slot = decimal(left.slot.0 as nat);
    let right_slot = decimal(right.slot.0 as nat);
    let left_last = left_slot + seq![':'] + decimal(left_version.0 as nat);
    let right_last = right_slot + seq![':'] + decimal(right_version.0 as nat);
    let left_tag = decimal(tag_of(left.kind) as nat);
    let right_tag = decimal(tag_of(right.kind) as nat);
    let left_middle = left_tag + seq![':'] + left_last;
    let right_middle = right_tag + seq![':'] + right_last;
    let left_scope = decimal(left.scope.0 as nat);
    let right_scope = decimal(right.scope.0 as nat);
    let left_text = document_key_text(left, left_version);
    let right_text = document_key_text(right, right_version);
    assert(left_text.skip(4) =~= left_scope + seq![':'] + left_middle);
    assert(right_text.skip(4) =~= right_scope + seq![':'] + right_middle);
    lemma_decimal_shape(left.scope.0 as nat);
    lemma_decimal_shape(right.scope.0 as nat);
    lemma_split_at_colon(left_scope, left_middle, right_scope, right_middle);
    lemma_decimal_shape(tag_of(left.kind) as nat);
    lemma_decimal_shape(tag_of(right.kind) as nat);
    lemma_split_at_colon(left_tag, left_last, right_tag, right_last);
    lemma_decimal_shape(left.slot.0 as nat);
    lemma_decimal_shape(right.slot.0 as nat);
    lemma_split_at_colon(
        left_slot,
        decimal(left_version.0 as nat),
        right_slot,
        decimal(right_version.0 as nat),
    );
    decimal_is_injective(left.scope.0 as nat, right.scope.0 as nat);
    decimal_is_injective(tag_of(left.kind) as nat, tag_of(right.kind) as nat);
    decimal_is_injective(left.slot.0 as nat, right.slot.0 as nat);
    decimal_is_injective(left_version.0 as nat, right_version.0 as nat);
    kind_tag_is_injective(left.kind, right.kind);
}

/// Whether two records stand for the same thing: one version of a document,
/// or the allocator of one scope.
pub open spec fn same_subject(left: RecordView, right: RecordView) -> bool {
    match (left, right) {
        (RecordView::Document(one), RecordView::Document(other)) => one.key == other.key
            && one.version == other.version,
        (
            RecordView::Allocator { scope: one, .. },
            RecordView::Allocator { scope: other, .. },
        ) => one == other,
        _ => false,
    }
}

/// Two records share a record key exactly if they stand for the same thing.
/// In particular no document's key is an allocator's.
pub proof fn record_keys_tell_records_apart(left: RecordView, right: RecordView)
    ensures
        left.key_text() == right.key_text() <==> same_subject(left, right),
{
    if left.key_text() == right.key_text() {
        reveal_strlit("doc:");
        reveal_strlit("allocator:");
        let left_text = left.key_text();
        let right_text = right.key_text();
        assert(left_text[0] == right_text[0]);
        match (left, right) {
            (RecordView::Document(one), RecordView::Document(other)) => {
                document_record_key_is_injective(one.key, one.version, other.key, other.version);
            },
            (
                RecordView::Allocator { scope: one, .. },
                RecordView::Allocator { scope: other, .. },
            ) => {
                assert(left_text.skip(10) =~= decimal(one.0 as nat));
                assert(right_text.skip(10) =~= decimal(other.0 as nat));
                decimal_is_injective(one.0 as nat, other.0 as nat);
            },
            _ => {},
        }
    }
}

/// One record of the authority table.
#[derive(Clone, Debug, PartialEq, Eq)]
pub enum AuthorityRecord {
    /// Which schema-wholes have a universe.
    UniverseRegistry(UniverseRegistry),
    /// What is bound in one universe.
    UniverseState(UniverseState),
}

/// The content of an [`AuthorityRecord`].
pub ghost enum AuthorityView {
    UniverseRegistry(RegistryView),
    UniverseState(StateView),
}

impl View for AuthorityRecord {
    type V = AuthorityView;

    open spec fn view(&self) -> AuthorityView {
        match *self {
            AuthorityRecord::UniverseRegistry(registry) => AuthorityView::UniverseRegistry(
                registry@,
            ),
            AuthorityRecord::UniverseState(state) => AuthorityView::UniverseState(state@),
        }
    }
}

/// The contents of authority records.
pub open spec fn authority_views(records: Seq<AuthorityRecord>) -> Seq<AuthorityView> {
    records.map_values(|record: AuthorityRecord| record@)
}

/// The record key of the registry of universes.
pub open spec fn registry_key_text() -> Seq<char> {
    "universe-registry"@
}

/// The record key of the bindings of a universe.
pub open spec fn state_key_text(universe: u32) -> Seq<char> {
    "universe-state:"@ + decimal(universe as nat)
}

impl Keyed for AuthorityView {
    open spec fn key_text(self) -> Seq<char> {
        match self {
            AuthorityView::UniverseRegistry(_) => registry_key_text(),
            AuthorityView::UniverseState(state) => state_key_text(state.universe),
        }
    }
}

impl AuthorityRecord {
    /// The key under which the record is held.
    pub fn record_key(&self) -> (text: String)
        ensures
            text@ == self@.key_text(),
    {
        match self {
            AuthorityRecord::UniverseRegistry(_) => "universe-registry".to_string(),
            AuthorityRecord::UniverseState(state) => {
                let mut text: String = "universe-state:".to_string();
                push_decimal(&mut text, state.universe as u64);
                text
            },
        }
    }
}

/// The keys of two universes differ, and neither is the registry's.
pub proof fn authority_keys_tell_records_apart(left: u32, right: u32)
    ensures
        state_key_text(left) == state_key_text(right) <==> left == right,
        state_key_text(left) != registry_key_text(),
{
    reveal_strlit("universe-registry");
    reveal_strlit("universe-state:");
    assert(registry_key_text()[9] == 'r');
    assert(state_key_text(left)[9] == 's');
    if state_key_text(left) == state_key_text(right) {
        assert(state_key_text(left).skip(15) =~= decimal(left as nat));
        assert(state_key_text(right).skip(15) =~= decimal(right as nat));
        decimal_is_injective(left as nat, right as nat);
    }
}

} // verus!
