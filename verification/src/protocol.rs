//! The vocabulary of requests and replies.
//!
//! Every value here is plain data. A document's body and the reason why a
//! body is invalid are carried as archived bytes: nothing in this library
//! looks inside them.
use vstd::prelude::*;

use crate::bytes::{copied, same_bytes, same_digest};

verus! {

/// The fixture that a document, an allocator or a subscription belongs to.
#[derive(Clone, Copy, Debug, PartialEq, Eq, Structural)]
pub struct FixtureScope(pub u64);

/// The place of a document among those of its scope and kind.
#[derive(Clone, Copy, Debug, PartialEq, Eq, Structural)]
pub struct SlotIdentifier(pub u64);

/// The version of a document, counted from one.
#[derive(Clone, Copy, Debug, PartialEq, Eq, Structural)]
pub struct Version(pub u64);

/// A point in the engine's log.
#[derive(Clone, Copy, Debug, PartialEq, Eq, Structural)]
pub struct Snapshot(pub u64);

/// The subscription that a reply or an event belongs to.
#[derive(Clone, Copy, Debug, PartialEq, Eq, Structural)]
pub struct SubscriptionIdentifier(pub u64);

/// The local identity of a declared thing within its universe.
#[derive(Clone, Copy, Debug, PartialEq, Eq, Structural)]
pub struct TypeIdentity(pub u32);

/// The universe that one schema-whole was given.
#[derive(Clone, Copy, Debug, PartialEq, Eq, Structural)]
pub struct MintedUniverse(pub u32);

/// The six kinds of document.
#[derive(Clone, Copy, Debug, PartialEq, Eq, Structural)]
pub enum DocumentKind {
    TypeSchema,
    SignalContract,
    NexusRuntime,
    SemaStorage,
    Nomos,
    Logos,
}

/// What names a document, whatever its version.
#[derive(Clone, Copy, Debug, PartialEq, Eq, Structural)]
pub struct DocumentKey {
    pub scope: FixtureScope,
    pub kind: DocumentKind,
    pub slot: SlotIdentifier,
}

/// The content hash of a document's payload.
#[derive(Clone, Copy, Debug, Eq)]
pub struct ContentHash(pub [u8; 32]);

impl PartialEq for ContentHash {
    fn eq(&self, other: &ContentHash) -> (same: bool) {
        same_digest(&self.0, &other.0)
    }
}

impl vstd::std_specs::cmp::PartialEqSpecImpl for ContentHash {
    open spec fn obeys_eq_spec() -> bool {
        true
    }

    open spec fn eq_spec(&self, other: &ContentHash) -> bool {
        *self == *other
    }
}

/// A document's payload: its kind and its archived body.
#[derive(Clone, Debug, PartialEq, Eq)]
pub struct DocumentPayload {
    pub kind: DocumentKind,
    pub body: Vec<u8>,
}

/// The content of a [`DocumentPayload`].
pub ghost struct PayloadView {
    pub kind: DocumentKind,
    pub body: Seq<u8>,
}

impl View for DocumentPayload {
    type V = PayloadView;

    open spec fn view(&self) -> PayloadView {
        PayloadView { kind: self.kind, body: self.body@ }
    }
}

/// Why a payload's body is invalid, archived.
#[derive(Clone, Debug, PartialEq, Eq)]
pub struct DocumentViolation(pub Vec<u8>);

/// One stored version of a document.
#[derive(Clone, Debug, PartialEq, Eq)]
pub struct StoredDocument {
    pub key: DocumentKey,
    pub version: Version,
    pub hash: ContentHash,
    pub payload: DocumentPayload,
}

/// The content of a [`StoredDocument`].
pub ghost struct DocumentView {
    pub key: DocumentKey,
    pub version: Version,
    pub hash: ContentHash,
    pub payload: PayloadView,
}

impl View for StoredDocument {
    type V = DocumentView;

    open spec fn view(&self) -> DocumentView {
        DocumentView {
            key: self.key,
            version: self.version,
            hash: self.hash,
            payload: self.payload@,
        }
    }
}

/// A stored version without its payload.
#[derive(Clone, Copy, Debug, PartialEq, Eq)]
pub struct SlotSummary {
    pub key: DocumentKey,
    pub version: Version,
    pub hash: ContentHash,
}

/// What subscribers are told when a version is stored.
#[derive(Clone, Copy, Debug, PartialEq, Eq)]
pub struct ChangeEvent {
    pub subscription: SubscriptionIdentifier,
    pub snapshot: Snapshot,
    pub document: SlotSummary,
}

/// A run of identifiers handed out by an allocator.
#[derive(Clone, Copy, Debug, PartialEq, Eq, Structural)]
pub struct IdentifierBlock {
    pub first: u32,
    pub length: u32,
}

/// The name of a schema-whole.
#[derive(Debug, Eq)]
pub struct SchemaWholeHandle(pub Vec<u8>);

impl View for SchemaWholeHandle {
    type V = Seq<u8>;

    open spec fn view(&self) -> Seq<u8> {
        self.0@
    }
}

impl Clone for SchemaWholeHandle {
    fn clone(&self) -> (copy: SchemaWholeHandle)
        ensures
            copy@ == self@,
    {
        SchemaWholeHandle(copied(&self.0))
    }
}

impl PartialEq for SchemaWholeHandle {
    fn eq(&self, other: &SchemaWholeHandle) -> (same: bool) {
        same_bytes(self.0.as_slice(), other.0.as_slice())
    }
}

impl vstd::std_specs::cmp::PartialEqSpecImpl for SchemaWholeHandle {
    open spec fn obeys_eq_spec() -> bool {
        true
    }

    open spec fn eq_spec(&self, other: &SchemaWholeHandle) -> bool {
        self@ == other@
    }
}

/// The name under which a thing is declared within its schema-whole.
#[derive(Debug, Eq)]
pub struct DeclaredKey(pub Vec<u8>);

impl View for DeclaredKey {
    type V = Seq<u8>;

    open spec fn view(&self) -> Seq<u8> {
        self.0@
    }
}

impl Clone for DeclaredKey {
    fn clone(&self) -> (copy: DeclaredKey)
        ensures
            copy@ == self@,
    {
        DeclaredKey(copied(&self.0))
    }
}

impl PartialEq for DeclaredKey {
    fn eq(&self, other: &DeclaredKey) -> (same: bool) {
        same_bytes(self.0.as_slice(), other.0.as_slice())
    }
}

impl vstd::std_specs::cmp::PartialEqSpecImpl for DeclaredKey {
    open spec fn obeys_eq_spec() -> bool {
        true
    }

    open spec fn eq_spec(&self, other: &DeclaredKey) -> bool {
        self@ == other@
    }
}

/// The structural shape of a declared thing.
#[derive(Clone, Copy, Debug, Eq)]
pub struct DeclaredShape(pub [u8; 32]);

impl PartialEq for DeclaredShape {
    fn eq(&self, other: &DeclaredShape) -> (same: bool) {
        same_digest(&self.0, &other.0)
    }
}

impl vstd::std_specs::cmp::PartialEqSpecImpl for DeclaredShape {
    open spec fn obeys_eq_spec() -> bool {
        true
    }

    open spec fn eq_spec(&self, other: &DeclaredShape) -> bool {
        *self == *other
    }
}

/// How a declaration wants to come by its identity.
#[derive(Clone, Copy, Debug, PartialEq, Eq, Structural)]
pub enum IdentityIntent {
    /// Keep the identity that the key is bound to, or mint a fresh one.
    MintOrBind,
    /// Carry on an identity that was minted before, under this key.
    Continue(TypeIdentity),
}

/// One declaration of a schema-whole.
#[derive(Clone, Debug, PartialEq, Eq)]
pub struct DeclaredIdentity {
    pub key: DeclaredKey,
    pub shape: DeclaredShape,
    pub intent: IdentityIntent,
}

/// The content of a [`DeclaredIdentity`].
pub ghost struct DeclarationView {
    pub key: Seq<u8>,
    pub shape: DeclaredShape,
    pub intent: IdentityIntent,
}

impl View for DeclaredIdentity {
    type V = DeclarationView;

    open spec fn view(&self) -> DeclarationView {
        DeclarationView { key: self.key@, shape: self.shape, intent: self.intent }
    }
}

/// Whether an identity was minted or had been bound before.
#[derive(Clone, Copy, Debug, PartialEq, Eq, Structural)]
pub enum BindOutcome {
    Minted,
    Bound,
}

/// The identity that one declaration received.
#[derive(Clone, Debug, PartialEq, Eq)]
pub struct IdentityAssignment {
    pub key: DeclaredKey,
    pub identity: TypeIdentity,
    pub outcome: BindOutcome,
}

/// The content of an [`IdentityAssignment`].
pub ghost struct AssignmentView {
    pub key: Seq<u8>,
    pub identity: TypeIdentity,
    pub outcome: BindOutcome,
}

impl View for IdentityAssignment {
    type V = AssignmentView;

    open spec fn view(&self) -> AssignmentView {
        AssignmentView { key: self.key@, identity: self.identity, outcome: self.outcome }
    }
}

/// The universe of a schema-whole and the identities of its declarations.
#[derive(Clone, Debug, PartialEq, Eq)]
pub struct BoundIdentities {
    pub universe: MintedUniverse,
    pub assignments: Vec<IdentityAssignment>,
}

/// Why a request was turned down.
#[derive(Clone, Debug, PartialEq, Eq)]
pub enum Rejection {
    InvalidKind,
    InvalidDocument(DocumentViolation),
    IncompatibleWireVersion,
    CountZero,
    EmptyDeclarationSet,
    IdentityNeverMinted(TypeIdentity),
    IdentityRebindRejected {
        identity: TypeIdentity,
        bound_shape: DeclaredShape,
        attempted_shape: DeclaredShape,
    },
    Internal,
}

/// What a client may ask.
#[derive(Clone, Debug, PartialEq, Eq)]
pub enum Request {
    Store { key: DocumentKey, payload: DocumentPayload },
    Fetch { key: DocumentKey, version: Option<Version> },
    List { scope: FixtureScope, kind: Option<DocumentKind> },
    HashFetch { hash: ContentHash },
    Snapshot { scope: FixtureScope },
    Subscribe { scope: FixtureScope, kind: Option<DocumentKind> },
    AllocateIdentifiers { scope: FixtureScope, count: u32 },
    BindIdentities { whole: SchemaWholeHandle, declarations: Vec<DeclaredIdentity> },
}

/// What a client is answered.
#[derive(Clone, Debug, PartialEq, Eq)]
pub enum Reply {
    Stored(SlotSummary),
    Document(Option<StoredDocument>),
    Listed(Vec<SlotSummary>),
    Snapshotted(Snapshot),
    Subscribed { identifier: SubscriptionIdentifier, initial: Vec<SlotSummary> },
    IdentifiersAllocated(IdentifierBlock),
    IdentitiesBound(BoundIdentities),
    Rejected(Rejection),
    Event(ChangeEvent),
}

} // verus!
