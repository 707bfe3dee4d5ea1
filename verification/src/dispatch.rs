//! Requests as they pass through the storage plane.
//!
//! A request alternates between decisions and outside work: a read of a table,
//! a check of a payload, a write. [`begin`] takes the first decision. While a
//! request awaits outside work it is a [`Stage`]; [`resume`] takes the outcome
//! of that work and decides how the request goes on.
use vstd::prelude::*;

use crate::allocator::{Allocation, allocate, cursor};
use crate::authority::{
    BindCommit, BindDecision, BindPlan, bind_plan, decide_binding, write_views,
};
use crate::documents::{
    documents, documents_of, fetch, fetch_by_hash, fetched, found_view, has_next_version, is_listing,
    list, next_version, under_hash, version_to_store,
};
use crate::error::Error;
use crate::identity::{assignment_views, declaration_views};
use crate::protocol::{
    ChangeEvent, ContentHash, DeclaredIdentity, DocumentKey, DocumentKind, DocumentPayload,
    DocumentViolation, FixtureScope, IdentifierBlock, MintedUniverse, Rejection, Reply, Request,
    SchemaWholeHandle, SlotSummary, Snapshot, StoredDocument, SubscriptionIdentifier, Version,
};
use crate::records::{AuthorityRecord, RecordView, StorageRecord, authority_views, record_views};

verus! {

/// What a request wants to know from the document table.
#[derive(Debug)]
pub enum Inquiry {
    /// The version under which to store a payload.
    Store { key: DocumentKey, payload: DocumentPayload },
    /// One version of a document, or its latest.
    Fetch { key: DocumentKey, version: Option<Version> },
    /// The listing of a scope.
    List { scope: FixtureScope, kind: Option<DocumentKind> },
    /// The document with a content hash.
    HashFetch { hash: ContentHash },
    /// The listing that a subscription starts from.
    Subscribe { scope: FixtureScope, kind: Option<DocumentKind> },
    /// Where a scope's allocator stands.
    Allocate { scope: FixtureScope, count: u32 },
}

/// The outside work that a request awaits.
#[derive(Debug)]
pub enum Stage {
    /// The payload is to be validated.
    Validate { key: DocumentKey, payload: DocumentPayload },
    /// The document table is to be read.
    ReadRecords(Inquiry),
    /// The content hash of the payload is to be computed.
    HashPayload { key: DocumentKey, version: Version, payload: DocumentPayload },
    /// The document is to be added to the document table.
    AssertDocument(StoredDocument),
    /// The allocator is to be written to the document table: added where it is
    /// fresh, else replaced.
    WriteAllocator(Allocation),
    /// The latest snapshot is to be taken.
    TakeSnapshot,
    /// The authority table is to be read.
    ReadAuthority { whole: SchemaWholeHandle, declarations: Vec<DeclaredIdentity> },
    /// The writes are to be made to the authority table as one commit.
    CommitAuthority(BindCommit),
}

/// The outcome of outside work. A failure carries its message.
#[derive(Debug)]
pub enum Event {
    /// A payload was validated.
    Validated(Result<(), DocumentViolation>),
    /// The document table was read.
    Records(Result<Vec<StorageRecord>, String>),
    /// The content hash of a payload was computed.
    Hashed(Result<ContentHash, String>),
    /// A document was added, or a snapshot was taken.
    Stamped(Result<Snapshot, String>),
    /// An allocator was written, or a commit was made.
    Written(Result<(), String>),
    /// The authority table was read.
    Authority(Result<Vec<AuthorityRecord>, String>),
}

/// How a request goes on.
#[derive(Debug)]
pub enum Step {
    /// It awaits outside work.
    Await(Stage),
    /// It is answered, and subscribers are told of what changed.
    Done { reply: Reply, change: Option<ChangeEvent> },
    /// It fails without an answer.
    Failed(Error),
}

/// A reply that changes nothing.
pub open spec fn answered(reply: Reply) -> Step {
    Step::Done { reply, change: None }
}

/// The first decision on a request: a kind that is not the payload's, a count of
/// zero and an empty set of declarations are turned down before any work.
pub open spec fn begun(request: Request) -> Step {
    match request {
        Request::Store { key, payload } => if key.kind != payload.kind {
            answered(Reply::Rejected(Rejection::InvalidKind))
        } else {
            Step::Await(Stage::Validate { key, payload })
        },
        Request::Fetch { key, version } => Step::Await(
            Stage::ReadRecords(Inquiry::Fetch { key, version }),
        ),
        Request::List { scope, kind } => Step::Await(
            Stage::ReadRecords(Inquiry::List { scope, kind }),
        ),
        Request::HashFetch { hash } => Step::Await(
            Stage::ReadRecords(Inquiry::HashFetch { hash }),
        ),
        Request::Snapshot { .. } => Step::Await(Stage::TakeSnapshot),
        Request::Subscribe { scope, kind } => Step::Await(
            Stage::ReadRecords(Inquiry::Subscribe { scope, kind }),
        ),
        Request::AllocateIdentifiers { scope, count } => if count == 0 {
            answered(Reply::Rejected(Rejection::CountZero))
        } else {
            Step::Await(Stage::ReadRecords(Inquiry::Allocate { scope, count }))
        },
        Request::BindIdentities { whole, declarations } => if declarations@.len() == 0 {
            answered(Reply::Rejected(Rejection::EmptyDeclarationSet))
        } else {
            Step::Await(Stage::ReadAuthority { whole, declarations })
        },
    }
}

/// Takes the first decision on a request.
pub fn begin(request: Request) -> (step: Step)
    ensures
        step == begun(request),
{
    match request {
        Request::Store { key, payload } => {
            if key.kind != payload.kind {
                return Step::Done { reply: Reply::Rejected(Rejection::InvalidKind), change: None };
            }
            Step::Await(Stage::Validate { key, payload })
        },
        Request::Fetch { key, version } => Step::Await(
            Stage::ReadRecords(Inquiry::Fetch { key, version }),
        ),
        Request::List { scope, kind } => Step::Await(
            Stage::ReadRecords(Inquiry::List { scope, kind }),
        ),
        Request::HashFetch { hash } => Step::Await(
            Stage::ReadRecords(Inquiry::HashFetch { hash }),
        ),
        Request::Snapshot { .. } => Step::Await(Stage::TakeSnapshot),
        Request::Subscribe { scope, kind } => Step::Await(
            Stage::ReadRecords(Inquiry::Subscribe { scope, kind }),
        ),
        Request::AllocateIdentifiers { scope, count } => {
            if count == 0 {
                return Step::Done { reply: Reply::Rejected(Rejection::CountZero), change: None };
            }
            Step::Await(Stage::ReadRecords(Inquiry::Allocate { scope, count }))
        },
        Request::BindIdentities { whole, declarations } => {
            if declarations.len() == 0 {
                return Step::Done {
                    reply: Reply::Rejected(Rejection::EmptyDeclarationSet),
                    change: None,
                };
            }
            Step::Await(Stage::ReadAuthority { whole, declarations })
        },
    }
}

impl Stage {
    /// Whether the awaited work writes to a table.
    pub open spec fn writes(self) -> bool {
        self is AssertDocument || self is WriteAllocator || self is CommitAuthority
    }

    /// How many pieces of outside work the request awaits at most.
    pub open spec fn work_left(self) -> nat {
        match self {
            Stage::Validate { .. } => 4,
            Stage::ReadRecords(Inquiry::Store { .. }) => 3,
            Stage::HashPayload { .. } => 2,
            Stage::ReadRecords(Inquiry::Allocate { .. }) => 2,
            Stage::ReadAuthority { .. } => 2,
            _ => 1,
        }
    }

    /// Whether an outcome is one of the awaited work. A document whose latest
    /// version is the last number cannot be stored again.
    pub open spec fn awaits(self, event: Event) -> bool {
        match self {
            Stage::Validate { .. } => event is Validated,
            Stage::ReadRecords(inquiry) => {
                &&& event matches Event::Records(read)
                &&& inquiry matches Inquiry::Store { key, .. } ==> (read matches Ok(records)
                    ==> next_version(documents_of(record_views(records@)), key) <= u64::MAX)
            },
            Stage::HashPayload { .. } => event is Hashed,
            Stage::AssertDocument(_) => event is Stamped,
            Stage::WriteAllocator(_) => event is Written,
            Stage::TakeSnapshot => event is Stamped,
            Stage::ReadAuthority { .. } => event is Authority,
            Stage::CommitAuthority(_) => event is Written,
        }
    }
}

impl Stage {
    /// Whether an outcome is one that the request can go on with.
    pub fn is_awaiting(&self, event: &Event) -> (awaiting: bool)
        ensures
            awaiting == self.awaits(*event),
    {
        match (self, event) {
            (Stage::Validate { .. }, Event::Validated(_)) => true,
            (Stage::ReadRecords(Inquiry::Store { key, .. }), Event::Records(Ok(records))) =>
                has_next_version(records, key),
            (Stage::ReadRecords(_), Event::Records(_)) => true,
            (Stage::HashPayload { .. }, Event::Hashed(_)) => true,
            (Stage::AssertDocument(_), Event::Stamped(_)) => true,
            (Stage::WriteAllocator(_), Event::Written(_)) => true,
            (Stage::TakeSnapshot, Event::Stamped(_)) => true,
            (Stage::ReadAuthority { .. }, Event::Authority(_)) => true,
            (Stage::CommitAuthority(_), Event::Written(_)) => true,
            _ => false,
        }
    }
}

/// A failure of the engine.
pub open spec fn engine_failure(message: String) -> Step {
    Step::Failed(Error::Storage(message))
}

/// What is answered once a document is stored.
pub open spec fn stored(document: StoredDocument, snapshot: Snapshot) -> Step {
    let summary = SlotSummary {
        key: document.key,
        version: document.version,
        hash: document.hash,
    };
    Step::Done {
        reply: Reply::Stored(summary),
        change: Some(
            ChangeEvent { subscription: SubscriptionIdentifier(0), snapshot, document: summary },
        ),
    }
}

/// How an inquiry goes on, given what the document table holds.
pub open spec fn inquired(inquiry: Inquiry, records: Seq<RecordView>, step: Step) -> bool {
    match inquiry {
        Inquiry::Store { key, payload } => {
            &&& step matches Step::Await(Stage::HashPayload { key: k, version, payload: p })
            &&& k == key
            &&& p == payload
            &&& version.0 == next_version(documents_of(records), key)
        },
        Inquiry::Fetch { key, version } => {
            &&& step matches Step::Done { reply: Reply::Document(found), change: None }
            &&& found_view(found) == fetched(documents_of(records), key, version)
        },
        Inquiry::List { scope, kind } => {
            &&& step matches Step::Done { reply: Reply::Listed(values), change: None }
            &&& is_listing(documents_of(records), scope, kind, values@)
        },
        Inquiry::HashFetch { hash } => {
            &&& step matches Step::Done { reply: Reply::Document(found), change: None }
            &&& found_view(found) == under_hash(documents_of(records), hash)
        },
        Inquiry::Subscribe { scope, kind } => {
            &&& step matches Step::Done {
                reply: Reply::Subscribed { identifier, initial },
                change: None,
            }
            &&& identifier == SubscriptionIdentifier(0)
            &&& is_listing(documents_of(records), scope, kind, initial@)
        },
        Inquiry::Allocate { scope, count } => {
            let current = cursor(records, scope);
            if current + count <= u32::MAX {
                &&& step matches Step::Await(Stage::WriteAllocator(allocation))
                &&& allocation.record@ == (RecordView::Allocator {
                    scope,
                    next: (current + count) as u32,
                })
                &&& allocation.fresh == (current == 0)
                &&& allocation.block == (IdentifierBlock { first: current, length: count })
            } else {
                &&& step matches Step::Failed(Error::Storage(message))
                &&& message@ == "identifier overflow"@
            }
        },
    }
}

/// How the binding of a schema-whole goes on once its plan is made.
pub open spec fn planned(plan: BindPlan, step: Step) -> bool {
    match plan {
        BindPlan::Exhausted => {
            &&& step matches Step::Failed(Error::Storage(message))
            &&& message@ == "universe identifier space exhausted"@
        },
        BindPlan::Rejected(rejection) => step == answered(Reply::Rejected(rejection)),
        BindPlan::Commit { writes, universe, assignments } => {
            &&& step matches Step::Await(Stage::CommitAuthority(commit))
            &&& write_views(commit.writes@) == writes
            &&& commit.bound.universe == MintedUniverse(universe)
            &&& assignment_views(commit.bound.assignments@) == assignments
        },
    }
}

/// How a request goes on from a stage, given the outcome of the awaited work.
pub open spec fn resumed(stage: Stage, event: Event, step: Step) -> bool {
    match (stage, event) {
        (Stage::Validate { key, payload }, Event::Validated(validated)) => match validated {
            Ok(_) => step == Step::Await(Stage::ReadRecords(Inquiry::Store { key, payload })),
            Err(violation) => step == answered(
                Reply::Rejected(Rejection::InvalidDocument(violation)),
            ),
        },
        (Stage::ReadRecords(inquiry), Event::Records(read)) => match read {
            Ok(records) => inquired(inquiry, record_views(records@), step),
            Err(message) => step == engine_failure(message),
        },
        (Stage::HashPayload { key, version, payload }, Event::Hashed(hashed)) => match hashed {
            Ok(hash) => step == Step::Await(
                Stage::AssertDocument(StoredDocument { key, version, hash, payload }),
            ),
            Err(message) => step == engine_failure(message),
        },
        (Stage::AssertDocument(document), Event::Stamped(stamped)) => match stamped {
            Ok(snapshot) => step == stored(document, snapshot),
            Err(message) => step == engine_failure(message),
        },
        (Stage::WriteAllocator(allocation), Event::Written(written)) => match written {
            Ok(_) => step == answered(Reply::IdentifiersAllocated(allocation.block)),
            Err(message) => step == engine_failure(message),
        },
        (Stage::TakeSnapshot, Event::Stamped(stamped)) => match stamped {
            Ok(snapshot) => step == answered(Reply::Snapshotted(snapshot)),
            Err(message) => step == engine_failure(message),
        },
        (Stage::ReadAuthority { whole, declarations }, Event::Authority(read)) => match read {
            Ok(records) => planned(
                bind_plan(authority_views(records@), whole@, declaration_views(declarations@)),
                step,
            ),
            Err(message) => step == engine_failure(message),
        },
        (Stage::CommitAuthority(commit), Event::Written(written)) => match written {
            Ok(_) => step == answered(Reply::IdentitiesBound(commit.bound)),
            Err(message) => step == engine_failure(message),
        },
        _ => false,
    }
}

fn settle_inquiry(inquiry: Inquiry, records: Vec<StorageRecord>) -> (step: Step)
    requires
        inquiry matches Inquiry::Store { key, .. } ==> next_version(
            documents_of(record_views(records@)),
            key,
        ) <= u64::MAX,
    ensures
        inquired(inquiry, record_views(records@), step),
{
    match inquiry {
        Inquiry::Store { key, payload } => {
            let version = version_to_store(&documents(records), &key);
            Step::Await(Stage::HashPayload { key, version, payload })
        },
        Inquiry::Fetch { key, version } => Step::Done {
            reply: Reply::Document(fetch(documents(records), &key, version)),
            change: None,
        },
        Inquiry::List { scope, kind } => Step::Done {
            reply: Reply::Listed(list(&documents(records), scope, kind)),
            change: None,
        },
        Inquiry::HashFetch { hash } => Step::Done {
            reply: Reply::Document(fetch_by_hash(documents(records), &hash)),
            change: None,
        },
        Inquiry::Subscribe { scope, kind } => Step::Done {
            reply: Reply::Subscribed {
                identifier: SubscriptionIdentifier(0),
                initial: list(&documents(records), scope, kind),
            },
            change: None,
        },
        Inquiry::Allocate { scope, count } => match allocate(&records, scope, count) {
            Ok(allocation) => Step::Await(Stage::WriteAllocator(allocation)),
            Err(error) => Step::Failed(error),
        },
    }
}

fn settle_stored(document: StoredDocument, snapshot: Snapshot) -> (step: Step)
    ensures
        step == stored(document, snapshot),
{
    let summary = SlotSummary {
        key: document.key,
        version: document.version,
        hash: document.hash,
    };
    Step::Done {
        reply: Reply::Stored(summary),
        change: Some(
            ChangeEvent { subscription: SubscriptionIdentifier(0), snapshot, document: summary },
        ),
    }
}

fn settle_binding(decision: BindDecision) -> (step: Step)
    ensures
        match decision {
            BindDecision::Commit(commit) => step == Step::Await(Stage::CommitAuthority(commit)),
            BindDecision::Rejected(rejection) => step == answered(Reply::Rejected(rejection)),
            BindDecision::Failed(error) => step == Step::Failed(error),
        },
{
    match decision {
        BindDecision::Commit(commit) => Step::Await(Stage::CommitAuthority(commit)),
        BindDecision::Rejected(rejection) => Step::Done {
            reply: Reply::Rejected(rejection),
            change: None,
        },
        BindDecision::Failed(error) => Step::Failed(error),
    }
}

/// Decides how a request goes on from a stage, given the outcome of the awaited
/// work. Each piece of work brings the request nearer to its end.
pub fn resume(stage: Stage, event: Event) -> (step: Step)
    requires
        stage.awaits(event),
    ensures
        resumed(stage, event, step),
        step matches Step::Await(next) ==> next.work_left() < stage.work_left(),
{
    match (stage, event) {
        (Stage::Validate { key, payload }, Event::Validated(validated)) => match validated {
            Ok(_) => Step::Await(Stage::ReadRecords(Inquiry::Store { key, payload })),
            Err(violation) => Step::Done {
                reply: Reply::Rejected(Rejection::InvalidDocument(violation)),
                change: None,
            },
        },
        (Stage::ReadRecords(inquiry), Event::Records(read)) => match read {
            Ok(records) => settle_inquiry(inquiry, records),
            Err(message) => Step::Failed(Error::Storage(message)),
        },
        (Stage::HashPayload { key, version, payload }, Event::Hashed(hashed)) => match hashed {
            Ok(hash) => Step::Await(
                Stage::AssertDocument(StoredDocument { key, version, hash, payload }),
            ),
            Err(message) => Step::Failed(Error::Storage(message)),
        },
        (Stage::AssertDocument(document), Event::Stamped(stamped)) => match stamped {
            Ok(snapshot) => settle_stored(document, snapshot),
            Err(message) => Step::Failed(Error::Storage(message)),
        },
        (Stage::WriteAllocator(allocation), Event::Written(written)) => match written {
            Ok(_) => Step::Done {
                reply: Reply::IdentifiersAllocated(allocation.block),
                change: None,
            },
            Err(message) => Step::Failed(Error::Storage(message)),
        },
        (Stage::TakeSnapshot, Event::Stamped(stamped)) => match stamped {
            Ok(snapshot) => Step::Done { reply: Reply::Snapshotted(snapshot), change: None },
            Err(message) => Step::Failed(Error::Storage(message)),
        },
        (Stage::ReadAuthority { whole, declarations }, Event::Authority(read)) => match read {
            Ok(records) => settle_binding(decide_binding(records, &whole, &declarations)),
            Err(message) => Step::Failed(Error::Storage(message)),
        },
        (Stage::CommitAuthority(commit), Event::Written(written)) => match written {
            Ok(_) => Step::Done { reply: Reply::IdentitiesBound(commit.bound), change: None },
            Err(message) => Step::Failed(Error::Storage(message)),
        },
        _ => vstd::pervasive::unreached(),
    }
}

} // verus!
