//! Laws of histories: what holds of two requests whatever was served between
//! them.
use vstd::prelude::*;

use crate::allocator::cursor;
use crate::allocator_laws::{cursor_in, cursor_reads_the_table};
use crate::authority::{AuthorityWriteView, BindPlan, bind_plan, state_or_empty};
use crate::authority_laws::{
    authority_is_sound, binding_leaves_alone_what_it_does_not_name, bound_keys_stand_in_the_table,
    commits_keep_the_authority_sound, committed, identity_in, state_held, universe_in,
    universes_are_never_shared,
};
use crate::dispatch::Step;
use crate::document_laws::{
    allocations_keep_the_documents_sound, documents_are_sound, held, latest_reads_the_table,
    stores_keep_the_documents_sound,
};
use crate::documents::{documents_of, next_version};
use crate::history::{
    Served, Tables, answers_fit_the_tables, is_answered, is_binding, is_history, tables_after,
};
use crate::identity::{assignment_views, declaration_views};
use crate::identity_laws::leave_alone;
use crate::protocol::{
    BindOutcome, BoundIdentities, DeclaredIdentity, DocumentKey, DocumentPayload, DocumentView,
    FixtureScope, IdentifierBlock, IdentityIntent, Reply, Request, SchemaWholeHandle, SlotSummary,
    StoredDocument, Version,
};
use crate::records::{
    AuthorityView, RecordView, allocator_key_text, record_keys_tell_records_apart,
};
use crate::tables::{Keyed, reads};

verus! {

impl Served {
    /// What the request was answered, if it was.
    pub open spec fn reply(self) -> Option<Reply> {
        match self.step {
            Step::Done { reply, .. } => Some(reply),
            _ => None,
        }
    }

    /// How many identifiers of a scope the request was answered with.
    pub open spec fn handed_out(self, scope: FixtureScope) -> nat {
        match (self.request, self.reply()) {
            (
                Request::AllocateIdentifiers { scope: asked, count },
                Some(Reply::IdentifiersAllocated(_)),
            ) => if asked == scope {
                count as nat
            } else {
                0
            },
            _ => 0,
        }
    }

    /// Whether the request may have parted a key of a schema-whole from its
    /// identity: it was answered with identities of that whole, and one of its
    /// declarations continued another identity under the key, or the identity
    /// under another key.
    pub open spec fn disturbs(self, whole: Seq<u8>, key: Seq<u8>, identity: u32) -> bool {
        &&& self.request matches Request::BindIdentities { whole: bound, declarations }
        &&& self.reply() matches Some(Reply::IdentitiesBound(_))
        &&& bound@ == whole
        &&& !leave_alone(declaration_views(declarations@), key, identity)
    }
}

/// How many identifiers of a scope the first requests of a history were answered
/// with.
pub open spec fn handed_out(history: Seq<Served>, scope: FixtureScope, count: int) -> nat
    decreases count,
{
    if count <= 0 {
        0
    } else {
        handed_out(history, scope, count - 1) + history[count - 1].handed_out(scope)
    }
}

/// Whether both tables are sound.
pub open spec fn tables_are_sound(tables: Tables) -> bool {
    documents_are_sound(tables.records) && authority_is_sound(tables.authority)
}

/// Each request of a history is answered as its effect on the tables has it.
proof fn lemma_served(start: Tables, history: Seq<Served>, index: int)
    requires
        is_history(start, history),
        0 <= index < history.len(),
    ensures
        is_answered(
            tables_after(start, history, index),
            history[index].request,
            tables_after(start, history, index + 1),
            history[index].step,
        ),
{
    answers_fit_the_tables(
        tables_after(start, history, index),
        history[index].request,
        history[index].work,
        history[index].tables,
        history[index].step,
    );
}

/// A table does not hold the version that the next store of a document receives.
proof fn lemma_next_version_is_new(
    table: Map<Seq<char>, RecordView>,
    records: Seq<RecordView>,
    key: DocumentKey,
    version: Version,
)
    requires
        reads(records, table),
        version.0 == next_version(documents_of(records), key),
    ensures
        held(table, key, version) is None,
{
    latest_reads_the_table(records, table, key);
}

/// One request keeps every version that the table holds.
proof fn lemma_request_keeps_version(
    before: Tables,
    request: Request,
    after: Tables,
    last: Step,
    key: DocumentKey,
    version: Version,
)
    requires
        is_answered(before, request, after, last),
        held(before.records, key, version) is Some,
    ensures
        held(after.records, key, version) == held(before.records, key, version),
{
    let probe = RecordView::Document(
        DocumentView { key, version, hash: arbitrary(), payload: arbitrary() },
    );
    match last {
        Step::Done { reply: Reply::Stored(summary), .. } => {
            let records = choose|records: Seq<RecordView>| #[trigger]
                reads(records, before.records) && summary.version.0 == next_version(
                    documents_of(records),
                    summary.key,
                );
            lemma_next_version_is_new(before.records, records, summary.key, summary.version);
            let stored = RecordView::Document(
                DocumentView {
                    key: summary.key,
                    version: summary.version,
                    hash: summary.hash,
                    payload: request->Store_payload@,
                },
            );
            record_keys_tell_records_apart(stored, probe);
        },
        Step::Done { reply: Reply::IdentifiersAllocated(block), .. } => {
            let scope = request->AllocateIdentifiers_scope;
            record_keys_tell_records_apart(RecordView::Allocator { scope, next: 0 }, probe);
            assert(RecordView::Allocator { scope, next: 0 }.key_text() == allocator_key_text(scope));
        },
        _ => {},
    }
}

/// A version that is stored is kept: whatever requests are served, the table goes
/// on holding it unchanged.
pub proof fn stored_versions_are_kept(
    start: Tables,
    history: Seq<Served>,
    from: int,
    to: int,
    key: DocumentKey,
    version: Version,
)
    requires
        is_history(start, history),
        0 <= from <= to <= history.len(),
        held(tables_after(start, history, from).records, key, version) is Some,
    ensures
        held(tables_after(start, history, to).records, key, version) == held(
            tables_after(start, history, from).records,
            key,
            version,
        ),
    decreases to - from,
{
    if from < to {
        stored_versions_are_kept(start, history, from, to - 1, key, version);
        lemma_served(start, history, to - 1);
        lemma_request_keeps_version(
            tables_after(start, history, to - 1),
            history[to - 1].request,
            tables_after(start, history, to),
            history[to - 1].step,
            key,
            version,
        );
    }
}

/// Whatever requests are served between a store and a fetch: a fetch of the stored
/// version gives back the payload that was stored and the hash that the store was
/// answered with, and a fetch of the latest version gives that version or a later
/// one.
pub proof fn a_stored_version_is_fetched_back_ever_after(
    start: Tables,
    history: Seq<Served>,
    earlier: int,
    later: int,
    key: DocumentKey,
    payload: DocumentPayload,
    summary: SlotSummary,
    version: Option<Version>,
    found: Option<StoredDocument>,
)
    requires
        is_history(start, history),
        0 <= earlier < later < history.len(),
        history[earlier].request == (Request::Store { key, payload }),
        history[earlier].reply() == Some(Reply::Stored(summary)),
        history[later].request == (Request::Fetch { key, version }),
        history[later].reply() == Some(Reply::Document(found)),
        version matches Some(exact) ==> exact == summary.version,
    ensures
        found matches Some(document) && {
            &&& document.key == key
            &&& version is Some ==> document@ == (DocumentView {
                key,
                version: summary.version,
                hash: summary.hash,
                payload: payload@,
            })
            &&& version is None ==> document.version.0 >= summary.version.0
        },
{
    lemma_served(start, history, earlier);
    lemma_served(start, history, later);
    let table = tables_after(start, history, later).records;
    stored_versions_are_kept(start, history, earlier + 1, later, key, summary.version);
    assert(held(table, key, summary.version) is Some);
}

/// One request moves the cursor of a scope past the identifiers that it is
/// answered with, and no other cursor.
proof fn lemma_request_moves_cursor(
    before: Tables,
    served: Served,
    after: Tables,
    scope: FixtureScope,
)
    requires
        is_answered(before, served.request, after, served.step),
    ensures
        cursor_in(after.records, scope) == cursor_in(before.records, scope) + served.handed_out(
            scope,
        ),
        served.reply() matches Some(Reply::IdentifiersAllocated(block)) ==> (
        served.request matches Request::AllocateIdentifiers { scope: asked, count } && block.first
            == cursor_in(before.records, asked) && block.length == count),
{
    let probe = RecordView::Allocator { scope, next: 0 };
    assert(probe.key_text() == allocator_key_text(scope));
    match served.step {
        Step::Done { reply: Reply::Stored(summary), .. } => {
            let stored = RecordView::Document(
                DocumentView {
                    key: summary.key,
                    version: summary.version,
                    hash: summary.hash,
                    payload: served.request->Store_payload@,
                },
            );
            record_keys_tell_records_apart(stored, probe);
        },
        Step::Done { reply: Reply::IdentifiersAllocated(block), .. } => {
            let asked = served.request->AllocateIdentifiers_scope;
            let records = choose|records: Seq<RecordView>| #[trigger]
                reads(records, before.records) && block.first == cursor(
                    records,
                    asked,
                );
            cursor_reads_the_table(records, before.records, asked);
            let moved = RecordView::Allocator { scope: asked, next: 0 };
            assert(moved.key_text() == allocator_key_text(asked));
            record_keys_tell_records_apart(moved, probe);
        },
        _ => {},
    }
}

/// Where a scope's allocator stands is the sum of what was asked: after any
/// requests it stands past where it stood at first by as many identifiers as the
/// allocations of the scope were answered with.
pub proof fn a_cursor_is_the_sum_of_what_was_asked(
    start: Tables,
    history: Seq<Served>,
    count: int,
    scope: FixtureScope,
)
    requires
        is_history(start, history),
        0 <= count <= history.len(),
    ensures
        cursor_in(tables_after(start, history, count).records, scope) == cursor_in(
            start.records,
            scope,
        ) + handed_out(history, scope, count),
    decreases count,
{
    if count > 0 {
        a_cursor_is_the_sum_of_what_was_asked(start, history, count - 1, scope);
        lemma_served(start, history, count - 1);
        lemma_request_moves_cursor(
            tables_after(start, history, count - 1),
            history[count - 1],
            tables_after(start, history, count),
            scope,
        );
    }
}

/// More requests never take back what was handed out.
proof fn lemma_handed_out_grows(history: Seq<Served>, scope: FixtureScope, from: int, to: int)
    requires
        0 <= from <= to,
    ensures
        handed_out(history, scope, from) <= handed_out(history, scope, to),
    decreases to - from,
{
    if from < to {
        lemma_handed_out_grows(history, scope, from, to - 1);
    }
}

/// The blocks of a scope follow each other, whatever requests are served between
/// them: each is as long as was asked and starts where the blocks before it end,
/// so no two share an identifier.
pub proof fn blocks_of_a_scope_are_contiguous(
    start: Tables,
    history: Seq<Served>,
    earlier: int,
    later: int,
    scope: FixtureScope,
    count: u32,
    later_count: u32,
    block: IdentifierBlock,
    later_block: IdentifierBlock,
)
    requires
        is_history(start, history),
        0 <= earlier < later < history.len(),
        history[earlier].request == (Request::AllocateIdentifiers { scope, count }),
        history[earlier].reply() == Some(Reply::IdentifiersAllocated(block)),
        history[later].request == (Request::AllocateIdentifiers { scope, count: later_count }),
        history[later].reply() == Some(Reply::IdentifiersAllocated(later_block)),
    ensures
        block.length == count,
        later_block.length == later_count,
        block.first == cursor_in(start.records, scope) + handed_out(history, scope, earlier),
        later_block.first == cursor_in(start.records, scope) + handed_out(history, scope, later),
        block.first + block.length <= later_block.first,
{
    lemma_served(start, history, earlier);
    lemma_served(start, history, later);
    lemma_request_moves_cursor(
        tables_after(start, history, earlier),
        history[earlier],
        tables_after(start, history, earlier + 1),
        scope,
    );
    lemma_request_moves_cursor(
        tables_after(start, history, later),
        history[later],
        tables_after(start, history, later + 1),
        scope,
    );
    a_cursor_is_the_sum_of_what_was_asked(start, history, earlier, scope);
    a_cursor_is_the_sum_of_what_was_asked(start, history, later, scope);
    lemma_handed_out_grows(history, scope, earlier + 1, later);
}

/// The writes and the reading that a binding in a history came from.
proof fn lemma_binding(
    start: Tables,
    history: Seq<Served>,
    index: int,
    whole: SchemaWholeHandle,
    declarations: Vec<DeclaredIdentity>,
    bound: BoundIdentities,
) -> (result: (Seq<AuthorityView>, Seq<AuthorityWriteView>))
    requires
        is_history(start, history),
        0 <= index < history.len(),
        history[index].request == (Request::BindIdentities { whole, declarations }),
        history[index].reply() == Some(Reply::IdentitiesBound(bound)),
    ensures
        reads(result.0, tables_after(start, history, index).authority),
        bind_plan(result.0, whole@, declaration_views(declarations@)) == (
        BindPlan::Commit {
            writes: result.1,
            universe: bound.universe.0,
            assignments: assignment_views(bound.assignments@),
        }),
        tables_after(start, history, index + 1).authority == committed(
            tables_after(start, history, index).authority,
            result.1,
        ),
{
    lemma_served(start, history, index);
    let before = tables_after(start, history, index).authority;
    let request = history[index].request;
    let writes = choose|writes: Seq<AuthorityWriteView>|
        is_binding(before, request, writes, bound) && tables_after(
            start,
            history,
            index + 1,
        ).authority == #[trigger] committed(before, writes);
    let records = choose|records: Seq<AuthorityView>| #[trigger]
        reads(records, before) && bind_plan(records, whole@, declaration_views(declarations@)) == (
        BindPlan::Commit {
            writes,
            universe: bound.universe.0,
            assignments: assignment_views(bound.assignments@),
        });
    (records, writes)
}

/// A request that is not answered with identities leaves the authority table as it
/// was.
proof fn lemma_other_requests_leave_the_authority(
    start: Tables,
    history: Seq<Served>,
    index: int,
)
    requires
        is_history(start, history),
        0 <= index < history.len(),
        !(history[index].reply() matches Some(Reply::IdentitiesBound(_))),
    ensures
        tables_after(start, history, index + 1).authority == tables_after(
            start,
            history,
            index,
        ).authority,
{
    lemma_served(start, history, index);
}

/// A history keeps the authority table sound, keeps the universe of every
/// schema-whole, and keeps every identity that a universe holds.
pub proof fn histories_keep_the_authority_sound(
    start: Tables,
    history: Seq<Served>,
    from: int,
    to: int,
)
    requires
        is_history(start, history),
        0 <= from <= to <= history.len(),
        authority_is_sound(tables_after(start, history, from).authority),
    ensures
        authority_is_sound(tables_after(start, history, to).authority),
        forall|whole: Seq<u8>| #[trigger]
            universe_in(tables_after(start, history, from).authority, whole) is Some
                ==> universe_in(tables_after(start, history, to).authority, whole) == universe_in(
                tables_after(start, history, from).authority,
                whole,
            ),
        forall|universe: u32, identity: u32| #[trigger]
            state_or_empty(
                state_held(tables_after(start, history, from).authority, universe),
                universe,
            ).shape_of(identity) is Some ==> state_or_empty(
                state_held(tables_after(start, history, to).authority, universe),
                universe,
            ).shape_of(identity) is Some,
    decreases to - from,
{
    if from < to {
        histories_keep_the_authority_sound(start, history, from, to - 1);
        let served = history[to - 1];
        let first = tables_after(start, history, from).authority;
        let before = tables_after(start, history, to - 1).authority;
        let after = tables_after(start, history, to).authority;
        match served.reply() {
            Some(Reply::IdentitiesBound(bound)) => {
                lemma_served(start, history, to - 1);
                let whole = served.request->whole;
                let declarations = served.request->declarations;
                let (records, writes) = lemma_binding(
                    start,
                    history,
                    to - 1,
                    whole,
                    declarations,
                    bound,
                );
                commits_keep_the_authority_sound(
                    before,
                    records,
                    whole@,
                    declaration_views(declarations@),
                    writes,
                    bound.universe.0,
                    assignment_views(bound.assignments@),
                );
                assert forall|other: Seq<u8>| #[trigger]
                    universe_in(first, other) is Some implies universe_in(after, other)
                    == universe_in(first, other) by {
                    assert(universe_in(before, other) == universe_in(first, other));
                    if other != whole@ {
                        assert(universe_in(after, other) == universe_in(before, other));
                    }
                }
                assert forall|universe: u32, identity: u32| #[trigger]
                    state_or_empty(state_held(first, universe), universe).shape_of(
                        identity,
                    ) is Some implies state_or_empty(state_held(after, universe), universe).shape_of(
                    identity,
                ) is Some by {
                    assert(state_or_empty(state_held(before, universe), universe).shape_of(
                        identity,
                    ) is Some);
                }
            },
            _ => {
                lemma_other_requests_leave_the_authority(start, history, to - 1);
            },
        }
    }
}

/// A history keeps both tables sound.
pub proof fn histories_keep_the_tables_sound(start: Tables, history: Seq<Served>, count: int)
    requires
        is_history(start, history),
        0 <= count <= history.len(),
        tables_are_sound(start),
    ensures
        tables_are_sound(tables_after(start, history, count)),
    decreases count,
{
    if count > 0 {
        histories_keep_the_tables_sound(start, history, count - 1);
        histories_keep_the_authority_sound(start, history, count - 1, count);
        lemma_served(start, history, count - 1);
        let before = tables_after(start, history, count - 1).records;
        let served = history[count - 1];
        match served.step {
            Step::Done { reply: Reply::Stored(summary), .. } => {
                let records = choose|records: Seq<RecordView>| #[trigger]
                    reads(records, before) && summary.version.0 == next_version(
                        documents_of(records),
                        summary.key,
                    );
                stores_keep_the_documents_sound(
                    before,
                    records,
                    DocumentView {
                        key: summary.key,
                        version: summary.version,
                        hash: summary.hash,
                        payload: served.request->Store_payload@,
                    },
                );
            },
            Step::Done { reply: Reply::IdentifiersAllocated(block), .. } => {
                let scope = served.request->AllocateIdentifiers_scope;
                let records = choose|records: Seq<RecordView>| #[trigger]
                    reads(records, before) && block.first == cursor(
                        records,
                        scope,
                    );
                allocations_keep_the_documents_sound(before, records, scope, block.length);
            },
            _ => {},
        }
    }
}

/// A key that is bound keeps its identity, whatever requests are served, as long as
/// none of them continues another identity under the key, or the identity under
/// another key.
pub proof fn bound_keys_keep_their_identities(
    start: Tables,
    history: Seq<Served>,
    from: int,
    to: int,
    whole: Seq<u8>,
    key: Seq<u8>,
    universe: u32,
    identity: u32,
)
    requires
        is_history(start, history),
        0 <= from <= to <= history.len(),
        authority_is_sound(tables_after(start, history, from).authority),
        identity_in(tables_after(start, history, from).authority, whole, key) == Some(
            (universe, identity),
        ),
        forall|index: int|
            from <= index < to ==> !(#[trigger] history[index]).disturbs(whole, key, identity),
    ensures
        identity_in(tables_after(start, history, to).authority, whole, key) == Some(
            (universe, identity),
        ),
    decreases to - from,
{
    if from < to {
        bound_keys_keep_their_identities(
            start,
            history,
            from,
            to - 1,
            whole,
            key,
            universe,
            identity,
        );
        histories_keep_the_authority_sound(start, history, from, to - 1);
        let served = history[to - 1];
        match served.reply() {
            Some(Reply::IdentitiesBound(bound)) => {
                lemma_served(start, history, to - 1);
                let other = served.request->whole;
                let declarations = served.request->declarations;
                let declared = declaration_views(declarations@);
                let (records, writes) = lemma_binding(
                    start,
                    history,
                    to - 1,
                    other,
                    declarations,
                    bound,
                );
                let before = tables_after(start, history, to - 1).authority;
                commits_keep_the_authority_sound(
                    before,
                    records,
                    other@,
                    declared,
                    writes,
                    bound.universe.0,
                    assignment_views(bound.assignments@),
                );
                binding_leaves_alone_what_it_does_not_name(
                    before,
                    records,
                    other@,
                    declared,
                    writes,
                    bound.universe.0,
                    assignment_views(bound.assignments@),
                );
                if other@ == whole {
                    assert(!served.disturbs(whole, key, identity));
                    assert(leave_alone(declared, key, identity));
                }
            },
            _ => {
                lemma_other_requests_leave_the_authority(start, history, to - 1);
            },
        }
    }
}

/// Whatever requests are served between two bindings of a schema-whole: a key under
/// which both mint or bind is answered with the same universe and the same identity,
/// the second time as bound, as long as no request from the first to the second
/// continues another identity under the key, or the identity under another key.
pub proof fn a_bound_key_is_answered_alike_ever_after(
    start: Tables,
    history: Seq<Served>,
    earlier: int,
    later: int,
    whole: SchemaWholeHandle,
    declarations: Vec<DeclaredIdentity>,
    bound: BoundIdentities,
    index: int,
    later_whole: SchemaWholeHandle,
    later_declarations: Vec<DeclaredIdentity>,
    later_bound: BoundIdentities,
    later_index: int,
)
    requires
        is_history(start, history),
        authority_is_sound(start.authority),
        0 <= earlier < later < history.len(),
        history[earlier].request == (Request::BindIdentities { whole, declarations }),
        history[earlier].reply() == Some(Reply::IdentitiesBound(bound)),
        history[later].request == (Request::BindIdentities {
            whole: later_whole,
            declarations: later_declarations,
        }),
        history[later].reply() == Some(Reply::IdentitiesBound(later_bound)),
        later_whole@ == whole@,
        0 <= index < declarations@.len(),
        0 <= later_index < later_declarations@.len(),
        declarations@[index].intent == IdentityIntent::MintOrBind,
        later_declarations@[later_index].intent == IdentityIntent::MintOrBind,
        later_declarations@[later_index].key@ == declarations@[index].key@,
        forall|between: int|
            earlier <= between <= later ==> !(#[trigger] history[between]).disturbs(
                whole@,
                declarations@[index].key@,
                bound.assignments@[index].identity.0,
            ),
    ensures
        later_bound.universe == bound.universe,
        later_bound.assignments@[later_index].identity == bound.assignments@[index].identity,
        later_bound.assignments@[later_index].outcome == BindOutcome::Bound,
{
    let key = declarations@[index].key@;
    let identity = bound.assignments@[index].identity.0;
    let declared = declaration_views(declarations@);
    let later_declared = declaration_views(later_declarations@);
    let assigned = assignment_views(bound.assignments@);
    let later_assigned = assignment_views(later_bound.assignments@);
    histories_keep_the_authority_sound(start, history, 0, earlier);
    histories_keep_the_authority_sound(start, history, 0, earlier + 1);
    histories_keep_the_authority_sound(start, history, 0, later);
    let (records, writes) = lemma_binding(start, history, earlier, whole, declarations, bound);
    let before = tables_after(start, history, earlier).authority;
    binding_leaves_alone_what_it_does_not_name(
        before,
        records,
        whole@,
        declared,
        writes,
        bound.universe.0,
        assigned,
    );
    assert(declared[index] == declarations@[index]@);
    assert(assigned[index] == bound.assignments@[index]@);
    assert(!history[earlier].disturbs(whole@, key, identity));
    bound_keys_stand_in_the_table(
        before,
        records,
        whole@,
        declared,
        writes,
        bound.universe.0,
        assigned,
        index,
    );
    bound_keys_keep_their_identities(
        start,
        history,
        earlier + 1,
        later,
        whole@,
        key,
        bound.universe.0,
        identity,
    );
    let (later_records, later_writes) = lemma_binding(
        start,
        history,
        later,
        later_whole,
        later_declarations,
        later_bound,
    );
    let later_before = tables_after(start, history, later).authority;
    commits_keep_the_authority_sound(
        later_before,
        later_records,
        whole@,
        later_declared,
        later_writes,
        later_bound.universe.0,
        later_assigned,
    );
    binding_leaves_alone_what_it_does_not_name(
        later_before,
        later_records,
        whole@,
        later_declared,
        later_writes,
        later_bound.universe.0,
        later_assigned,
    );
    assert(later_declared[later_index] == later_declarations@[later_index]@);
    assert(later_assigned[later_index] == later_bound.assignments@[later_index]@);
    assert(!history[later].disturbs(whole@, key, identity));
    assert(leave_alone(later_declared, key, identity));
}

/// An identity is never issued anew: whatever requests are served after one that is
/// answered with an identity, no later request of the same universe mints it.
pub proof fn identities_are_never_issued_anew(
    start: Tables,
    history: Seq<Served>,
    earlier: int,
    later: int,
    bound: BoundIdentities,
    index: int,
    later_bound: BoundIdentities,
    later_index: int,
)
    requires
        is_history(start, history),
        authority_is_sound(start.authority),
        0 <= earlier < later < history.len(),
        history[earlier].reply() == Some(Reply::IdentitiesBound(bound)),
        history[later].reply() == Some(Reply::IdentitiesBound(later_bound)),
        later_bound.universe == bound.universe,
        0 <= index < bound.assignments@.len(),
        0 <= later_index < later_bound.assignments@.len(),
        later_bound.assignments@[later_index].outcome == BindOutcome::Minted,
    ensures
        later_bound.assignments@[later_index].identity != bound.assignments@[index].identity,
{
    lemma_served(start, history, earlier);
    lemma_served(start, history, later);
    let whole = history[earlier].request->whole;
    let declarations = history[earlier].request->declarations;
    let later_whole = history[later].request->whole;
    let later_declarations = history[later].request->declarations;
    let universe = bound.universe.0;
    let identity = bound.assignments@[index].identity.0;
    let assigned = assignment_views(bound.assignments@);
    let later_assigned = assignment_views(later_bound.assignments@);
    histories_keep_the_authority_sound(start, history, 0, earlier);
    histories_keep_the_authority_sound(start, history, 0, earlier + 1);
    histories_keep_the_authority_sound(start, history, earlier + 1, later);
    let (records, writes) = lemma_binding(start, history, earlier, whole, declarations, bound);
    let before = tables_after(start, history, earlier).authority;
    binding_leaves_alone_what_it_does_not_name(
        before,
        records,
        whole@,
        declaration_views(declarations@),
        writes,
        universe,
        assigned,
    );
    bound_keys_stand_in_the_table(
        before,
        records,
        whole@,
        declaration_views(declarations@),
        writes,
        universe,
        assigned,
        index,
    );
    assert(assigned[index] == bound.assignments@[index]@);
    let (later_records, later_writes) = lemma_binding(
        start,
        history,
        later,
        later_whole,
        later_declarations,
        later_bound,
    );
    let later_before = tables_after(start, history, later).authority;
    commits_keep_the_authority_sound(
        later_before,
        later_records,
        later_whole@,
        declaration_views(later_declarations@),
        later_writes,
        universe,
        later_assigned,
    );
    assert(later_assigned[later_index] == later_bound.assignments@[later_index]@);
    assert(state_or_empty(state_held(later_before, universe), universe).shape_of(identity) is Some);
}

/// Universes are never shared and never change hands: whatever requests are served
/// between two bindings, they are answered with the same universe exactly if they
/// name the same schema-whole.
pub proof fn universes_belong_to_one_whole_ever_after(
    start: Tables,
    history: Seq<Served>,
    earlier: int,
    later: int,
    whole: SchemaWholeHandle,
    declarations: Vec<DeclaredIdentity>,
    bound: BoundIdentities,
    later_whole: SchemaWholeHandle,
    later_declarations: Vec<DeclaredIdentity>,
    later_bound: BoundIdentities,
)
    requires
        is_history(start, history),
        authority_is_sound(start.authority),
        0 <= earlier < later < history.len(),
        history[earlier].request == (Request::BindIdentities { whole, declarations }),
        history[earlier].reply() == Some(Reply::IdentitiesBound(bound)),
        history[later].request == (Request::BindIdentities {
            whole: later_whole,
            declarations: later_declarations,
        }),
        history[later].reply() == Some(Reply::IdentitiesBound(later_bound)),
    ensures
        later_bound.universe == bound.universe <==> later_whole@ == whole@,
{
    histories_keep_the_authority_sound(start, history, 0, earlier);
    let (records, writes) = lemma_binding(start, history, earlier, whole, declarations, bound);
    commits_keep_the_authority_sound(
        tables_after(start, history, earlier).authority,
        records,
        whole@,
        declaration_views(declarations@),
        writes,
        bound.universe.0,
        assignment_views(bound.assignments@),
    );
    histories_keep_the_authority_sound(start, history, earlier + 1, later + 1);
    histories_keep_the_authority_sound(start, history, 0, later);
    let (later_records, later_writes) = lemma_binding(
        start,
        history,
        later,
        later_whole,
        later_declarations,
        later_bound,
    );
    commits_keep_the_authority_sound(
        tables_after(start, history, later).authority,
        later_records,
        later_whole@,
        declaration_views(later_declarations@),
        later_writes,
        later_bound.universe.0,
        assignment_views(later_bound.assignments@),
    );
    let last = tables_after(start, history, later + 1).authority;
    assert(universe_in(last, whole@) == Some(bound.universe.0));
    assert(universe_in(last, later_whole@) == Some(later_bound.universe.0));
    if later_whole@ != whole@ {
        universes_are_never_shared(last, whole@, later_whole@);
    }
}

} // verus!
