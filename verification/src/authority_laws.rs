//! Laws of the authority table: what binding schema-wholes gives across
//! requests, and across restarts between which only the table survives.
use vstd::prelude::*;

use crate::authority::{
    AuthorityWriteView, BindPlan, bind_plan, is_state_of, registry_in, registry_or_empty, state_in,
    state_or_empty, write_of,
};
use crate::identity::{RegistryView, Resolution, StateView, WholeView};
use crate::identity_laws::{
    all_mint_or_bind, assigned_keys_stand_for_their_identities, carried_keys_keep_their_identities,
    declaration_sets_keep_identities_sound, distinct_wholes_have_distinct_universes,
    identities_are_never_rebound, leave_alone, one_bad_declaration_turns_down_the_set,
    undisturbed_keys_keep_their_identities, wholes_keep_their_universes,
};
use crate::protocol::{
    AssignmentView, BindOutcome, DeclarationView, DeclaredShape, IdentityIntent, Rejection,
    TypeIdentity,
};
use crate::records::{
    AuthorityView, authority_keys_tell_records_apart, registry_key_text, state_key_text,
};
use crate::search::{lemma_position, position};
use crate::tables::{Keyed, lemma_read_position, reads, written};

verus! {

/// The registry that a table holds, if it holds one.
pub open spec fn registry_held(table: Map<Seq<char>, AuthorityView>) -> Option<RegistryView> {
    if table.contains_key(registry_key_text()) {
        Some(table[registry_key_text()]->UniverseRegistry_0)
    } else {
        None
    }
}

/// The bindings of a universe that a table holds, if it holds them.
pub open spec fn state_held(
    table: Map<Seq<char>, AuthorityView>,
    universe: u32,
) -> Option<StateView> {
    if table.contains_key(state_key_text(universe)) {
        Some(table[state_key_text(universe)]->UniverseState_0)
    } else {
        None
    }
}

/// The universe that a schema-whole has in a table, if it has one.
pub open spec fn universe_in(table: Map<Seq<char>, AuthorityView>, whole: Seq<u8>) -> Option<u32> {
    registry_or_empty(registry_held(table)).universe_of(whole)
}

/// The universe and the identity under which a table holds a key of a
/// schema-whole, if it is bound.
pub open spec fn identity_in(
    table: Map<Seq<char>, AuthorityView>,
    whole: Seq<u8>,
    key: Seq<u8>,
) -> Option<(u32, u32)> {
    match universe_in(table, whole) {
        Some(universe) => match state_or_empty(state_held(table, universe), universe).identity_of(
            key,
        ) {
            Some(identity) => Some((universe, identity)),
            None => None,
        },
        None => None,
    }
}

/// The record of a write.
pub open spec fn record_of(write: AuthorityWriteView) -> AuthorityView {
    match write {
        AuthorityWriteView::Assert(record) => record,
        AuthorityWriteView::Mutate(record) => record,
    }
}

/// A table after a commit.
pub open spec fn committed(
    table: Map<Seq<char>, AuthorityView>,
    writes: Seq<AuthorityWriteView>,
) -> Map<Seq<char>, AuthorityView>
    decreases writes.len(),
{
    if writes.len() == 0 {
        table
    } else {
        written(committed(table, writes.drop_last()), record_of(writes.last()))
    }
}

/// Whether a table holds a sound registry, sound bindings of minted universes
/// only, and the bindings of every universe that a schema-whole has.
pub open spec fn authority_is_sound(table: Map<Seq<char>, AuthorityView>) -> bool {
    let registry = registry_or_empty(registry_held(table));
    &&& registry.is_sound()
    &&& forall|universe: u32|
        (#[trigger] state_held(table, universe)) matches Some(state) ==> state.is_sound()
            && state.universe == universe && universe < registry.next_universe
    &&& forall|whole: Seq<u8>|
        (#[trigger] registry.universe_of(whole)) matches Some(universe) ==> state_held(
            table,
            universe,
        ) is Some
}

/// An empty table is sound.
pub proof fn empty_authority_is_sound()
    ensures
        authority_is_sound(Map::empty()),
{
    let registry = RegistryView::empty();
    assert forall|whole: Seq<u8>| #[trigger] registry.universe_of(whole) is None by {
        lemma_position(registry.wholes, |seen: WholeView| seen.handle == whole);
    }
}

/// The registry and the bindings of a universe are read where the table holds
/// them, in whatever order the table is read.
pub proof fn authority_reads_the_table(
    records: Seq<AuthorityView>,
    table: Map<Seq<char>, AuthorityView>,
    universe: u32,
)
    requires
        reads(records, table),
    ensures
        registry_in(records) == registry_held(table),
        state_in(records, universe) == state_held(table, universe),
        state_held(table, universe) matches Some(state) ==> state.universe == universe,
{
    let is_registry = |record: AuthorityView| record is UniverseRegistry;
    lemma_position(records, is_registry);
    match position(records, is_registry) {
        Some(index) => {
            assert(records[index].key_text() == registry_key_text());
        },
        None => {
            if table.contains_key(registry_key_text()) {
                let index = lemma_read_position(records, table, registry_key_text());
                lemma_key_names_record(records[index], universe);
                assert(!is_registry(records[index]));
            }
        },
    }
    let is_state = |record: AuthorityView| is_state_of(record, universe);
    lemma_position(records, is_state);
    if table.contains_key(state_key_text(universe)) {
        let index = lemma_read_position(records, table, state_key_text(universe));
        lemma_key_names_record(records[index], universe);
    }
    match position(records, is_state) {
        Some(index) => {
            assert(records[index].key_text() == state_key_text(universe));
        },
        None => {
            if table.contains_key(state_key_text(universe)) {
                let index = lemma_read_position(records, table, state_key_text(universe));
                assert(!is_state(records[index]));
            }
        },
    }
}

/// A record's key says what kind of record it is, and of which universe.
proof fn lemma_key_names_record(record: AuthorityView, universe: u32)
    ensures
        record.key_text() == registry_key_text() <==> record is UniverseRegistry,
        record.key_text() == state_key_text(universe) <==> is_state_of(record, universe),
{
    authority_keys_tell_records_apart(universe, universe);
    match record {
        AuthorityView::UniverseRegistry(_) => {},
        AuthorityView::UniverseState(state) => {
            authority_keys_tell_records_apart(state.universe, universe);
        },
    }
}

/// Declarations leave the number of their universe alone.
proof fn lemma_universe_is_kept(state: StateView, declarations: Seq<DeclarationView>)
    ensures
        state.bind_all(declarations) matches Ok((after, _)) ==> after.universe == state.universe,
    decreases declarations.len(),
{
    if declarations.len() > 0 {
        lemma_universe_is_kept(state, declarations.drop_last());
    }
}

/// What a binding that comes to a commit has resolved and bound.
pub open spec fn binds_to(
    table: Map<Seq<char>, AuthorityView>,
    whole: Seq<u8>,
    declarations: Seq<DeclarationView>,
    resolution: Resolution,
    after: StateView,
    assignments: Seq<AssignmentView>,
) -> bool {
    &&& registry_or_empty(registry_held(table)).resolve(whole) == Some(resolution)
    &&& state_or_empty(state_held(table, resolution.universe), resolution.universe).bind_all(
        declarations,
    ) == Ok::<(StateView, Seq<AssignmentView>), Rejection>((after, assignments))
}

/// A commit leaves in the table the registry after resolving and the bindings
/// after binding, and leaves other universes as they were.
proof fn lemma_commit(
    table: Map<Seq<char>, AuthorityView>,
    records: Seq<AuthorityView>,
    whole: Seq<u8>,
    declarations: Seq<DeclarationView>,
    writes: Seq<AuthorityWriteView>,
    universe: u32,
    assignments: Seq<AssignmentView>,
) -> (result: (Resolution, StateView))
    requires
        reads(records, table),
        bind_plan(records, whole, declarations) == (BindPlan::Commit {
            writes,
            universe,
            assignments,
        }),
    ensures
        binds_to(table, whole, declarations, result.0, result.1, assignments),
        result.0.universe == universe,
        result.1.universe == universe,
        registry_or_empty(registry_held(committed(table, writes))) == result.0.registry,
        state_held(committed(table, writes), universe) == Some(result.1),
        forall|other: u32|
            other != universe ==> #[trigger] state_held(committed(table, writes), other)
                == state_held(table, other),
        result.0.minted ==> writes.len() == 2 && writes[0] == write_of(
            registry_held(table) is Some,
            AuthorityView::UniverseRegistry(result.0.registry),
        ),
        !result.0.minted ==> writes.len() == 1,
        writes.last() == write_of(
            state_held(table, universe) is Some,
            AuthorityView::UniverseState(result.1),
        ),
{
    let registry = registry_or_empty(registry_held(table));
    authority_reads_the_table(records, table, universe);
    let resolution = registry.resolve(whole)->0;
    let state = state_or_empty(state_held(table, universe), universe);
    let (after, _) = state.bind_all(declarations)->Ok_0;
    lemma_universe_is_kept(state, declarations);
    let new = committed(table, writes);
    let registry_record = AuthorityView::UniverseRegistry(resolution.registry);
    let state_record = AuthorityView::UniverseState(after);
    authority_keys_tell_records_apart(universe, universe);
    let first = committed(table, writes.drop_last());
    if resolution.minted {
        assert(writes.drop_last().drop_last() =~= Seq::empty());
        assert(writes.drop_last().last() == writes[0]);
        assert(committed(table, writes.drop_last().drop_last()) == table);
        assert(first == written(table, registry_record));
    } else {
        assert(writes.drop_last() =~= Seq::empty());
        assert(first == table);
    }
    assert(new == written(first, state_record));
    assert forall|other: u32| other != universe implies #[trigger] state_held(new, other)
        == state_held(table, other) by {
        authority_keys_tell_records_apart(other, universe);
    }
    (resolution, after)
}

/// A commit that follows a binding adds only records whose keys the table does
/// not hold, replaces only records that it holds, and keeps the table sound. The
/// universe is the one that the schema-whole had, or one that no whole had; every
/// identity that is minted is one that its universe did not have; and no universe
/// loses an identity.
pub proof fn commits_keep_the_authority_sound(
    table: Map<Seq<char>, AuthorityView>,
    records: Seq<AuthorityView>,
    whole: Seq<u8>,
    declarations: Seq<DeclarationView>,
    writes: Seq<AuthorityWriteView>,
    universe: u32,
    assignments: Seq<AssignmentView>,
)
    requires
        reads(records, table),
        authority_is_sound(table),
        bind_plan(records, whole, declarations) == (BindPlan::Commit {
            writes,
            universe,
            assignments,
        }),
    ensures
        authority_is_sound(committed(table, writes)),
        forall|index: int|
            0 <= index < writes.len() ==> (((#[trigger] writes[index]) is Mutate)
                <==> table.contains_key(record_of(writes[index]).key_text())),
        universe_in(committed(table, writes), whole) == Some(universe),
        match universe_in(table, whole) {
            Some(had) => universe == had,
            None => forall|other: Seq<u8>| #[trigger] universe_in(table, other) != Some(universe),
        },
        forall|other: Seq<u8>|
            other != whole ==> #[trigger] universe_in(committed(table, writes), other)
                == universe_in(table, other),
        forall|index: int|
            0 <= index < assignments.len() && (#[trigger] assignments[index]).outcome
                == BindOutcome::Minted ==> state_or_empty(
                state_held(table, universe),
                universe,
            ).shape_of(assignments[index].identity.0) is None,
        forall|other: u32, identity: u32| #[trigger]
            state_or_empty(state_held(table, other), other).shape_of(identity) is Some
                ==> state_or_empty(state_held(committed(table, writes), other), other).shape_of(
                identity,
            ) is Some,
{
    let registry = registry_or_empty(registry_held(table));
    let new = committed(table, writes);
    let (resolution, after) = lemma_commit(
        table,
        records,
        whole,
        declarations,
        writes,
        universe,
        assignments,
    );
    wholes_keep_their_universes(registry, whole);
    let state = state_or_empty(state_held(table, universe), universe);
    assert(state.is_sound());
    declaration_sets_keep_identities_sound(state, declarations, after, assignments);
    let new_registry = registry_or_empty(registry_held(new));
    assert(new_registry == resolution.registry);
    assert forall|other: u32| (#[trigger] state_held(new, other)) matches Some(held) implies
    state_held(new, other)->0.is_sound() && state_held(new, other)->0.universe == other && other
        < new_registry.next_universe by {
        if other != universe {
            assert(state_held(table, other) is Some);
        }
    }
    assert forall|other: Seq<u8>|
        (#[trigger] new_registry.universe_of(other)) matches Some(of_other) implies state_held(
        new,
        new_registry.universe_of(other)->0,
    ) is Some by {
        let of_other = new_registry.universe_of(other)->0;
        if of_other != universe {
            assert(registry.universe_of(other) == Some(of_other));
        }
    }
    assert forall|index: int| 0 <= index < writes.len() implies (((#[trigger] writes[index])
        is Mutate) <==> table.contains_key(record_of(writes[index]).key_text())) by {
        if index == writes.len() - 1 {
            assert(writes[index] == writes.last());
        }
    }
}

/// Binding declarations that all mint or bind: each declared key stands in the
/// table for the identity that it was assigned, a key that stood there before
/// is answered as bound, and whatever key of whatever schema-whole stood there
/// before stands for the same identity afterwards.
pub proof fn binding_keeps_every_identity(
    table: Map<Seq<char>, AuthorityView>,
    records: Seq<AuthorityView>,
    whole: Seq<u8>,
    declarations: Seq<DeclarationView>,
    writes: Seq<AuthorityWriteView>,
    universe: u32,
    assignments: Seq<AssignmentView>,
)
    requires
        reads(records, table),
        authority_is_sound(table),
        all_mint_or_bind(declarations),
        bind_plan(records, whole, declarations) == (BindPlan::Commit {
            writes,
            universe,
            assignments,
        }),
    ensures
        assignments.len() == declarations.len(),
        forall|index: int|
            0 <= index < declarations.len() ==> {
                &&& identity_in(
                    committed(table, writes),
                    whole,
                    (#[trigger] declarations[index]).key,
                ) == Some((universe, assignments[index].identity.0))
                &&& assignments[index].key == declarations[index].key
                &&& identity_in(table, whole, declarations[index].key) is Some
                    ==> assignments[index].outcome == BindOutcome::Bound
                &&& assignments[index].outcome == BindOutcome::Minted ==> identity_in(
                    table,
                    whole,
                    declarations[index].key,
                ) is None
            },
        forall|other: Seq<u8>, key: Seq<u8>| #[trigger]
            identity_in(table, other, key) is Some ==> identity_in(
                committed(table, writes),
                other,
                key,
            ) == identity_in(table, other, key),
{
    let registry = registry_or_empty(registry_held(table));
    let new = committed(table, writes);
    let new_registry = registry_or_empty(registry_held(new));
    let (resolution, after) = lemma_commit(
        table,
        records,
        whole,
        declarations,
        writes,
        universe,
        assignments,
    );
    wholes_keep_their_universes(registry, whole);
    let state = state_or_empty(state_held(table, universe), universe);
    carried_keys_keep_their_identities(state, declarations);
    assert(new_registry.universe_of(whole) == Some(universe));
    assert forall|index: int| 0 <= index < declarations.len() implies {
        &&& identity_in(new, whole, (#[trigger] declarations[index]).key) == Some(
            (universe, assignments[index].identity.0),
        )
        &&& assignments[index].key == declarations[index].key
        &&& identity_in(table, whole, declarations[index].key) is Some
            ==> assignments[index].outcome == BindOutcome::Bound
        &&& assignments[index].outcome == BindOutcome::Minted ==> identity_in(
            table,
            whole,
            declarations[index].key,
        ) is None
    } by {
        assert(after.identity_of(declarations[index].key) == Some(assignments[index].identity.0));
    }
    assert forall|other: Seq<u8>, key: Seq<u8>| #[trigger]
        identity_in(table, other, key) is Some implies identity_in(new, other, key)
        == identity_in(table, other, key) by {
        let of_other = registry.universe_of(other)->0;
        assert(new_registry.universe_of(other) == Some(of_other));
        if of_other == universe {
            assert(state.identity_of(key) is Some);
        } else {
            assert(state_held(new, of_other) == state_held(table, of_other));
        }
    }
}

/// Binding any set of declarations leaves alone whatever it does not name. Every
/// other universe and every key of every other schema-whole stay as they were. A
/// key of this schema-whole keeps its identity unless some declaration of the set
/// continues another identity under it, or its identity under another key; and
/// each declaration that mints or binds under such a key is answered with that
/// identity, as bound.
pub proof fn binding_leaves_alone_what_it_does_not_name(
    table: Map<Seq<char>, AuthorityView>,
    records: Seq<AuthorityView>,
    whole: Seq<u8>,
    declarations: Seq<DeclarationView>,
    writes: Seq<AuthorityWriteView>,
    universe: u32,
    assignments: Seq<AssignmentView>,
)
    requires
        reads(records, table),
        authority_is_sound(table),
        bind_plan(records, whole, declarations) == (BindPlan::Commit {
            writes,
            universe,
            assignments,
        }),
    ensures
        assignments.len() == declarations.len(),
        forall|other: u32|
            other != universe ==> #[trigger] state_held(committed(table, writes), other)
                == state_held(table, other),
        forall|other: Seq<u8>, key: Seq<u8>|
            other != whole ==> #[trigger] identity_in(committed(table, writes), other, key)
                == identity_in(table, other, key),
        forall|key: Seq<u8>, identity: u32|
            #![trigger leave_alone(declarations, key, identity)]
            identity_in(table, whole, key) == Some((universe, identity)) && leave_alone(
                declarations,
                key,
                identity,
            ) ==> {
                &&& identity_in(committed(table, writes), whole, key) == Some((universe, identity))
                &&& forall|index: int|
                    0 <= index < declarations.len() && (#[trigger] declarations[index]).key == key
                        && declarations[index].intent == IdentityIntent::MintOrBind ==> {
                        &&& assignments[index].identity.0 == identity
                        &&& assignments[index].outcome == BindOutcome::Bound
                    }
            },
{
    let registry = registry_or_empty(registry_held(table));
    let new = committed(table, writes);
    let (resolution, after) = lemma_commit(
        table,
        records,
        whole,
        declarations,
        writes,
        universe,
        assignments,
    );
    wholes_keep_their_universes(registry, whole);
    commits_keep_the_authority_sound(
        table,
        records,
        whole,
        declarations,
        writes,
        universe,
        assignments,
    );
    let state = state_or_empty(state_held(table, universe), universe);
    assert(state.is_sound());
    declaration_sets_keep_identities_sound(state, declarations, after, assignments);
    assert forall|other: Seq<u8>, key: Seq<u8>| other != whole implies #[trigger] identity_in(
        new,
        other,
        key,
    ) == identity_in(table, other, key) by {
        assert(universe_in(new, other) == universe_in(table, other));
        match universe_in(table, other) {
            Some(of_other) => {
                universes_are_never_shared(new, whole, other);
                assert(state_held(new, of_other) == state_held(table, of_other));
            },
            None => {},
        }
    }
    assert forall|key: Seq<u8>, identity: u32|
        #![trigger leave_alone(declarations, key, identity)]
        identity_in(table, whole, key) == Some((universe, identity)) && leave_alone(
            declarations,
            key,
            identity,
        ) implies {
        &&& identity_in(new, whole, key) == Some((universe, identity))
        &&& forall|index: int|
            0 <= index < declarations.len() && (#[trigger] declarations[index]).key == key
                && declarations[index].intent == IdentityIntent::MintOrBind ==> {
                &&& assignments[index].identity.0 == identity
                &&& assignments[index].outcome == BindOutcome::Bound
            }
    } by {
        undisturbed_keys_keep_their_identities(
            state,
            declarations,
            after,
            assignments,
            key,
            identity,
        );
    }
}

/// A key under which a declaration of a set minted or bound stands in the table
/// for the assigned identity, unless some declaration of the set continues
/// another identity under it, or its identity under another key. Whatever was
/// assigned is held by the universe from then on.
pub proof fn bound_keys_stand_in_the_table(
    table: Map<Seq<char>, AuthorityView>,
    records: Seq<AuthorityView>,
    whole: Seq<u8>,
    declarations: Seq<DeclarationView>,
    writes: Seq<AuthorityWriteView>,
    universe: u32,
    assignments: Seq<AssignmentView>,
    index: int,
)
    requires
        reads(records, table),
        authority_is_sound(table),
        bind_plan(records, whole, declarations) == (BindPlan::Commit {
            writes,
            universe,
            assignments,
        }),
        0 <= index < declarations.len(),
    ensures
        state_or_empty(state_held(committed(table, writes), universe), universe).shape_of(
            assignments[index].identity.0,
        ) is Some,
        declarations[index].intent == IdentityIntent::MintOrBind && leave_alone(
            declarations,
            declarations[index].key,
            assignments[index].identity.0,
        ) ==> identity_in(committed(table, writes), whole, declarations[index].key) == Some(
            (universe, assignments[index].identity.0),
        ),
{
    let registry = registry_or_empty(registry_held(table));
    let (resolution, after) = lemma_commit(
        table,
        records,
        whole,
        declarations,
        writes,
        universe,
        assignments,
    );
    wholes_keep_their_universes(registry, whole);
    let state = state_or_empty(state_held(table, universe), universe);
    assert(state.is_sound());
    declaration_sets_keep_identities_sound(state, declarations, after, assignments);
    assert(after.shape_of(assignments[index].identity.0) is Some);
    if declarations[index].intent == IdentityIntent::MintOrBind && leave_alone(
        declarations,
        declarations[index].key,
        assignments[index].identity.0,
    ) {
        assigned_keys_stand_for_their_identities(state, declarations, after, assignments, index);
    }
}

/// The same declared schema-whole, bound again when only the table has
/// survived, receives its one universe and identical identities, whatever the
/// order of the declarations. A key that is declared both times keeps its
/// identity and is answered as bound. The second binding can be turned down
/// only if it declares a key that the first did not, and no identity is left
/// for it.
pub proof fn rebinding_receives_identical_identities(
    table: Map<Seq<char>, AuthorityView>,
    records: Seq<AuthorityView>,
    whole: Seq<u8>,
    declarations: Seq<DeclarationView>,
    writes: Seq<AuthorityWriteView>,
    universe: u32,
    assignments: Seq<AssignmentView>,
    later_records: Seq<AuthorityView>,
    later_declarations: Seq<DeclarationView>,
)
    requires
        reads(records, table),
        authority_is_sound(table),
        all_mint_or_bind(declarations),
        bind_plan(records, whole, declarations) == (BindPlan::Commit {
            writes,
            universe,
            assignments,
        }),
        reads(later_records, committed(table, writes)),
        all_mint_or_bind(later_declarations),
    ensures
        match bind_plan(later_records, whole, later_declarations) {
            BindPlan::Commit { universe: later_universe, assignments: later_assignments, .. } => {
                &&& later_universe == universe
                &&& later_assignments.len() == later_declarations.len()
                &&& forall|later: int, earlier: int|
                    0 <= later < later_declarations.len() && 0 <= earlier < declarations.len() && (
                    #[trigger] later_declarations[later]).key == (
                    #[trigger] declarations[earlier]).key ==> {
                        &&& later_assignments[later].identity == assignments[earlier].identity
                        &&& later_assignments[later].outcome == BindOutcome::Bound
                    }
            },
            BindPlan::Rejected(rejection) => {
                &&& rejection == Rejection::Internal
                &&& exists|later: int|
                    0 <= later < later_declarations.len() && forall|earlier: int|
                        0 <= earlier < declarations.len() ==> (
                        #[trigger] later_declarations[later]).key != (
                        #[trigger] declarations[earlier]).key
            },
            BindPlan::Exhausted => false,
        },
{
    let new = committed(table, writes);
    commits_keep_the_authority_sound(
        table,
        records,
        whole,
        declarations,
        writes,
        universe,
        assignments,
    );
    binding_keeps_every_identity(
        table,
        records,
        whole,
        declarations,
        writes,
        universe,
        assignments,
    );
    authority_reads_the_table(later_records, new, universe);
    let new_registry = registry_or_empty(registry_held(new));
    assert(new_registry.universe_of(whole) == Some(universe));
    let state = state_or_empty(state_held(new, universe), universe);
    carried_keys_keep_their_identities(state, later_declarations);
    match bind_plan(later_records, whole, later_declarations) {
        BindPlan::Commit {
            writes: later_writes,
            universe: later_universe,
            assignments: later_assignments,
        } => {
            binding_keeps_every_identity(
                new,
                later_records,
                whole,
                later_declarations,
                later_writes,
                later_universe,
                later_assignments,
            );
            let last = committed(new, later_writes);
            assert forall|later: int, earlier: int|
                0 <= later < later_declarations.len() && 0 <= earlier < declarations.len() && (
                #[trigger] later_declarations[later]).key == (
                #[trigger] declarations[earlier]).key implies {
                &&& later_assignments[later].identity == assignments[earlier].identity
                &&& later_assignments[later].outcome == BindOutcome::Bound
            } by {
                assert(identity_in(new, whole, declarations[earlier].key) == Some(
                    (universe, assignments[earlier].identity.0),
                ));
                assert(identity_in(last, whole, later_declarations[later].key) == Some(
                    (later_universe, later_assignments[later].identity.0),
                ));
            }
        },
        BindPlan::Rejected(_) => {
            let later = choose|later: int|
                0 <= later < later_declarations.len() && state.identity_of(
                    (#[trigger] later_declarations[later]).key,
                ) is None;
            assert forall|earlier: int| 0 <= earlier < declarations.len() implies (
            #[trigger] later_declarations[later]).key != (#[trigger] declarations[earlier]).key by {
                assert(identity_in(new, whole, declarations[earlier].key) is Some);
            }
        },
        BindPlan::Exhausted => {},
    }
}

/// A set of declarations that claims an identity for another shape than it is
/// bound to is refused, says so, and leads to no write.
pub proof fn claims_for_another_shape_are_refused(
    table: Map<Seq<char>, AuthorityView>,
    records: Seq<AuthorityView>,
    whole: Seq<u8>,
    universe: u32,
    declarations: Seq<DeclarationView>,
    index: int,
    claimed: TypeIdentity,
    middle: StateView,
    done: Seq<AssignmentView>,
    shape: DeclaredShape,
)
    requires
        reads(records, table),
        universe_in(table, whole) == Some(universe),
        0 <= index < declarations.len(),
        state_or_empty(state_held(table, universe), universe).bind_all(declarations.take(index))
            == Ok::<(StateView, Seq<AssignmentView>), Rejection>((middle, done)),
        declarations[index].intent == IdentityIntent::Continue(claimed),
        middle.shape_of(claimed.0) == Some(shape),
        declarations[index].shape != shape,
    ensures
        bind_plan(records, whole, declarations) == BindPlan::Rejected(
            Rejection::IdentityRebindRejected {
                identity: claimed,
                bound_shape: shape,
                attempted_shape: declarations[index].shape,
            },
        ),
{
    authority_reads_the_table(records, table, universe);
    identities_are_never_rebound(middle, declarations[index], claimed);
    one_bad_declaration_turns_down_the_set(
        state_or_empty(state_held(table, universe), universe),
        declarations,
        index,
        middle,
        done,
        Rejection::IdentityRebindRejected {
            identity: claimed,
            bound_shape: shape,
            attempted_shape: declarations[index].shape,
        },
    );
}

/// In a sound table distinct schema-wholes have distinct universes.
pub proof fn universes_are_never_shared(
    table: Map<Seq<char>, AuthorityView>,
    left: Seq<u8>,
    right: Seq<u8>,
)
    requires
        authority_is_sound(table),
        left != right,
        universe_in(table, left) is Some,
        universe_in(table, right) is Some,
    ensures
        universe_in(table, left) != universe_in(table, right),
{
    distinct_wholes_have_distinct_universes(
        registry_or_empty(registry_held(table)),
        left,
        right,
    );
}

} // verus!
