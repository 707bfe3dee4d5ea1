//! Laws of single declarations: what a universe holds after a declaration, and
//! what it was turned down for, told by the bindings themselves.
use vstd::prelude::*;

use crate::error::Error;
use crate::identity::{
    BindingView, RegistryView, Resolution, StateView, UniverseRegistry, UniverseState, WholeView,
    assignment_views, declaration_views,
};
use crate::protocol::{
    AssignmentView, BindOutcome, DeclarationView, DeclaredIdentity, DeclaredShape,
    IdentityAssignment, IdentityIntent, Rejection, SchemaWholeHandle, TypeIdentity,
};
use crate::search::{lemma_position, lemma_position_is};

verus! {

/// Whatever a declaration is answered, the universe afterwards holds the declared
/// shape under the declared key and the assigned identity.
pub proof fn a_declaration_is_recorded_as_declared(
    state: StateView,
    declaration: DeclarationView,
    after: StateView,
    assignment: AssignmentView,
)
    requires
        state.bind_or_mint(declaration) == Ok::<(StateView, AssignmentView), Rejection>(
            (after, assignment),
        ),
    ensures
        assignment.key == declaration.key,
        after.universe == state.universe,
        exists|place: int|
            0 <= place < after.bindings.len() && #[trigger] after.bindings[place] == (BindingView {
                key: declaration.key,
                identity: assignment.identity.0,
                shape: declaration.shape,
            }),
{
    match declaration.intent {
        IdentityIntent::MintOrBind => {
            lemma_position(state.bindings, |binding: BindingView| binding.key == declaration.key);
            match state.key_position(declaration.key) {
                Some(place) => {
                    assert(after.bindings[place].key == declaration.key);
                },
                None => {
                    assert(after.bindings[state.bindings.len() as int].key == declaration.key);
                },
            }
        },
        IdentityIntent::Continue(claimed) => {
            lemma_position(state.bindings, |binding: BindingView| binding.identity == claimed.0);
            let place = state.identity_position(claimed.0)->0;
            assert(after.bindings[place].key == declaration.key);
        },
    }
}

/// A declaration that mints or binds under a key that no binding has is given the
/// identity at the cursor: one binding is added, every other is kept as it is, and
/// the cursor moves on by one. It is turned down only if the cursor stands at the
/// last number.
pub proof fn an_unbound_key_is_minted(state: StateView, declaration: DeclarationView)
    requires
        declaration.intent == IdentityIntent::MintOrBind,
        forall|place: int|
            0 <= place < state.bindings.len() ==> (#[trigger] state.bindings[place]).key
                != declaration.key,
    ensures
        match state.bind_or_mint(declaration) {
            Ok((after, assignment)) => {
                &&& state.next_local < u32::MAX
                &&& assignment.identity == TypeIdentity(state.next_local)
                &&& assignment.outcome == BindOutcome::Minted
                &&& after.next_local == state.next_local + 1
                &&& after.bindings.len() == state.bindings.len() + 1
                &&& after.bindings.last() == (BindingView {
                    key: declaration.key,
                    identity: state.next_local,
                    shape: declaration.shape,
                })
                &&& forall|place: int|
                    0 <= place < state.bindings.len() ==> #[trigger] after.bindings[place]
                        == state.bindings[place]
            },
            Err(rejection) => state.next_local == u32::MAX && rejection == Rejection::Internal,
        },
{
    lemma_position(state.bindings, |binding: BindingView| binding.key == declaration.key);
}

/// A declaration that mints or binds under a key that some binding has is always
/// given the identity of the first such binding: the declared shape is recorded
/// there, every other binding is kept as it is, and no cursor moves.
pub proof fn a_bound_key_is_bound(state: StateView, declaration: DeclarationView, place: int)
    requires
        declaration.intent == IdentityIntent::MintOrBind,
        0 <= place < state.bindings.len(),
        state.bindings[place].key == declaration.key,
        forall|earlier: int|
            0 <= earlier < place ==> (#[trigger] state.bindings[earlier]).key != declaration.key,
    ensures
        state.bind_or_mint(declaration) matches Ok((after, assignment)) && {
            &&& assignment.identity == TypeIdentity(state.bindings[place].identity)
            &&& assignment.outcome == BindOutcome::Bound
            &&& after.next_local == state.next_local
            &&& after.bindings.len() == state.bindings.len()
            &&& after.bindings[place] == (BindingView {
                key: declaration.key,
                identity: state.bindings[place].identity,
                shape: declaration.shape,
            })
            &&& forall|other: int|
                0 <= other < state.bindings.len() && other != place
                    ==> #[trigger] after.bindings[other] == state.bindings[other]
        },
{
    lemma_position_is(
        state.bindings,
        |binding: BindingView| binding.key == declaration.key,
        place,
    );
}

/// A declaration that continues an identity which no binding has is turned down as
/// never minted.
pub proof fn an_unheld_identity_cannot_be_continued(
    state: StateView,
    declaration: DeclarationView,
    claimed: TypeIdentity,
)
    requires
        declaration.intent == IdentityIntent::Continue(claimed),
        forall|place: int|
            0 <= place < state.bindings.len() ==> (#[trigger] state.bindings[place]).identity
                != claimed.0,
    ensures
        state.bind_or_mint(declaration) == Err::<(StateView, AssignmentView), Rejection>(
            Rejection::IdentityNeverMinted(claimed),
        ),
{
    lemma_position(state.bindings, |binding: BindingView| binding.identity == claimed.0);
}

/// A declaration that continues an identity which some binding has is accepted
/// exactly if the first such binding has the declared shape. Then that binding is
/// moved to the declared key, every other is kept as it is, and no cursor moves;
/// else the answer names both shapes.
pub proof fn a_held_identity_is_continued_under_its_shape(
    state: StateView,
    declaration: DeclarationView,
    claimed: TypeIdentity,
    place: int,
)
    requires
        declaration.intent == IdentityIntent::Continue(claimed),
        0 <= place < state.bindings.len(),
        state.bindings[place].identity == claimed.0,
        forall|earlier: int|
            0 <= earlier < place ==> (#[trigger] state.bindings[earlier]).identity != claimed.0,
    ensures
        match state.bind_or_mint(declaration) {
            Ok((after, assignment)) => {
                &&& state.bindings[place].shape == declaration.shape
                &&& assignment.identity == claimed
                &&& assignment.outcome == BindOutcome::Bound
                &&& after.next_local == state.next_local
                &&& after.bindings.len() == state.bindings.len()
                &&& after.bindings[place] == (BindingView {
                    key: declaration.key,
                    identity: claimed.0,
                    shape: declaration.shape,
                })
                &&& forall|other: int|
                    0 <= other < state.bindings.len() && other != place
                        ==> #[trigger] after.bindings[other] == state.bindings[other]
            },
            Err(rejection) => {
                &&& state.bindings[place].shape != declaration.shape
                &&& rejection == Rejection::IdentityRebindRejected {
                    identity: claimed,
                    bound_shape: state.bindings[place].shape,
                    attempted_shape: declaration.shape,
                }
            },
        },
{
    lemma_position_is(
        state.bindings,
        |binding: BindingView| binding.identity == claimed.0,
        place,
    );
}

/// An identity that is minted can be continued at once under any key, with the
/// shape that it was minted for and with no other.
pub proof fn a_minted_identity_is_continued_under_the_declared_shape(
    state: StateView,
    declaration: DeclarationView,
    after: StateView,
    assignment: AssignmentView,
    key: Seq<u8>,
    shape: DeclaredShape,
)
    requires
        forall|place: int|
            0 <= place < state.bindings.len() ==> (#[trigger] state.bindings[place]).identity
                < state.next_local,
        state.bind_or_mint(declaration) == Ok::<(StateView, AssignmentView), Rejection>(
            (after, assignment),
        ),
        assignment.outcome == BindOutcome::Minted,
    ensures
        after.shape_of(assignment.identity.0) == Some(declaration.shape),
        match after.bind_or_mint(
            DeclarationView { key, shape, intent: IdentityIntent::Continue(assignment.identity) },
        ) {
            Ok((_, continued)) => shape == declaration.shape && continued == (AssignmentView {
                key,
                identity: assignment.identity,
                outcome: BindOutcome::Bound,
            }),
            Err(rejection) => shape != declaration.shape && rejection
                == Rejection::IdentityRebindRejected {
                identity: assignment.identity,
                bound_shape: declaration.shape,
                attempted_shape: shape,
            },
        },
{
    lemma_position(state.bindings, |binding: BindingView| binding.key == declaration.key);
    let last = state.bindings.len() as int;
    assert(declaration.intent == IdentityIntent::MintOrBind) by {
        match declaration.intent {
            IdentityIntent::MintOrBind => {},
            IdentityIntent::Continue(claimed) => {
                lemma_position(
                    state.bindings,
                    |binding: BindingView| binding.identity == claimed.0,
                );
            },
        }
    }
    an_unbound_key_is_minted(state, declaration);
    lemma_position_is(
        after.bindings,
        |binding: BindingView| binding.identity == assignment.identity.0,
        last,
    );
    let again = DeclarationView {
        key,
        shape,
        intent: IdentityIntent::Continue(assignment.identity),
    };
    a_held_identity_is_continued_under_its_shape(after, again, assignment.identity, last);
}

/// Declaring one thing by itself is declaring a set of one.
pub proof fn a_set_of_one_is_its_declaration(state: StateView, declaration: DeclarationView)
    ensures
        match state.bind_or_mint(declaration) {
            Ok((after, assignment)) => state.bind_all(seq![declaration]) == Ok::<
                (StateView, Seq<AssignmentView>),
                Rejection,
            >((after, seq![assignment])),
            Err(rejection) => state.bind_all(seq![declaration]) == Err::<
                (StateView, Seq<AssignmentView>),
                Rejection,
            >(rejection),
        },
{
    let set = seq![declaration];
    assert(set.drop_last() =~= Seq::empty());
    assert(state.bind_all(set.drop_last()) == Ok::<(StateView, Seq<AssignmentView>), Rejection>(
        (state, Seq::empty()),
    ));
    match state.bind_or_mint(declaration) {
        Ok((_, assignment)) => {
            assert(Seq::empty().push(assignment) =~= seq![assignment]);
        },
        Err(_) => {},
    }
}

/// Declaring two sets one after the other is declaring them as one set.
pub proof fn sets_are_taken_one_after_the_other(
    state: StateView,
    first: Seq<DeclarationView>,
    second: Seq<DeclarationView>,
)
    ensures
        match state.bind_all(first) {
            Err(rejection) => state.bind_all(first + second) == Err::<
                (StateView, Seq<AssignmentView>),
                Rejection,
            >(rejection),
            Ok((middle, done)) => match middle.bind_all(second) {
                Err(rejection) => state.bind_all(first + second) == Err::<
                    (StateView, Seq<AssignmentView>),
                    Rejection,
                >(rejection),
                Ok((after, assignments)) => state.bind_all(first + second) == Ok::<
                    (StateView, Seq<AssignmentView>),
                    Rejection,
                >((after, done + assignments)),
            },
        },
    decreases second.len(),
{
    if second.len() == 0 {
        assert(first + second =~= first);
        match state.bind_all(first) {
            Ok((_, done)) => {
                assert(done + Seq::<AssignmentView>::empty() =~= done);
            },
            Err(_) => {},
        }
    } else {
        let rest = second.drop_last();
        sets_are_taken_one_after_the_other(state, first, rest);
        assert((first + second).drop_last() =~= first + rest);
        assert((first + second).last() == second.last());
        match state.bind_all(first) {
            Ok((middle, done)) => match middle.bind_all(rest) {
                Ok((state_after, some)) => match state_after.bind_or_mint(second.last()) {
                    Ok((_, assignment)) => {
                        assert((done + some).push(assignment) =~= done + some.push(assignment));
                    },
                    Err(_) => {},
                },
                Err(_) => {},
            },
            Err(_) => {},
        }
    }
}

/// Binding a set of declarations gives what its declarations give, and one
/// assignment for each.
pub proof fn a_set_is_bound_as_its_declarations_are(
    state: UniverseState,
    declarations: Vec<DeclaredIdentity>,
    result: Result<(UniverseState, Vec<IdentityAssignment>), Rejection>,
)
    requires
        call_ensures(UniverseState::bind_all, (state, &declarations), result),
    ensures
        match result {
            Ok((after, assignments)) => state@.bind_all(declaration_views(declarations@)) == Ok::<
                (StateView, Seq<AssignmentView>),
                Rejection,
            >((after@, assignment_views(assignments@))),
            Err(rejection) => state@.bind_all(declaration_views(declarations@)) == Err::<
                (StateView, Seq<AssignmentView>),
                Rejection,
            >(rejection),
        },
{
}

/// A declaration is bound as it is said to be, and one that is turned down changes
/// nothing.
pub proof fn a_declaration_is_bound_as_it_is_said(
    state: &mut UniverseState,
    declaration: DeclaredIdentity,
    result: Result<IdentityAssignment, Rejection>,
)
    requires
        call_ensures(UniverseState::bind_or_mint, (state, &declaration), result),
    ensures
        match result {
            Ok(assignment) => old(state)@.bind_or_mint(declaration@) == Ok::<
                (StateView, AssignmentView),
                Rejection,
            >((final(state)@, assignment@)),
            Err(rejection) => {
                &&& old(state)@.bind_or_mint(declaration@) == Err::<
                    (StateView, AssignmentView),
                    Rejection,
                >(rejection)
                &&& final(state)@ == old(state)@
            },
        },
{
}

/// Minting gives the identity at the cursor and moves the cursor on by one, and leaves
/// everything else as it is. It is turned down only if the cursor stands at the last
/// number, and then changes nothing.
pub proof fn minting_moves_the_cursor_on(
    state: &mut UniverseState,
    minted: Result<u32, Rejection>,
)
    requires
        call_ensures(UniverseState::mint_local, (state,), minted),
    ensures
        final(state)@.universe == old(state)@.universe,
        final(state)@.bindings == old(state)@.bindings,
        match minted {
            Ok(identity) => identity == old(state)@.next_local && final(state)@.next_local
                == identity + 1,
            Err(rejection) => {
                &&& rejection == Rejection::Internal
                &&& old(state)@.next_local == u32::MAX
                &&& final(state)@.next_local == u32::MAX
            },
        },
{
}

/// A schema-whole is resolved as it is said to be, and where no universe is left nothing
/// changes.
pub proof fn a_whole_is_resolved_as_it_is_said(
    registry: &mut UniverseRegistry,
    whole: SchemaWholeHandle,
    resolved: Result<(u32, bool), Error>,
)
    requires
        call_ensures(UniverseRegistry::resolve_or_mint, (registry, &whole), resolved),
    ensures
        match resolved {
            Ok((universe, minted)) => old(registry)@.resolve(whole.0@) == Some(
                Resolution { registry: final(registry)@, universe, minted },
            ),
            Err(error) => {
                &&& old(registry)@.resolve(whole.0@) is None
                &&& final(registry)@ == old(registry)@
                &&& error matches Error::Storage(message)
                &&& message@ == "universe identifier space exhausted"@
            },
        },
{
}

/// What stands in a universe is told by its fields: nothing is left out and nothing
/// is changed.
pub proof fn a_universe_is_told_by_its_fields(state: UniverseState, place: int)
    requires
        0 <= place < state.bindings@.len(),
    ensures
        state@.universe == state.universe,
        state@.next_local == state.next_local,
        state@.bindings.len() == state.bindings@.len(),
        state@.bindings[place].key == state.bindings@[place].key.0@,
        state@.bindings[place].identity == state.bindings@[place].identity,
        state@.bindings[place].shape == state.bindings@[place].shape,
{
}

/// A universe in which nothing is bound holds no binding and mints from zero.
pub proof fn an_empty_universe_mints_from_zero(universe: u32, state: UniverseState)
    requires
        call_ensures(UniverseState::empty, (universe,), state),
    ensures
        state.universe == universe,
        state.next_local == 0,
        state@.bindings.len() == 0,
        StateView::empty(universe) == state@,
{
}

/// A schema-whole that has a universe is given that universe, and the registry stays
/// as it is.
pub proof fn a_known_whole_is_given_its_universe(
    registry: RegistryView,
    handle: Seq<u8>,
    place: int,
)
    requires
        0 <= place < registry.wholes.len(),
        registry.wholes[place].handle == handle,
        forall|earlier: int|
            0 <= earlier < place ==> (#[trigger] registry.wholes[earlier]).handle != handle,
    ensures
        registry.resolve(handle) matches Some(resolution) && {
            &&& resolution.universe == registry.wholes[place].universe
            &&& !resolution.minted
            &&& resolution.registry == registry
        },
{
    lemma_position_is(registry.wholes, |whole: WholeView| whole.handle == handle, place);
}

/// A schema-whole that has no universe is given the one at the cursor, which moves
/// on by one: the whole and its universe are added to the registry. There is none to
/// give only if the cursor stands at the last number.
pub proof fn an_unknown_whole_is_given_a_new_universe(registry: RegistryView, handle: Seq<u8>)
    requires
        forall|place: int|
            0 <= place < registry.wholes.len() ==> (#[trigger] registry.wholes[place]).handle
                != handle,
    ensures
        match registry.resolve(handle) {
            Some(resolution) => {
                &&& registry.next_universe < u32::MAX
                &&& resolution.minted
                &&& resolution.universe == registry.next_universe
                &&& resolution.registry.next_universe == registry.next_universe + 1
                &&& resolution.registry.wholes == registry.wholes.push(
                    WholeView { handle, universe: registry.next_universe },
                )
            },
            None => registry.next_universe == u32::MAX,
        },
{
    lemma_position(registry.wholes, |whole: WholeView| whole.handle == handle);
}

} // verus!
