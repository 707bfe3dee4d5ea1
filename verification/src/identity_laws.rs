//! Laws of the identity authority within one universe and within one registry.
use vstd::prelude::*;

use crate::identity::{BindingView, RegistryView, StateView, WholeView};
use crate::protocol::{
    AssignmentView, BindOutcome, DeclarationView, IdentityIntent, Rejection, TypeIdentity,
};
use crate::search::{
    lemma_position, lemma_position_is, lemma_position_present, lemma_position_push,
    lemma_position_update,
};

verus! {

impl StateView {
    /// Whether each identity is bound once and lies before the cursor.
    pub open spec fn is_sound(self) -> bool {
        &&& forall|index: int|
            0 <= index < self.bindings.len() ==> (#[trigger] self.bindings[index]).identity
                < self.next_local
        &&& forall|left: int, right: int|
            0 <= left < right < self.bindings.len() ==> (#[trigger] self.bindings[left]).identity
                != (#[trigger] self.bindings[right]).identity
    }
}

impl RegistryView {
    /// Whether each schema-whole and each universe occurs once, and each
    /// universe lies before the cursor.
    pub open spec fn is_sound(self) -> bool {
        &&& forall|index: int|
            0 <= index < self.wholes.len() ==> (#[trigger] self.wholes[index]).universe
                < self.next_universe
        &&& forall|left: int, right: int|
            0 <= left < right < self.wholes.len() ==> {
                &&& (#[trigger] self.wholes[left]).universe != (
                #[trigger] self.wholes[right]).universe
                &&& self.wholes[left].handle != self.wholes[right].handle
            }
    }
}

/// Whether every declaration mints or binds.
pub open spec fn all_mint_or_bind(declarations: Seq<DeclarationView>) -> bool {
    forall|index: int|
        0 <= index < declarations.len() ==> (#[trigger] declarations[index]).intent
            == IdentityIntent::MintOrBind
}

/// Whether a declaration may part a key from its identity: it continues another
/// identity under the key, or the identity under another key.
pub open spec fn disturbs(declaration: DeclarationView, key: Seq<u8>, identity: u32) -> bool {
    declaration.intent matches IdentityIntent::Continue(claimed) && ((declaration.key == key) != (
    claimed.0 == identity))
}

/// Whether no declaration of a set may part a key from its identity.
pub open spec fn leave_alone(
    declarations: Seq<DeclarationView>,
    key: Seq<u8>,
    identity: u32,
) -> bool {
    forall|index: int|
        0 <= index < declarations.len() ==> !disturbs(
            #[trigger] declarations[index],
            key,
            identity,
        )
}

/// A key that is bound is never minted anew: a declaration that mints or binds
/// is given the identity that its key has, moves no cursor and changes no
/// key's identity. Its shape is recorded under that identity.
pub proof fn bound_keys_are_never_minted_anew(state: StateView, declaration: DeclarationView)
    requires
        declaration.intent == IdentityIntent::MintOrBind,
        state.identity_of(declaration.key) is Some,
    ensures
        state.bind_or_mint(declaration) matches Ok((after, assignment)) && {
            &&& assignment.identity.0 == state.identity_of(declaration.key)->0
            &&& assignment.outcome == BindOutcome::Bound
            &&& after.next_local == state.next_local
            &&& after.bindings.len() == state.bindings.len()
            &&& after.bindings[state.key_position(declaration.key)->0].shape == declaration.shape
            &&& forall|key: Seq<u8>| #[trigger] after.identity_of(key) == state.identity_of(key)
        },
{
    lemma_mint_or_bind(state, declaration);
}

/// What a declaration that mints or binds does to the identities of keys.
proof fn lemma_mint_or_bind(state: StateView, declaration: DeclarationView)
    requires
        declaration.intent == IdentityIntent::MintOrBind,
    ensures
        match state.bind_or_mint(declaration) {
            Ok((after, assignment)) => {
                &&& after.identity_of(declaration.key) == Some(assignment.identity.0)
                &&& forall|key: Seq<u8>| #[trigger]
                    state.identity_of(key) is Some ==> after.identity_of(key) == state.identity_of(
                        key,
                    )
                &&& forall|key: Seq<u8>|
                    key != declaration.key ==> #[trigger] after.identity_of(key)
                        == state.identity_of(key)
                &&& assignment.outcome == BindOutcome::Bound <==> state.identity_of(
                    declaration.key,
                ) is Some
            },
            Err(rejection) => {
                &&& rejection == Rejection::Internal
                &&& state.identity_of(declaration.key) is None
                &&& state.next_local == u32::MAX
            },
        },
{
    let own = |binding: BindingView| binding.key == declaration.key;
    lemma_position(state.bindings, own);
    match state.bind_or_mint(declaration) {
        Ok((after, assignment)) => {
            assert forall|key: Seq<u8>| key != declaration.key || state.identity_of(
                key,
            ) is Some implies #[trigger] after.identity_of(key) == state.identity_of(key) by {
                let wanted = |binding: BindingView| binding.key == key;
                match state.key_position(declaration.key) {
                    Some(index) => {
                        lemma_position_update(
                            state.bindings,
                            wanted,
                            index,
                            BindingView { shape: declaration.shape, ..state.bindings[index] },
                        );
                        lemma_position(state.bindings, wanted);
                    },
                    None => {
                        lemma_position_push(
                            state.bindings,
                            wanted,
                            BindingView {
                                key: declaration.key,
                                identity: state.next_local,
                                shape: declaration.shape,
                            },
                        );
                        lemma_position(state.bindings, wanted);
                    },
                }
            }
            if state.key_position(declaration.key) is None {
                lemma_position_push(
                    state.bindings,
                    own,
                    BindingView {
                        key: declaration.key,
                        identity: state.next_local,
                        shape: declaration.shape,
                    },
                );
            }
        },
        Err(_) => {},
    }
}

/// An identity is never carried over to another thing: a declaration that
/// continues an identity which was never minted, or which is bound to another
/// shape, is turned down and says so.
pub proof fn identities_are_never_rebound(
    state: StateView,
    declaration: DeclarationView,
    claimed: TypeIdentity,
)
    requires
        declaration.intent == IdentityIntent::Continue(claimed),
    ensures
        match state.shape_of(claimed.0) {
            None => state.bind_or_mint(declaration) == Err::<
                (StateView, AssignmentView),
                Rejection,
            >(Rejection::IdentityNeverMinted(claimed)),
            Some(shape) => {
                &&& shape != declaration.shape ==> state.bind_or_mint(declaration) == Err::<
                    (StateView, AssignmentView),
                    Rejection,
                >(
                    Rejection::IdentityRebindRejected {
                        identity: claimed,
                        bound_shape: shape,
                        attempted_shape: declaration.shape,
                    },
                )
                &&& shape == declaration.shape ==> state.bind_or_mint(declaration) is Ok
            },
        },
{
}

/// Continuing an identity mints nothing and keeps the shape of every identity:
/// only the key under which the identity stands may change.
pub proof fn continuing_keeps_every_shape(
    state: StateView,
    declaration: DeclarationView,
    claimed: TypeIdentity,
    after: StateView,
    assignment: AssignmentView,
)
    requires
        declaration.intent == IdentityIntent::Continue(claimed),
        state.bind_or_mint(declaration) == Ok::<(StateView, AssignmentView), Rejection>(
            (after, assignment),
        ),
    ensures
        assignment.identity == claimed,
        assignment.outcome == BindOutcome::Bound,
        after.next_local == state.next_local,
        after.bindings.len() == state.bindings.len(),
        after.bindings[state.identity_position(claimed.0)->0].key == declaration.key,
        forall|identity: u32| #[trigger] after.shape_of(identity) == state.shape_of(identity),
        forall|index: int|
            0 <= index < state.bindings.len() && index != state.identity_position(claimed.0)->0
                ==> #[trigger] after.bindings[index] == state.bindings[index],
{
    let own = |binding: BindingView| binding.identity == claimed.0;
    lemma_position(state.bindings, own);
    let place = state.identity_position(claimed.0)->0;
    assert forall|identity: u32| #[trigger] after.shape_of(identity) == state.shape_of(identity) by {
        let wanted = |binding: BindingView| binding.identity == identity;
        lemma_position_update(
            state.bindings,
            wanted,
            place,
            BindingView { key: declaration.key, ..state.bindings[place] },
        );
        lemma_position(state.bindings, wanted);
    }
}

/// The shape of an identity changes only by a declaration that mints or binds
/// under the key that the identity has, and only to the declared shape. So an
/// identity goes on naming the thing that it was minted for.
pub proof fn shapes_change_only_under_their_own_key(
    state: StateView,
    declaration: DeclarationView,
    after: StateView,
    assignment: AssignmentView,
    identity: u32,
)
    requires
        state.bind_or_mint(declaration) == Ok::<(StateView, AssignmentView), Rejection>(
            (after, assignment),
        ),
        state.shape_of(identity) is Some,
    ensures
        after.shape_of(identity) == state.shape_of(identity) || {
            &&& declaration.intent == IdentityIntent::MintOrBind
            &&& state.identity_of(declaration.key) == Some(identity)
            &&& after.shape_of(identity) == Some(declaration.shape)
        },
{
    let wanted = |binding: BindingView| binding.identity == identity;
    lemma_position(state.bindings, wanted);
    match declaration.intent {
        IdentityIntent::MintOrBind => {
            lemma_position(state.bindings, |binding: BindingView| binding.key == declaration.key);
            match state.key_position(declaration.key) {
                Some(index) => {
                    lemma_position_update(
                        state.bindings,
                        wanted,
                        index,
                        BindingView { shape: declaration.shape, ..state.bindings[index] },
                    );
                },
                None => {
                    lemma_position_push(
                        state.bindings,
                        wanted,
                        BindingView {
                            key: declaration.key,
                            identity: state.next_local,
                            shape: declaration.shape,
                        },
                    );
                },
            }
        },
        IdentityIntent::Continue(claimed) => {
            continuing_keeps_every_shape(state, declaration, claimed, after, assignment);
        },
    }
}

/// One declaration keeps each identity bound once, forgets none, and mints only
/// the identity at the cursor, which was not bound before.
pub proof fn declarations_keep_identities_sound(
    state: StateView,
    declaration: DeclarationView,
    after: StateView,
    assignment: AssignmentView,
)
    requires
        state.is_sound(),
        state.bind_or_mint(declaration) == Ok::<(StateView, AssignmentView), Rejection>(
            (after, assignment),
        ),
    ensures
        after.is_sound(),
        after.universe == state.universe,
        assignment.key == declaration.key,
        after.next_local == if assignment.outcome == BindOutcome::Minted {
            state.next_local + 1
        } else {
            state.next_local as int
        },
        assignment.outcome == BindOutcome::Minted ==> assignment.identity.0 == state.next_local
            && state.shape_of(assignment.identity.0) is None,
        after.shape_of(assignment.identity.0) is Some,
        forall|identity: u32| #[trigger]
            state.shape_of(identity) is Some ==> after.shape_of(identity) is Some,
{
    let by_key = |binding: BindingView| binding.key == declaration.key;
    lemma_position(state.bindings, by_key);
    let fresh = |binding: BindingView| binding.identity == state.next_local;
    lemma_position(state.bindings, fresh);
    let minted = BindingView {
        key: declaration.key,
        identity: state.next_local,
        shape: declaration.shape,
    };
    match declaration.intent {
        IdentityIntent::MintOrBind => {},
        IdentityIntent::Continue(claimed) => {
            lemma_position(
                state.bindings,
                |binding: BindingView| binding.identity == claimed.0,
            );
        },
    }
    assert forall|left: int, right: int|
        0 <= left < right < after.bindings.len() implies (
    #[trigger] after.bindings[left]).identity != (#[trigger] after.bindings[right]).identity by {
        assert(state.bindings[left].identity == after.bindings[left].identity);
        if right < state.bindings.len() {
            assert(state.bindings[right].identity == after.bindings[right].identity);
        }
    }
    assert forall|index: int| 0 <= index < after.bindings.len() implies (
    #[trigger] after.bindings[index]).identity < after.next_local by {
        if index < state.bindings.len() {
            assert(state.bindings[index].identity == after.bindings[index].identity);
        }
    }
    assert forall|identity: u32| #[trigger] state.shape_of(identity) is Some implies after.shape_of(
        identity,
    ) is Some by {
        let wanted = |binding: BindingView| binding.identity == identity;
        lemma_position(state.bindings, wanted);
        let place = state.identity_position(identity)->0;
        assert(after.bindings[place].identity == state.bindings[place].identity);
        lemma_position_present(after.bindings, wanted, place);
    }
    let given = |binding: BindingView| binding.identity == assignment.identity.0;
    if assignment.outcome == BindOutcome::Minted {
        assert(after.bindings[state.bindings.len() as int] == minted);
        lemma_position_present(after.bindings, given, state.bindings.len() as int);
    } else {
        let place = match declaration.intent {
            IdentityIntent::MintOrBind => state.key_position(declaration.key)->0,
            IdentityIntent::Continue(claimed) => state.identity_position(claimed.0)->0,
        };
        assert(after.bindings[place].identity == assignment.identity.0);
        lemma_position_present(after.bindings, given, place);
    }
}

/// A set of declarations keeps each identity bound once and forgets none. The
/// identities that it mints are distinct, and none was bound before.
pub proof fn declaration_sets_keep_identities_sound(
    state: StateView,
    declarations: Seq<DeclarationView>,
    after: StateView,
    assignments: Seq<AssignmentView>,
)
    requires
        state.is_sound(),
        state.bind_all(declarations) == Ok::<(StateView, Seq<AssignmentView>), Rejection>(
            (after, assignments),
        ),
    ensures
        after.is_sound(),
        after.universe == state.universe,
        after.next_local >= state.next_local,
        assignments.len() == declarations.len(),
        forall|index: int|
            0 <= index < assignments.len() ==> {
                &&& (#[trigger] assignments[index]).key == declarations[index].key
                &&& after.shape_of(assignments[index].identity.0) is Some
                &&& assignments[index].outcome == BindOutcome::Minted ==> {
                    &&& state.next_local <= assignments[index].identity.0 < after.next_local
                    &&& state.shape_of(assignments[index].identity.0) is None
                }
            },
        forall|left: int, right: int|
            0 <= left < right < assignments.len() && (#[trigger] assignments[left]).outcome
                == BindOutcome::Minted && (#[trigger] assignments[right]).outcome
                == BindOutcome::Minted ==> assignments[left].identity
                != assignments[right].identity,
        forall|identity: u32| #[trigger]
            state.shape_of(identity) is Some ==> after.shape_of(identity) is Some,
    decreases declarations.len(),
{
    if declarations.len() > 0 {
        let (middle, done) = state.bind_all(declarations.drop_last())->Ok_0;
        let (last_after, last) = middle.bind_or_mint(declarations.last())->Ok_0;
        declaration_sets_keep_identities_sound(state, declarations.drop_last(), middle, done);
        declarations_keep_identities_sound(middle, declarations.last(), after, last);
        assert(assignments == done.push(last));
        assert forall|index: int| 0 <= index < assignments.len() implies {
            &&& (#[trigger] assignments[index]).key == declarations[index].key
            &&& after.shape_of(assignments[index].identity.0) is Some
            &&& assignments[index].outcome == BindOutcome::Minted ==> {
                &&& state.next_local <= assignments[index].identity.0 < after.next_local
                &&& state.shape_of(assignments[index].identity.0) is None
            }
        } by {
            if index < done.len() {
                assert(assignments[index] == done[index]);
                assert(declarations.drop_last()[index] == declarations[index]);
                assert(middle.shape_of(done[index].identity.0) is Some);
            } else {
                if last.outcome == BindOutcome::Minted && state.shape_of(
                    last.identity.0,
                ) is Some {
                    assert(middle.shape_of(last.identity.0) is Some);
                }
            }
        }
        assert forall|left: int, right: int|
            0 <= left < right < assignments.len() && (#[trigger] assignments[left]).outcome
                == BindOutcome::Minted && (#[trigger] assignments[right]).outcome
                == BindOutcome::Minted implies assignments[left].identity
            != assignments[right].identity by {
            assert(assignments[left] == done[left]);
            if right < done.len() {
                assert(assignments[right] == done[right]);
            }
        }
        assert forall|identity: u32| #[trigger]
            state.shape_of(identity) is Some implies after.shape_of(identity) is Some by {
            assert(middle.shape_of(identity) is Some);
        }
    }
}

/// A set of declarations is turned down as a whole as soon as one of them is, and
/// for the reason of the first that is.
pub proof fn one_bad_declaration_turns_down_the_set(
    state: StateView,
    declarations: Seq<DeclarationView>,
    index: int,
    middle: StateView,
    done: Seq<AssignmentView>,
    rejection: Rejection,
)
    requires
        0 <= index < declarations.len(),
        state.bind_all(declarations.take(index)) == Ok::<
            (StateView, Seq<AssignmentView>),
            Rejection,
        >((middle, done)),
        middle.bind_or_mint(declarations[index]) == Err::<(StateView, AssignmentView), Rejection>(
            rejection,
        ),
    ensures
        state.bind_all(declarations) == Err::<(StateView, Seq<AssignmentView>), Rejection>(
            rejection,
        ),
{
    assert(declarations.take(index + 1).drop_last() =~= declarations.take(index));
    assert(declarations.take(index + 1).last() == declarations[index]);
    state.lemma_early_rejection(declarations, index + 1);
}

/// A set of declarations is turned down only for an identity that was never minted,
/// an identity that is bound to another shape, or want of identities.
pub proof fn declarations_are_turned_down_for_their_identities(
    state: StateView,
    declarations: Seq<DeclarationView>,
)
    ensures
        state.bind_all(declarations) matches Err(rejection) ==> rejection is IdentityNeverMinted
            || rejection is IdentityRebindRejected || rejection is Internal,
    decreases declarations.len(),
{
    if declarations.len() > 0 {
        declarations_are_turned_down_for_their_identities(state, declarations.drop_last());
    }
}

/// What a set of declarations that all mint or bind comes to. Every key that
/// was bound keeps its identity, every declared key stands for the identity
/// that it was assigned, a key that was bound before is answered as bound, and
/// the set is turned down only if an unbound key finds no identity left.
pub proof fn carried_keys_keep_their_identities(
    state: StateView,
    declarations: Seq<DeclarationView>,
)
    requires
        all_mint_or_bind(declarations),
    ensures
        match state.bind_all(declarations) {
            Ok((after, assignments)) => {
                &&& assignments.len() == declarations.len()
                &&& forall|key: Seq<u8>| #[trigger]
                    state.identity_of(key) is Some ==> after.identity_of(key)
                        == state.identity_of(key)
                &&& forall|index: int|
                    0 <= index < declarations.len() ==> {
                        &&& after.identity_of((#[trigger] declarations[index]).key) == Some(
                            assignments[index].identity.0,
                        )
                        &&& assignments[index].key == declarations[index].key
                        &&& state.identity_of(declarations[index].key) is Some
                            ==> assignments[index].outcome == BindOutcome::Bound
                        &&& assignments[index].outcome == BindOutcome::Minted ==> state.identity_of(
                            declarations[index].key,
                        ) is None
                    }
            },
            Err(rejection) => {
                &&& rejection == Rejection::Internal
                &&& exists|index: int|
                    0 <= index < declarations.len() && state.identity_of(
                        (#[trigger] declarations[index]).key,
                    ) is None
            },
        },
    decreases declarations.len(),
{
    if declarations.len() > 0 {
        let rest = declarations.drop_last();
        let last = declarations.len() - 1;
        assert forall|index: int| 0 <= index < rest.len() implies (#[trigger] rest[index]).intent
            == IdentityIntent::MintOrBind by {
            assert(rest[index] == declarations[index]);
        }
        carried_keys_keep_their_identities(state, rest);
        match state.bind_all(rest) {
            Ok((middle, done)) => {
                assert(declarations[last].intent == IdentityIntent::MintOrBind);
                lemma_mint_or_bind(middle, declarations.last());
                match middle.bind_or_mint(declarations.last()) {
                    Ok((after, assignment)) => {
                        let assignments = done.push(assignment);
                        assert forall|key: Seq<u8>| #[trigger]
                            state.identity_of(key) is Some implies after.identity_of(key)
                            == state.identity_of(key) by {
                            assert(middle.identity_of(key) == state.identity_of(key));
                        }
                        assert forall|index: int| 0 <= index < declarations.len() implies {
                            &&& after.identity_of((#[trigger] declarations[index]).key) == Some(
                                assignments[index].identity.0,
                            )
                            &&& assignments[index].key == declarations[index].key
                            &&& state.identity_of(declarations[index].key) is Some
                                ==> assignments[index].outcome == BindOutcome::Bound
                            &&& assignments[index].outcome == BindOutcome::Minted
                                ==> state.identity_of(declarations[index].key) is None
                        } by {
                            if index < last {
                                assert(rest[index] == declarations[index]);
                                assert(middle.identity_of(rest[index].key) is Some);
                            } else {
                                if state.identity_of(declarations[index].key) is Some {
                                    assert(middle.identity_of(declarations[index].key) is Some);
                                }
                            }
                        }
                    },
                    Err(_) => {
                        if state.identity_of(declarations[last].key) is Some {
                            assert(middle.identity_of(declarations[last].key) is Some);
                        }
                    },
                }
            },
            Err(_) => {
                let index = choose|index: int|
                    0 <= index < rest.len() && state.identity_of((#[trigger] rest[index]).key)
                        is None;
                assert(declarations[index] == rest[index]);
            },
        }
    }
}

/// A declaration that does not part a key from its identity keeps the two
/// together.
proof fn lemma_undisturbed_key(
    state: StateView,
    declaration: DeclarationView,
    key: Seq<u8>,
    identity: u32,
)
    requires
        state.is_sound(),
        state.identity_of(key) == Some(identity),
        !disturbs(declaration, key, identity),
    ensures
        state.bind_or_mint(declaration) matches Ok((after, _)) ==> after.identity_of(key) == Some(
            identity,
        ),
{
    let wanted = |binding: BindingView| binding.key == key;
    lemma_position(state.bindings, wanted);
    match declaration.intent {
        IdentityIntent::MintOrBind => {
            lemma_mint_or_bind(state, declaration);
        },
        IdentityIntent::Continue(claimed) => {
            lemma_position(state.bindings, |binding: BindingView| binding.identity == claimed.0);
            match state.bind_or_mint(declaration) {
                Ok((after, _)) => {
                    let place = state.key_position(key)->0;
                    let moved = state.identity_position(claimed.0)->0;
                    if claimed.0 == identity {
                        assert(place == moved) by {
                            if place < moved {
                                assert(state.bindings[place].identity
                                    != state.bindings[moved].identity);
                            } else if moved < place {
                                assert(state.bindings[moved].identity
                                    != state.bindings[place].identity);
                            }
                        }
                        assert(after.bindings =~= state.bindings);
                    } else {
                        assert forall|earlier: int| 0 <= earlier < place implies !wanted(
                            #[trigger] after.bindings[earlier],
                        ) by {
                            if earlier != moved {
                                assert(after.bindings[earlier] == state.bindings[earlier]);
                            }
                        }
                        lemma_position_is(after.bindings, wanted, place);
                    }
                },
                Err(_) => {},
            }
        },
    }
}

/// What a set of declarations comes to for a bound key that none of them may part
/// from its identity: the key keeps the identity, and each declaration of the set
/// that mints or binds under the key is given it, as bound.
pub proof fn undisturbed_keys_keep_their_identities(
    state: StateView,
    declarations: Seq<DeclarationView>,
    after: StateView,
    assignments: Seq<AssignmentView>,
    key: Seq<u8>,
    identity: u32,
)
    requires
        state.is_sound(),
        state.identity_of(key) == Some(identity),
        leave_alone(declarations, key, identity),
        state.bind_all(declarations) == Ok::<(StateView, Seq<AssignmentView>), Rejection>(
            (after, assignments),
        ),
    ensures
        after.identity_of(key) == Some(identity),
        assignments.len() == declarations.len(),
        forall|index: int|
            0 <= index < declarations.len() && (#[trigger] declarations[index]).key == key
                && declarations[index].intent == IdentityIntent::MintOrBind ==> {
                &&& assignments[index].identity.0 == identity
                &&& assignments[index].outcome == BindOutcome::Bound
            },
    decreases declarations.len(),
{
    if declarations.len() > 0 {
        let rest = declarations.drop_last();
        let (middle, done) = state.bind_all(rest)->Ok_0;
        let (_, last) = middle.bind_or_mint(declarations.last())->Ok_0;
        assert(leave_alone(rest, key, identity)) by {
            assert forall|index: int| 0 <= index < rest.len() implies !disturbs(
                #[trigger] rest[index],
                key,
                identity,
            ) by {
                assert(rest[index] == declarations[index]);
            }
        }
        undisturbed_keys_keep_their_identities(state, rest, middle, done, key, identity);
        declaration_sets_keep_identities_sound(state, rest, middle, done);
        assert(!disturbs(declarations[declarations.len() - 1], key, identity));
        lemma_undisturbed_key(middle, declarations.last(), key, identity);
        assert forall|index: int|
            0 <= index < declarations.len() && (#[trigger] declarations[index]).key == key
                && declarations[index].intent == IdentityIntent::MintOrBind implies {
            &&& assignments[index].identity.0 == identity
            &&& assignments[index].outcome == BindOutcome::Bound
        } by {
            if index < rest.len() {
                assert(rest[index] == declarations[index]);
                assert(assignments[index] == done[index]);
            } else {
                lemma_mint_or_bind(middle, declarations.last());
                assert(assignments[index] == last);
            }
        }
    }
}

/// A key under which a declaration minted or bound stands for the assigned
/// identity once the whole set is taken, unless some declaration of the set may
/// part the two.
pub proof fn assigned_keys_stand_for_their_identities(
    state: StateView,
    declarations: Seq<DeclarationView>,
    after: StateView,
    assignments: Seq<AssignmentView>,
    index: int,
)
    requires
        state.is_sound(),
        state.bind_all(declarations) == Ok::<(StateView, Seq<AssignmentView>), Rejection>(
            (after, assignments),
        ),
        0 <= index < declarations.len(),
        declarations[index].intent == IdentityIntent::MintOrBind,
        leave_alone(declarations, declarations[index].key, assignments[index].identity.0),
    ensures
        after.identity_of(declarations[index].key) == Some(assignments[index].identity.0),
    decreases declarations.len(),
{
    let rest = declarations.drop_last();
    let key = declarations[index].key;
    let identity = assignments[index].identity.0;
    let (middle, done) = state.bind_all(rest)->Ok_0;
    declaration_sets_keep_identities_sound(state, rest, middle, done);
    if index < rest.len() {
        assert(rest[index] == declarations[index]);
        assert(done[index] == assignments[index]);
        assert(leave_alone(rest, key, identity)) by {
            assert forall|other: int| 0 <= other < rest.len() implies !disturbs(
                #[trigger] rest[other],
                key,
                identity,
            ) by {
                assert(rest[other] == declarations[other]);
            }
        }
        assigned_keys_stand_for_their_identities(state, rest, middle, done, index);
        assert(!disturbs(declarations[declarations.len() - 1], key, identity));
        lemma_undisturbed_key(middle, declarations.last(), key, identity);
    } else {
        lemma_mint_or_bind(middle, declarations.last());
    }
}

/// Resolving a schema-whole keeps each whole and each universe once, and keeps
/// the universe of every whole that had one. A universe that is minted was no
/// whole's before.
pub proof fn wholes_keep_their_universes(registry: RegistryView, handle: Seq<u8>)
    requires
        registry.is_sound(),
        registry.resolve(handle) is Some,
    ensures
        ({
            let resolution = registry.resolve(handle)->0;
            &&& resolution.registry.is_sound()
            &&& resolution.registry.universe_of(handle) == Some(resolution.universe)
            &&& resolution.minted <==> registry.universe_of(handle) is None
            &&& resolution.universe < resolution.registry.next_universe
            &&& forall|other: Seq<u8>|
                other != handle ==> #[trigger] resolution.registry.universe_of(other)
                    == registry.universe_of(other)
            &&& resolution.minted ==> forall|other: Seq<u8>| #[trigger]
                registry.universe_of(other) != Some(resolution.universe)
        }),
{
    let resolution = registry.resolve(handle)->0;
    let own = |whole: WholeView| whole.handle == handle;
    lemma_position(registry.wholes, own);
    if registry.universe_of(handle) is None {
        let added = WholeView { handle, universe: registry.next_universe };
        lemma_position_push(registry.wholes, own, added);
        assert forall|other: Seq<u8>| other != handle implies #[trigger]
            resolution.registry.universe_of(other) == registry.universe_of(other) by {
            let wanted = |whole: WholeView| whole.handle == other;
            lemma_position_push(registry.wholes, wanted, added);
            lemma_position(registry.wholes, wanted);
        }
        assert forall|other: Seq<u8>| #[trigger] registry.universe_of(other) != Some(
            resolution.universe,
        ) by {
            lemma_position(registry.wholes, |whole: WholeView| whole.handle == other);
        }
        assert forall|left: int, right: int|
            0 <= left < right < resolution.registry.wholes.len() implies {
            &&& (#[trigger] resolution.registry.wholes[left]).universe != (
            #[trigger] resolution.registry.wholes[right]).universe
            &&& resolution.registry.wholes[left].handle != resolution.registry.wholes[right].handle
        } by {
            assert(resolution.registry.wholes[left] == registry.wholes[left]);
            if right < registry.wholes.len() {
                assert(resolution.registry.wholes[right] == registry.wholes[right]);
            }
        }
        assert forall|index: int| 0 <= index < resolution.registry.wholes.len() implies (
        #[trigger] resolution.registry.wholes[index]).universe
            < resolution.registry.next_universe by {
            if index < registry.wholes.len() {
                assert(resolution.registry.wholes[index] == registry.wholes[index]);
            }
        }
    }
}

/// Distinct schema-wholes have distinct universes.
pub proof fn distinct_wholes_have_distinct_universes(
    registry: RegistryView,
    left: Seq<u8>,
    right: Seq<u8>,
)
    requires
        registry.is_sound(),
        left != right,
        registry.universe_of(left) is Some,
        registry.universe_of(right) is Some,
    ensures
        registry.universe_of(left) != registry.universe_of(right),
{
    lemma_position(registry.wholes, |whole: WholeView| whole.handle == left);
    lemma_position(registry.wholes, |whole: WholeView| whole.handle == right);
    let p = registry.whole_position(left)->0;
    let q = registry.whole_position(right)->0;
    if p < q {
        assert(registry.wholes[p].universe != registry.wholes[q].universe);
    } else if q < p {
        assert(registry.wholes[q].universe != registry.wholes[p].universe);
    }
}

} // verus!
