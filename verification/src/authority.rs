//! Binding a schema-whole: what is read from the authority table, what is
//! decided and what is written back in one commit.
use vstd::prelude::*;

use crate::error::Error;
use crate::identity::{
    RegistryView, StateView, UniverseRegistry, UniverseState, assignment_views, declaration_views,
};
use crate::protocol::{
    AssignmentView, BoundIdentities, DeclarationView, DeclaredIdentity, MintedUniverse, Rejection,
    SchemaWholeHandle,
};
use crate::records::{AuthorityRecord, AuthorityView, authority_views};
use crate::search::{first, lemma_first_without, lemma_position_absent, lemma_position_is};

verus! {

/// One write of a commit to the authority table.
#[derive(Debug)]
pub enum AuthorityWrite {
    /// Adds a record whose key the table does not hold.
    Assert(AuthorityRecord),
    /// Replaces the record that the table holds under the same key.
    Mutate(AuthorityRecord),
}

/// The content of an [`AuthorityWrite`].
pub ghost enum AuthorityWriteView {
    Assert(AuthorityView),
    Mutate(AuthorityView),
}

impl View for AuthorityWrite {
    type V = AuthorityWriteView;

    open spec fn view(&self) -> AuthorityWriteView {
        match *self {
            AuthorityWrite::Assert(record) => AuthorityWriteView::Assert(record@),
            AuthorityWrite::Mutate(record) => AuthorityWriteView::Mutate(record@),
        }
    }
}

/// The contents of writes.
pub open spec fn write_views(writes: Seq<AuthorityWrite>) -> Seq<AuthorityWriteView> {
    writes.map_values(|write: AuthorityWrite| write@)
}

/// The first registry among authority records.
pub open spec fn registry_in(records: Seq<AuthorityView>) -> Option<RegistryView> {
    match first(records, |record: AuthorityView| record is UniverseRegistry) {
        Some(record) => Some(record->UniverseRegistry_0),
        None => None,
    }
}

/// Whether a record holds the bindings of a universe.
pub open spec fn is_state_of(record: AuthorityView, universe: u32) -> bool {
    record matches AuthorityView::UniverseState(state) && state.universe == universe
}

/// The first bindings of a universe among authority records.
pub open spec fn state_in(records: Seq<AuthorityView>, universe: u32) -> Option<StateView> {
    match first(records, |record: AuthorityView| is_state_of(record, universe)) {
        Some(record) => Some(record->UniverseState_0),
        None => None,
    }
}

/// A registry that was read, or the empty one.
pub open spec fn registry_or_empty(found: Option<RegistryView>) -> RegistryView {
    match found {
        Some(registry) => registry,
        None => RegistryView::empty(),
    }
}

/// Bindings that were read, or none.
pub open spec fn state_or_empty(found: Option<StateView>, universe: u32) -> StateView {
    match found {
        Some(state) => state,
        None => StateView::empty(universe),
    }
}

/// How a record is written: replaced where it was read, else added.
pub open spec fn write_of(existed: bool, record: AuthorityView) -> AuthorityWriteView {
    if existed {
        AuthorityWriteView::Mutate(record)
    } else {
        AuthorityWriteView::Assert(record)
    }
}

/// What binding a schema-whole comes to.
pub ghost enum BindPlan {
    /// There is no universe left to mint.
    Exhausted,
    /// A declaration was turned down; nothing is to be written.
    Rejected(Rejection),
    /// One commit, and what is answered once it is done.
    Commit {
        writes: Seq<AuthorityWriteView>,
        universe: u32,
        assignments: Seq<AssignmentView>,
    },
}

/// What binding the declarations of a schema-whole comes to, given what the
/// authority table holds. The registry is written only where a universe was
/// minted; the bindings of the universe are always written.
pub open spec fn bind_plan(
    records: Seq<AuthorityView>,
    whole: Seq<u8>,
    declarations: Seq<DeclarationView>,
) -> BindPlan {
    let registry = registry_in(records);
    match registry_or_empty(registry).resolve(whole) {
        None => BindPlan::Exhausted,
        Some(resolution) => {
            let state = state_in(records, resolution.universe);
            match state_or_empty(state, resolution.universe).bind_all(declarations) {
                Err(rejection) => BindPlan::Rejected(rejection),
                Ok((after, assignments)) => BindPlan::Commit {
                    writes: (if resolution.minted {
                        seq![
                            write_of(
                                registry is Some,
                                AuthorityView::UniverseRegistry(resolution.registry),
                            ),
                        ]
                    } else {
                        Seq::empty()
                    }).push(write_of(state is Some, AuthorityView::UniverseState(after))),
                    universe: resolution.universe,
                    assignments,
                },
            }
        },
    }
}

/// The first registry among authority records, and the other records.
pub fn universe_registry(records: Vec<AuthorityRecord>) -> (taken: (
    Option<UniverseRegistry>,
    Vec<AuthorityRecord>,
))
    ensures
        match taken.0 {
            Some(registry) => registry_in(authority_views(records@)) == Some(registry@),
            None => registry_in(authority_views(records@)) is None,
        },
        forall|universe: u32| #[trigger]
            state_in(authority_views(taken.1@), universe) == state_in(
                authority_views(records@),
                universe,
            ),
{
    let mut rest = records;
    let ghost views = authority_views(records@);
    let ghost wanted = |record: AuthorityView| record is UniverseRegistry;
    let mut index: usize = 0;
    while index < rest.len()
        invariant
            rest == records,
            index <= rest@.len(),
            views == authority_views(records@),
            wanted == (|record: AuthorityView| record is UniverseRegistry),
            forall|i: int| 0 <= i < index ==> !wanted(#[trigger] views[i]),
        decreases rest@.len() - index,
    {
        assert(views[index as int] == rest@[index as int]@);
        let found: bool = match &rest[index] {
            AuthorityRecord::UniverseRegistry(_) => true,
            AuthorityRecord::UniverseState(_) => false,
        };
        if found {
            proof {
                lemma_position_is(views, wanted, index as int);
            }
            let taken = rest.remove(index);
            proof {
                assert(authority_views(rest@) =~= views.remove(index as int));
                assert forall|universe: u32| #[trigger]
                    state_in(authority_views(rest@), universe) == state_in(views, universe) by {
                    lemma_first_without(
                        views,
                        |record: AuthorityView| is_state_of(record, universe),
                        index as int,
                    );
                }
            }
            return match taken {
                AuthorityRecord::UniverseRegistry(registry) => (Some(registry), rest),
                AuthorityRecord::UniverseState(_) => (None, rest),
            };
        }
        index = index + 1;
    }
    proof {
        lemma_position_absent(views, wanted);
    }
    (None, rest)
}

/// The first bindings of a universe among authority records.
pub fn universe_state(records: Vec<AuthorityRecord>, universe: u32) -> (found: Option<
    UniverseState,
>)
    ensures
        match found {
            Some(state) => state_in(authority_views(records@), universe) == Some(state@),
            None => state_in(authority_views(records@), universe) is None,
        },
{
    let mut rest = records;
    let ghost views = authority_views(records@);
    let ghost wanted = |record: AuthorityView| is_state_of(record, universe);
    let mut index: usize = 0;
    while index < rest.len()
        invariant
            rest == records,
            index <= rest@.len(),
            views == authority_views(records@),
            wanted == (|record: AuthorityView| is_state_of(record, universe)),
            forall|i: int| 0 <= i < index ==> !wanted(#[trigger] views[i]),
        decreases rest@.len() - index,
    {
        assert(views[index as int] == rest@[index as int]@);
        let found: bool = match &rest[index] {
            AuthorityRecord::UniverseRegistry(_) => false,
            AuthorityRecord::UniverseState(state) => state.universe == universe,
        };
        if found {
            proof {
                lemma_position_is(views, wanted, index as int);
            }
            return match rest.swap_remove(index) {
                AuthorityRecord::UniverseRegistry(_) => None,
                AuthorityRecord::UniverseState(state) => Some(state),
            };
        }
        index = index + 1;
    }
    proof {
        lemma_position_absent(views, wanted);
    }
    None
}

/// A commit to the authority table, and what is answered once it is done.
#[derive(Debug)]
pub struct BindCommit {
    pub writes: Vec<AuthorityWrite>,
    pub bound: BoundIdentities,
}

/// What binding comes to: a commit, a rejection, or a failure.
#[derive(Debug)]
pub enum BindDecision {
    Commit(BindCommit),
    Rejected(Rejection),
    Failed(Error),
}

/// Decides what binding the declarations of a schema-whole comes to, given what
/// the authority table holds.
pub fn decide_binding(
    records: Vec<AuthorityRecord>,
    whole: &SchemaWholeHandle,
    declarations: &Vec<DeclaredIdentity>,
) -> (decision: BindDecision)
    ensures
        match bind_plan(
            authority_views(records@),
            whole@,
            declaration_views(declarations@),
        ) {
            BindPlan::Exhausted => {
                &&& decision matches BindDecision::Failed(Error::Storage(message))
                &&& message@ == "universe identifier space exhausted"@
            },
            BindPlan::Rejected(rejection) => decision == BindDecision::Rejected(rejection),
            BindPlan::Commit { writes, universe, assignments } => {
                &&& decision matches BindDecision::Commit(commit)
                &&& write_views(commit.writes@) == writes
                &&& commit.bound.universe == MintedUniverse(universe)
                &&& assignment_views(commit.bound.assignments@) == assignments
            },
        },
{
    let (existing_registry, rest) = universe_registry(records);
    let (mut registry, registry_existed): (UniverseRegistry, bool) = match existing_registry {
        Some(registry) => (registry, true),
        None => (UniverseRegistry::default(), false),
    };
    let (universe, minted): (u32, bool) = match registry.resolve_or_mint(whole) {
        Ok(resolved) => resolved,
        Err(error) => {
            return BindDecision::Failed(error);
        },
    };
    let (state, state_existed): (UniverseState, bool) = match universe_state(rest, universe) {
        Some(state) => (state, true),
        None => (UniverseState::empty(universe), false),
    };
    let (after, assignments) = match state.bind_all(declarations) {
        Ok(bound) => bound,
        Err(rejection) => {
            return BindDecision::Rejected(rejection);
        },
    };
    let mut writes: Vec<AuthorityWrite> = Vec::new();
    let ghost written = registry@;
    if minted {
        let record = AuthorityRecord::UniverseRegistry(registry);
        writes.push(
            if registry_existed {
                AuthorityWrite::Mutate(record)
            } else {
                AuthorityWrite::Assert(record)
            },
        );
    }
    let ghost before = write_views(writes@);
    let record = AuthorityRecord::UniverseState(after);
    let write = if state_existed {
        AuthorityWrite::Mutate(record)
    } else {
        AuthorityWrite::Assert(record)
    };
    writes.push(write);
    proof {
        assert(write_views(writes@) =~= before.push(write@));
        if minted {
            assert(before =~= seq![
                write_of(registry_existed, AuthorityView::UniverseRegistry(written)),
            ]);
        } else {
            assert(before =~= Seq::empty());
        }
    }
    BindDecision::Commit(
        BindCommit {
            writes,
            bound: BoundIdentities { universe: MintedUniverse(universe), assignments },
        },
    )
}

} // verus!
