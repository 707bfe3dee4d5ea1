//! Laws of binding requests from their beginning to their end, told by what was
//! read, by what is to be written and by the answer.
use vstd::prelude::*;

use crate::authority::{
    AuthorityWrite, bind_plan, is_state_of, registry_in, state_in, write_views,
};
use crate::binding_laws::{
    a_known_whole_is_given_its_universe, an_unknown_whole_is_given_a_new_universe,
};
use crate::dispatch::{Event, Stage, Step, begin, planned, resume};
use crate::error::Error;
use crate::identity::{
    RegistryView, StateView, UniverseRegistry, UniverseState, WholeView, assignment_views,
    declaration_views,
};
use crate::protocol::{
    DeclaredIdentity, IdentityAssignment, MintedUniverse, Rejection, Reply, Request,
    SchemaWholeHandle,
};
use crate::records::{AuthorityRecord, AuthorityView, authority_views};
use crate::search::{lemma_position_absent, lemma_position_is};

verus! {

/// Whether a registry is the first that was read, or none was.
pub open spec fn is_registry_read(
    records: Seq<AuthorityRecord>,
    registry: Option<UniverseRegistry>,
) -> bool {
    match registry {
        Some(found) => exists|place: int|
            0 <= place < records.len() && #[trigger] records[place]
                == AuthorityRecord::UniverseRegistry(found) && forall|earlier: int|
                0 <= earlier < place ==> !((#[trigger] records[earlier]) is UniverseRegistry),
        None => forall|place: int|
            0 <= place < records.len() ==> !((#[trigger] records[place]) is UniverseRegistry),
    }
}

/// Whether bindings are the first that were read of a universe, or none were.
pub open spec fn is_state_read(
    records: Seq<AuthorityRecord>,
    universe: u32,
    state: Option<UniverseState>,
) -> bool {
    match state {
        Some(found) => found.universe == universe && exists|place: int|
            0 <= place < records.len() && #[trigger] records[place]
                == AuthorityRecord::UniverseState(found) && forall|earlier: int|
                0 <= earlier < place ==> ((#[trigger] records[earlier]) matches
                AuthorityRecord::UniverseState(other) ==> other.universe != universe),
        None => forall|place: int|
            0 <= place < records.len() ==> ((#[trigger] records[place]) matches
            AuthorityRecord::UniverseState(other) ==> other.universe != universe),
    }
}

/// The bindings that were read of a universe, or none at all with a cursor at zero.
pub open spec fn bindings_read(universe: u32, state: Option<UniverseState>) -> StateView {
    match state {
        Some(found) => found@,
        None => StateView { universe, next_local: 0, bindings: Seq::empty() },
    }
}

/// Whether a write puts bindings into the table: it replaces those that were read,
/// and adds them where none were.
pub open spec fn writes_state(
    write: AuthorityWrite,
    state: Option<UniverseState>,
    after: StateView,
) -> bool {
    match write {
        AuthorityWrite::Assert(record) => state is None && (record matches
            AuthorityRecord::UniverseState(written) && written@ == after),
        AuthorityWrite::Mutate(record) => state is Some && (record matches
            AuthorityRecord::UniverseState(written) && written@ == after),
    }
}

/// Whether a write adds a schema-whole and its universe to the registry, keeps every
/// other, and moves the cursor on by one: it replaces the registry that was read, and
/// adds one where none was.
pub open spec fn writes_registry(
    write: AuthorityWrite,
    registry: Option<UniverseRegistry>,
    whole: SchemaWholeHandle,
) -> bool {
    let (record, replaces) = match write {
        AuthorityWrite::Assert(record) => (record, false),
        AuthorityWrite::Mutate(record) => (record, true),
    };
    &&& replaces == (registry is Some)
    &&& record matches AuthorityRecord::UniverseRegistry(written)
    &&& match registry {
        Some(found) => {
            &&& written.next_universe == found.next_universe + 1
            &&& written.wholes@.len() == found.wholes@.len() + 1
            &&& written.wholes@.last().handle.0@ == whole.0@
            &&& written.wholes@.last().universe == found.next_universe
            &&& forall|place: int|
                0 <= place < found.wholes@.len() ==> {
                    &&& (#[trigger] written.wholes@[place]).handle.0@
                        == found.wholes@[place].handle.0@
                    &&& written.wholes@[place].universe == found.wholes@[place].universe
                }
        },
        None => {
            &&& written.next_universe == 1
            &&& written.wholes@.len() == 1
            &&& written.wholes@[0].handle.0@ == whole.0@
            &&& written.wholes@[0].universe == 0
        },
    }
}

proof fn lemma_registry_read(records: Seq<AuthorityRecord>, registry: Option<UniverseRegistry>)
    requires
        is_registry_read(records, registry),
    ensures
        registry_in(authority_views(records)) == match registry {
            Some(found) => Some(found@),
            None => None,
        },
{
    let views = authority_views(records);
    let wanted = |record: AuthorityView| record is UniverseRegistry;
    assert forall|place: int| 0 <= place < records.len() implies #[trigger] views[place]
        == records[place]@ by {}
    match registry {
        Some(found) => {
            let place = choose|place: int|
                0 <= place < records.len() && #[trigger] records[place]
                    == AuthorityRecord::UniverseRegistry(found) && forall|earlier: int|
                    0 <= earlier < place ==> !((#[trigger] records[earlier]) is UniverseRegistry);
            assert forall|earlier: int| 0 <= earlier < place implies !wanted(
                #[trigger] views[earlier],
            ) by {
                assert(!(records[earlier] is UniverseRegistry));
            }
            lemma_position_is(views, wanted, place);
        },
        None => {
            assert forall|place: int| 0 <= place < views.len() implies !wanted(
                #[trigger] views[place],
            ) by {
                assert(!(records[place] is UniverseRegistry));
            }
            lemma_position_absent(views, wanted);
        },
    }
}

proof fn lemma_state_read(
    records: Seq<AuthorityRecord>,
    universe: u32,
    state: Option<UniverseState>,
)
    requires
        is_state_read(records, universe, state),
    ensures
        state_in(authority_views(records), universe) == match state {
            Some(found) => Some(found@),
            None => None,
        },
{
    let views = authority_views(records);
    let wanted = |record: AuthorityView| is_state_of(record, universe);
    assert forall|place: int| 0 <= place < records.len() implies #[trigger] views[place]
        == records[place]@ by {}
    match state {
        Some(found) => {
            let place = choose|place: int|
                0 <= place < records.len() && #[trigger] records[place]
                    == AuthorityRecord::UniverseState(found) && forall|earlier: int|
                    0 <= earlier < place ==> ((#[trigger] records[earlier]) matches
                    AuthorityRecord::UniverseState(other) ==> other.universe != universe);
            assert forall|earlier: int| 0 <= earlier < place implies !wanted(
                #[trigger] views[earlier],
            ) by {
                assert(views[earlier] == records[earlier]@);
            }
            lemma_position_is(views, wanted, place);
        },
        None => {
            assert forall|place: int| 0 <= place < views.len() implies !wanted(
                #[trigger] views[place],
            ) by {
                assert(views[place] == records[place]@);
            }
            lemma_position_absent(views, wanted);
        },
    }
}

/// An empty set of declarations is turned down before any work, and no other is.
pub proof fn an_empty_set_is_turned_down(
    whole: SchemaWholeHandle,
    declarations: Vec<DeclaredIdentity>,
    first: Step,
)
    requires
        call_ensures(begin, (Request::BindIdentities { whole, declarations },), first),
    ensures
        first == (Step::Done {
            reply: Reply::Rejected(Rejection::EmptyDeclarationSet),
            change: None,
        }) <==> declarations@.len() == 0,
        declarations@.len() > 0 ==> first is Await,
{
}

/// A schema-whole that was read with a universe is bound in that universe. Where its
/// declarations are turned down so is the request, and nothing is written; else what
/// is written are the bindings that the declarations leave behind, and nothing else,
/// and the answer is the universe and the assignments.
pub proof fn a_known_whole_is_bound_in_its_universe(
    whole: SchemaWholeHandle,
    declarations: Vec<DeclaredIdentity>,
    records: Vec<AuthorityRecord>,
    registry: UniverseRegistry,
    place: int,
    state: Option<UniverseState>,
    first: Step,
    second: Step,
    last: Step,
)
    requires
        declarations@.len() > 0,
        call_ensures(begin, (Request::BindIdentities { whole, declarations },), first),
        first matches Step::Await(stage) ==> call_ensures(
            resume,
            (stage, Event::Authority(Ok(records))),
            second,
        ),
        second matches Step::Await(stage) ==> call_ensures(
            resume,
            (stage, Event::Written(Ok(()))),
            last,
        ),
        is_registry_read(records@, Some(registry)),
        0 <= place < registry.wholes@.len(),
        registry.wholes@[place].handle.0@ == whole.0@,
        forall|earlier: int|
            0 <= earlier < place ==> (#[trigger] registry.wholes@[earlier]).handle.0@ != whole.0@,
        is_state_read(records@, registry.wholes@[place].universe, state),
    ensures
        match bindings_read(registry.wholes@[place].universe, state).bind_all(
            declaration_views(declarations@),
        ) {
            Err(rejection) => second == (Step::Done {
                reply: Reply::Rejected(rejection),
                change: None,
            }),
            Ok((after, assigned)) => {
                &&& second matches Step::Await(Stage::CommitAuthority(commit))
                &&& commit.writes@.len() == 1
                &&& writes_state(commit.writes@[0], state, after)
                &&& last matches Step::Done { reply: Reply::IdentitiesBound(bound), change: None }
                &&& bound.universe == MintedUniverse(registry.wholes@[place].universe)
                &&& assignment_views(bound.assignments@) == assigned
            },
        },
{
    let universe = registry.wholes@[place].universe;
    lemma_registry_read(records@, Some(registry));
    lemma_state_read(records@, universe, state);
    assert forall|earlier: int| 0 <= earlier < registry.wholes@.len() implies
    #[trigger] registry@.wholes[earlier] == registry.wholes@[earlier]@ by {}
    assert forall|earlier: int| 0 <= earlier < place implies (
    #[trigger] registry@.wholes[earlier]).handle != whole.0@ by {
        assert(registry.wholes@[earlier].handle.0@ != whole.0@);
    }
    a_known_whole_is_given_its_universe(registry@, whole.0@, place);
    let plan = bind_plan(
        authority_views(records@),
        whole@,
        declaration_views(declarations@),
    );
    assert(planned(plan, second));
    match second {
        Step::Await(stage) => {
            let commit = stage->CommitAuthority_0;
            assert(write_views(commit.writes@) == plan->writes);
            assert(write_views(commit.writes@).len() == commit.writes@.len());
            assert(write_views(commit.writes@)[0] == commit.writes@[0]@);
        },
        _ => {},
    }
}

/// A schema-whole that was not read with a universe is bound in a new one: the one at
/// the registry's cursor, or zero where no registry was read. Where its declarations
/// are turned down so is the request, and nothing is written; else what is written is
/// the registry with the schema-whole and the bindings that the declarations leave
/// behind, and the answer is the universe and the assignments. The request fails only
/// if no universe is left.
pub proof fn an_unknown_whole_is_bound_in_a_new_universe(
    whole: SchemaWholeHandle,
    declarations: Vec<DeclaredIdentity>,
    records: Vec<AuthorityRecord>,
    registry: Option<UniverseRegistry>,
    universe: u32,
    state: Option<UniverseState>,
    first: Step,
    second: Step,
    last: Step,
)
    requires
        declarations@.len() > 0,
        call_ensures(begin, (Request::BindIdentities { whole, declarations },), first),
        first matches Step::Await(stage) ==> call_ensures(
            resume,
            (stage, Event::Authority(Ok(records))),
            second,
        ),
        second matches Step::Await(stage) ==> call_ensures(
            resume,
            (stage, Event::Written(Ok(()))),
            last,
        ),
        is_registry_read(records@, registry),
        registry matches Some(found) ==> universe == found.next_universe && forall|place: int|
            0 <= place < found.wholes@.len() ==> (#[trigger] found.wholes@[place]).handle.0@
                != whole.0@,
        registry is None ==> universe == 0,
        is_state_read(records@, universe, state),
    ensures
        if universe == u32::MAX {
            &&& second matches Step::Failed(Error::Storage(message))
            &&& message@ == "universe identifier space exhausted"@
        } else {
            match bindings_read(universe, state).bind_all(declaration_views(declarations@)) {
                Err(rejection) => second == (Step::Done {
                    reply: Reply::Rejected(rejection),
                    change: None,
                }),
                Ok((after, assigned)) => {
                    &&& second matches Step::Await(Stage::CommitAuthority(commit))
                    &&& commit.writes@.len() == 2
                    &&& writes_registry(commit.writes@[0], registry, whole)
                    &&& writes_state(commit.writes@[1], state, after)
                    &&& last matches Step::Done {
                        reply: Reply::IdentitiesBound(bound),
                        change: None,
                    }
                    &&& bound.universe == MintedUniverse(universe)
                    &&& assignment_views(bound.assignments@) == assigned
                },
            }
        },
{
    lemma_registry_read(records@, registry);
    lemma_state_read(records@, universe, state);
    let view = match registry {
        Some(found) => found@,
        None => RegistryView::empty(),
    };
    assert forall|place: int| 0 <= place < view.wholes.len() implies (
    #[trigger] view.wholes[place]).handle != whole.0@ by {
        let found = registry->0;
        assert(found@.wholes[place] == found.wholes@[place]@);
        assert(found.wholes@[place].handle.0@ != whole.0@);
    }
    an_unknown_whole_is_given_a_new_universe(view, whole.0@);
    let plan = bind_plan(
        authority_views(records@),
        whole@,
        declaration_views(declarations@),
    );
    assert(planned(plan, second));
    match second {
        Step::Await(stage) => {
            let commit = stage->CommitAuthority_0;
            assert(write_views(commit.writes@) == plan->writes);
            assert(write_views(commit.writes@).len() == commit.writes@.len());
            assert(write_views(commit.writes@)[0] == commit.writes@[0]@);
            assert(write_views(commit.writes@)[1] == commit.writes@[1]@);
            let record = match commit.writes@[0] {
                AuthorityWrite::Assert(record) => record,
                AuthorityWrite::Mutate(record) => record,
            };
            let written = record->UniverseRegistry_0;
            assert(written@.wholes == view.wholes.push(
                WholeView { handle: whole.0@, universe },
            ));
            assert forall|place: int| 0 <= place < written.wholes@.len() implies
            #[trigger] written@.wholes[place] == written.wholes@[place]@ by {}
            assert(written@.wholes.len() == written.wholes@.len());
            assert(written@.wholes[view.wholes.len() as int] == written.wholes@.last()@);
            if registry is Some {
                let found = registry->0;
                assert forall|place: int| 0 <= place < found.wholes@.len() implies {
                    &&& (#[trigger] written.wholes@[place]).handle.0@
                        == found.wholes@[place].handle.0@
                    &&& written.wholes@[place].universe == found.wholes@[place].universe
                } by {
                    assert(written@.wholes[place] == written.wholes@[place]@);
                    assert(found@.wholes[place] == found.wholes@[place]@);
                }
            }
        },
        _ => {},
    }
}

/// What declarations and assignments hold is told by their fields: nothing is left
/// out and nothing is changed.
pub proof fn declarations_and_assignments_are_told_by_their_fields(
    declarations: Seq<DeclaredIdentity>,
    assignments: Seq<IdentityAssignment>,
    index: int,
)
    ensures
        declaration_views(declarations).len() == declarations.len(),
        assignment_views(assignments).len() == assignments.len(),
        0 <= index < declarations.len() ==> {
            &&& declaration_views(declarations)[index].key == declarations[index].key.0@
            &&& declaration_views(declarations)[index].shape == declarations[index].shape
            &&& declaration_views(declarations)[index].intent == declarations[index].intent
        },
        0 <= index < assignments.len() ==> {
            &&& assignment_views(assignments)[index].key == assignments[index].key.0@
            &&& assignment_views(assignments)[index].identity == assignments[index].identity
            &&& assignment_views(assignments)[index].outcome == assignments[index].outcome
        },
{
}

} // verus!
