//! The identity authority: which universe a schema-whole has, and which
//! identity a declared thing has within its universe.
//!
//! Two laws govern the bindings of a universe. A key that is bound is never
//! minted anew, and an identity is never carried over to a thing of another
//! shape.
use vstd::prelude::*;

use crate::error::Error;
use crate::protocol::{
    AssignmentView, BindOutcome, DeclarationView, DeclaredIdentity, DeclaredKey, DeclaredShape,
    IdentityAssignment, IdentityIntent, Rejection, SchemaWholeHandle, TypeIdentity,
};
use crate::search::{is_first, lemma_position_absent, lemma_position_is, position};

verus! {

/// The universe that one schema-whole was given.
#[derive(Clone, Debug, PartialEq, Eq)]
pub struct WholeBinding {
    pub handle: SchemaWholeHandle,
    pub universe: u32,
}

/// The content of a [`WholeBinding`].
pub ghost struct WholeView {
    pub handle: Seq<u8>,
    pub universe: u32,
}

impl View for WholeBinding {
    type V = WholeView;

    open spec fn view(&self) -> WholeView {
        WholeView { handle: self.handle@, universe: self.universe }
    }
}

/// Every schema-whole that was given a universe, and the cursor from which
/// the next universe is taken.
#[derive(Clone, Debug, PartialEq, Eq)]
pub struct UniverseRegistry {
    pub next_universe: u32,
    pub wholes: Vec<WholeBinding>,
}

/// The content of a [`UniverseRegistry`].
#[verifier::ext_equal]
pub ghost struct RegistryView {
    pub next_universe: u32,
    pub wholes: Seq<WholeView>,
}

impl View for UniverseRegistry {
    type V = RegistryView;

    open spec fn view(&self) -> RegistryView {
        RegistryView {
            next_universe: self.next_universe,
            wholes: self.wholes@.map_values(|whole: WholeBinding| whole@),
        }
    }
}

/// What resolving a schema-whole leaves behind.
pub ghost struct Resolution {
    pub registry: RegistryView,
    pub universe: u32,
    pub minted: bool,
}

impl RegistryView {
    /// The registry of an authority that has minted nothing.
    pub open spec fn empty() -> RegistryView {
        RegistryView { next_universe: 0, wholes: Seq::empty() }
    }

    /// The place of a schema-whole among those that have a universe.
    pub open spec fn whole_position(self, handle: Seq<u8>) -> Option<int> {
        position(self.wholes, |whole: WholeView| whole.handle == handle)
    }

    /// The universe of a schema-whole, if it has one.
    pub open spec fn universe_of(self, handle: Seq<u8>) -> Option<u32> {
        match self.whole_position(handle) {
            Some(index) => Some(self.wholes[index].universe),
            None => None,
        }
    }

    /// What resolving a schema-whole gives: its universe where it has one,
    /// else the universe at the cursor. There is none to give once the cursor
    /// has reached the last number.
    pub open spec fn resolve(self, handle: Seq<u8>) -> Option<Resolution> {
        match self.universe_of(handle) {
            Some(universe) => Some(Resolution { registry: self, universe, minted: false }),
            None => if self.next_universe < u32::MAX {
                Some(
                    Resolution {
                        registry: RegistryView {
                            next_universe: (self.next_universe + 1) as u32,
                            wholes: self.wholes.push(
                                WholeView { handle, universe: self.next_universe },
                            ),
                        },
                        universe: self.next_universe,
                        minted: true,
                    },
                )
            } else {
                None
            },
        }
    }
}

impl Default for UniverseRegistry {
    fn default() -> (registry: UniverseRegistry)
        ensures
            registry@ == RegistryView::empty(),
    {
        let registry = UniverseRegistry { next_universe: 0, wholes: Vec::new() };
        assert(registry@ =~= RegistryView::empty());
        registry
    }
}

impl UniverseRegistry {
    /// The universe of `whole` and whether it was minted for this call. An
    /// unseen whole is given the universe at the cursor, which moves on. When
    /// the cursor cannot move on, the call fails and nothing changes.
    pub fn resolve_or_mint(&mut self, whole: &SchemaWholeHandle) -> (resolved: Result<
        (u32, bool),
        Error,
    >)
        ensures
            match old(self)@.resolve(whole@) {
                Some(resolution) => {
                    &&& resolved == Ok::<(u32, bool), Error>(
                        (resolution.universe, resolution.minted),
                    )
                    &&& final(self)@ == resolution.registry
                },
                None => {
                    &&& resolved matches Err(Error::Storage(message))
                    &&& message@ == "universe identifier space exhausted"@
                    &&& final(self)@ == old(self)@
                },
            },
    {
        let ghost before = self@;
        let ghost wanted = |seen: WholeView| seen.handle == whole@;
        let mut index: usize = 0;
        while index < self.wholes.len()
            invariant
                *self == *old(self),
                before == self@,
                wanted == (|seen: WholeView| seen.handle == whole@),
                index <= self.wholes@.len(),
                forall|i: int| 0 <= i < index ==> !wanted(#[trigger] before.wholes[i]),
            decreases self.wholes@.len() - index,
        {
            assert(before.wholes[index as int] == self.wholes@[index as int]@);
            if self.wholes[index].handle == *whole {
                proof {
                    assert(is_first(before.wholes, wanted, index as int));
                    lemma_position_is(before.wholes, wanted, index as int);
                }
                return Ok((self.wholes[index].universe, false));
            }
            index = index + 1;
        }
        proof {
            lemma_position_absent(before.wholes, wanted);
        }
        let universe: u32 = self.next_universe;
        match universe.checked_add(1) {
            None => Err(Error::storage("universe identifier space exhausted")),
            Some(next) => {
                self.next_universe = next;
                self.wholes.push(WholeBinding { handle: whole.clone(), universe });
                assert(self@.wholes =~= before.wholes.push(
                    WholeView { handle: whole@, universe },
                ));
                Ok((universe, true))
            },
        }
    }
}

/// One declared thing: its key, the identity it holds and its shape.
#[derive(Clone, Debug, PartialEq, Eq)]
pub struct TypeBinding {
    pub key: DeclaredKey,
    pub identity: u32,
    pub shape: DeclaredShape,
}

/// The content of a [`TypeBinding`].
pub ghost struct BindingView {
    pub key: Seq<u8>,
    pub identity: u32,
    pub shape: DeclaredShape,
}

impl View for TypeBinding {
    type V = BindingView;

    open spec fn view(&self) -> BindingView {
        BindingView { key: self.key@, identity: self.identity, shape: self.shape }
    }
}

/// The bindings of one universe, and the cursor from which the next local
/// identity is taken.
#[derive(Clone, Debug, PartialEq, Eq)]
pub struct UniverseState {
    pub universe: u32,
    pub next_local: u32,
    pub bindings: Vec<TypeBinding>,
}

/// The content of a [`UniverseState`].
#[verifier::ext_equal]
pub ghost struct StateView {
    pub universe: u32,
    pub next_local: u32,
    pub bindings: Seq<BindingView>,
}

impl View for UniverseState {
    type V = StateView;

    open spec fn view(&self) -> StateView {
        StateView {
            universe: self.universe,
            next_local: self.next_local,
            bindings: self.bindings@.map_values(|binding: TypeBinding| binding@),
        }
    }
}

impl StateView {
    /// A universe in which nothing is bound.
    pub open spec fn empty(universe: u32) -> StateView {
        StateView { universe, next_local: 0, bindings: Seq::empty() }
    }

    /// The place of the first binding under a key.
    pub open spec fn key_position(self, key: Seq<u8>) -> Option<int> {
        position(self.bindings, |binding: BindingView| binding.key == key)
    }

    /// The place of the first binding that holds an identity.
    pub open spec fn identity_position(self, identity: u32) -> Option<int> {
        position(self.bindings, |binding: BindingView| binding.identity == identity)
    }

    /// The identity that a key is bound to, if it is bound.
    pub open spec fn identity_of(self, key: Seq<u8>) -> Option<u32> {
        match self.key_position(key) {
            Some(index) => Some(self.bindings[index].identity),
            None => None,
        }
    }

    /// The shape that an identity is bound to, if it is bound.
    pub open spec fn shape_of(self, identity: u32) -> Option<DeclaredShape> {
        match self.identity_position(identity) {
            Some(index) => Some(self.bindings[index].shape),
            None => None,
        }
    }

    /// What one declaration gives in this universe: the universe afterwards
    /// and the assignment, or why the declaration is turned down.
    pub open spec fn bind_or_mint(self, declaration: DeclarationView) -> Result<
        (StateView, AssignmentView),
        Rejection,
    > {
        match declaration.intent {
            IdentityIntent::MintOrBind => match self.key_position(declaration.key) {
                Some(index) => Ok(
                    (
                        StateView {
                            bindings: self.bindings.update(
                                index,
                                BindingView { shape: declaration.shape, ..self.bindings[index] },
                            ),
                            ..self
                        },
                        AssignmentView {
                            key: declaration.key,
                            identity: TypeIdentity(self.bindings[index].identity),
                            outcome: BindOutcome::Bound,
                        },
                    ),
                ),
                None => if self.next_local < u32::MAX {
                    Ok(
                        (
                            StateView {
                                next_local: (self.next_local + 1) as u32,
                                bindings: self.bindings.push(
                                    BindingView {
                                        key: declaration.key,
                                        identity: self.next_local,
                                        shape: declaration.shape,
                                    },
                                ),
                                ..self
                            },
                            AssignmentView {
                                key: declaration.key,
                                identity: TypeIdentity(self.next_local),
                                outcome: BindOutcome::Minted,
                            },
                        ),
                    )
                } else {
                    Err(Rejection::Internal)
                },
            },
            IdentityIntent::Continue(claimed) => match self.identity_position(claimed.0) {
                None => Err(Rejection::IdentityNeverMinted(claimed)),
                Some(index) => if self.bindings[index].shape != declaration.shape {
                    Err(
                        Rejection::IdentityRebindRejected {
                            identity: claimed,
                            bound_shape: self.bindings[index].shape,
                            attempted_shape: declaration.shape,
                        },
                    )
                } else {
                    Ok(
                        (
                            StateView {
                                bindings: self.bindings.update(
                                    index,
                                    BindingView { key: declaration.key, ..self.bindings[index] },
                                ),
                                ..self
                            },
                            AssignmentView {
                                key: declaration.key,
                                identity: claimed,
                                outcome: BindOutcome::Bound,
                            },
                        ),
                    )
                },
            },
        }
    }

    /// What declarations give when they are taken one after another, up to
    /// the first that is turned down.
    pub open spec fn bind_all(self, declarations: Seq<DeclarationView>) -> Result<
        (StateView, Seq<AssignmentView>),
        Rejection,
    >
        decreases declarations.len(),
    {
        if declarations.len() == 0 {
            Ok((self, Seq::empty()))
        } else {
            match self.bind_all(declarations.drop_last()) {
                Err(rejection) => Err(rejection),
                Ok((state, assignments)) => match state.bind_or_mint(declarations.last()) {
                    Err(rejection) => Err(rejection),
                    Ok((after, assignment)) => Ok((after, assignments.push(assignment))),
                },
            }
        }
    }

    /// A rejection among the first declarations is the rejection of them all.
    pub proof fn lemma_early_rejection(self, declarations: Seq<DeclarationView>, count: int)
        requires
            0 <= count <= declarations.len(),
            self.bind_all(declarations.take(count)) is Err,
        ensures
            self.bind_all(declarations) == self.bind_all(declarations.take(count)),
        decreases declarations.len() - count,
    {
        if count == declarations.len() {
            assert(declarations.take(count) =~= declarations);
        } else {
            assert(declarations.take(count + 1).drop_last() =~= declarations.take(count));
            self.lemma_early_rejection(declarations, count + 1);
        }
    }
}

impl UniverseState {
    /// A universe in which nothing is bound.
    pub fn empty(universe: u32) -> (state: UniverseState)
        ensures
            state@ == StateView::empty(universe),
    {
        let state = UniverseState { universe, next_local: 0, bindings: Vec::new() };
        assert(state@ =~= StateView::empty(universe));
        state
    }

    fn find_key(&self, key: &DeclaredKey) -> (found: Option<usize>)
        ensures
            match found {
                Some(index) => self@.key_position(key@) == Some(index as int) && index
                    < self.bindings@.len(),
                None => self@.key_position(key@) is None,
            },
    {
        let ghost bindings = self@.bindings;
        let ghost wanted = |binding: BindingView| binding.key == key@;
        let mut index: usize = 0;
        while index < self.bindings.len()
            invariant
                bindings == self@.bindings,
                wanted == (|binding: BindingView| binding.key == key@),
                index <= self.bindings@.len(),
                forall|i: int| 0 <= i < index ==> !wanted(#[trigger] bindings[i]),
            decreases self.bindings@.len() - index,
        {
            assert(bindings[index as int] == self.bindings@[index as int]@);
            if self.bindings[index].key == *key {
                proof {
                    lemma_position_is(bindings, wanted, index as int);
                }
                return Some(index);
            }
            index = index + 1;
        }
        proof {
            lemma_position_absent(bindings, wanted);
        }
        None
    }

    fn find_identity(&self, identity: u32) -> (found: Option<usize>)
        ensures
            match found {
                Some(index) => self@.identity_position(identity) == Some(index as int) && index
                    < self.bindings@.len(),
                None => self@.identity_position(identity) is None,
            },
    {
        let ghost bindings = self@.bindings;
        let ghost wanted = |binding: BindingView| binding.identity == identity;
        let mut index: usize = 0;
        while index < self.bindings.len()
            invariant
                bindings == self@.bindings,
                wanted == (|binding: BindingView| binding.identity == identity),
                index <= self.bindings@.len(),
                forall|i: int| 0 <= i < index ==> !wanted(#[trigger] bindings[i]),
            decreases self.bindings@.len() - index,
        {
            assert(bindings[index as int] == self.bindings@[index as int]@);
            if self.bindings[index].identity == identity {
                proof {
                    lemma_position_is(bindings, wanted, index as int);
                }
                return Some(index);
            }
            index = index + 1;
        }
        proof {
            lemma_position_absent(bindings, wanted);
        }
        None
    }

    /// Takes the identity at the cursor and moves the cursor on. When the
    /// cursor cannot move on, the call fails and nothing changes.
    pub fn mint_local(&mut self) -> (minted: Result<u32, Rejection>)
        ensures
            if old(self).next_local < u32::MAX {
                &&& minted == Ok::<u32, Rejection>(old(self).next_local)
                &&& final(self)@ == (StateView {
                    next_local: (old(self).next_local + 1) as u32,
                    ..old(self)@
                })
            } else {
                &&& minted == Err::<u32, Rejection>(Rejection::Internal)
                &&& final(self)@ == old(self)@
            },
    {
        let identity: u32 = self.next_local;
        match identity.checked_add(1) {
            None => Err(Rejection::Internal),
            Some(next) => {
                self.next_local = next;
                Ok(identity)
            },
        }
    }

    /// Binds or mints the identity of one declaration.
    ///
    /// A declaration that mints or binds keeps the identity that its key has,
    /// and records its shape there; only an unbound key is given a fresh
    /// identity. A declaration that continues an identity moves it to its own
    /// key, provided that the identity is bound and to the same shape. A
    /// declaration that is turned down changes nothing.
    pub fn bind_or_mint(&mut self, declaration: &DeclaredIdentity) -> (result: Result<
        IdentityAssignment,
        Rejection,
    >)
        ensures
            match old(self)@.bind_or_mint(declaration@) {
                Ok((state, assigned)) => {
                    &&& result matches Ok(assignment)
                    &&& assignment@ == assigned
                    &&& final(self)@ == state
                },
                Err(rejection) => {
                    &&& result == Err::<IdentityAssignment, Rejection>(rejection)
                    &&& final(self)@ == old(self)@
                },
            },
    {
        let ghost before = self@;
        match declaration.intent {
            IdentityIntent::MintOrBind => {
                if let Some(index) = self.find_key(&declaration.key) {
                    let identity: u32 = self.bindings[index].identity;
                    let key = self.bindings[index].key.clone();
                    self.bindings[index] = TypeBinding { key, identity, shape: declaration.shape };
                    assert(self@.bindings =~= before.bindings.update(
                        index as int,
                        BindingView { shape: declaration.shape, ..before.bindings[index as int] },
                    ));
                    return Ok(
                        IdentityAssignment {
                            key: declaration.key.clone(),
                            identity: TypeIdentity(identity),
                            outcome: BindOutcome::Bound,
                        },
                    );
                }
                let identity: u32 = match self.mint_local() {
                    Ok(identity) => identity,
                    Err(rejection) => {
                        return Err(rejection);
                    },
                };
                self.bindings.push(
                    TypeBinding { key: declaration.key.clone(), identity, shape: declaration.shape },
                );
                assert(self@.bindings =~= before.bindings.push(
                    BindingView { key: declaration.key@, identity, shape: declaration.shape },
                ));
                Ok(
                    IdentityAssignment {
                        key: declaration.key.clone(),
                        identity: TypeIdentity(identity),
                        outcome: BindOutcome::Minted,
                    },
                )
            },
            IdentityIntent::Continue(claimed) => {
                let index: usize = match self.find_identity(claimed.0) {
                    Some(index) => index,
                    None => {
                        return Err(Rejection::IdentityNeverMinted(claimed));
                    },
                };
                assert(before.bindings[index as int] == self.bindings@[index as int]@);
                let shape = self.bindings[index].shape;
                let identity: u32 = self.bindings[index].identity;
                if shape != declaration.shape {
                    return Err(
                        Rejection::IdentityRebindRejected {
                            identity: claimed,
                            bound_shape: shape,
                            attempted_shape: declaration.shape,
                        },
                    );
                }
                self.bindings[index] = TypeBinding { key: declaration.key.clone(), identity, shape };
                assert(self@.bindings =~= before.bindings.update(
                    index as int,
                    BindingView { key: declaration.key@, ..before.bindings[index as int] },
                ));
                Ok(
                    IdentityAssignment {
                        key: declaration.key.clone(),
                        identity: claimed,
                        outcome: BindOutcome::Bound,
                    },
                )
            },
        }
    }

    /// Takes declarations one after another, and gives up at the first that
    /// is turned down.
    pub fn bind_all(self, declarations: &Vec<DeclaredIdentity>) -> (result: Result<
        (UniverseState, Vec<IdentityAssignment>),
        Rejection,
    >)
        ensures
            match self@.bind_all(declaration_views(declarations@)) {
                Ok((state, assigned)) => {
                    &&& result matches Ok((after, assignments))
                    &&& after@ == state
                    &&& assignment_views(assignments@) == assigned
                },
                Err(rejection) => result == Err::<
                    (UniverseState, Vec<IdentityAssignment>),
                    Rejection,
                >(rejection),
            },
    {
        let mut state = self;
        let mut assignments: Vec<IdentityAssignment> = Vec::new();
        let ghost declared = declaration_views(declarations@);
        let mut index: usize = 0;
        assert(assignment_views(assignments@) =~= Seq::empty());
        assert(declared.take(0) =~= Seq::empty());
        while index < declarations.len()
            invariant
                index <= declarations@.len(),
                declared == declaration_views(declarations@),
                self@.bind_all(declared.take(index as int)) == Ok::<
                    (StateView, Seq<AssignmentView>),
                    Rejection,
                >((state@, assignment_views(assignments@))),
            decreases declarations@.len() - index,
        {
            proof {
                assert(declared.take(index + 1).drop_last() =~= declared.take(index as int));
                assert(declared.take(index + 1).last() == declarations@[index as int]@);
            }
            let ghost done = assignment_views(assignments@);
            match state.bind_or_mint(&declarations[index]) {
                Ok(assignment) => {
                    assignments.push(assignment);
                    assert(assignment_views(assignments@) =~= done.push(assignment@));
                },
                Err(rejection) => {
                    proof {
                        self@.lemma_early_rejection(declared, index + 1);
                    }
                    return Err(rejection);
                },
            }
            index = index + 1;
        }
        assert(declared.take(index as int) =~= declared);
        Ok((state, assignments))
    }
}

/// The contents of declarations.
pub open spec fn declaration_views(declarations: Seq<DeclaredIdentity>) -> Seq<DeclarationView> {
    declarations.map_values(|declaration: DeclaredIdentity| declaration@)
}

/// The contents of assignments.
pub open spec fn assignment_views(assignments: Seq<IdentityAssignment>) -> Seq<AssignmentView> {
    assignments.map_values(|assignment: IdentityAssignment| assignment@)
}

} // verus!
