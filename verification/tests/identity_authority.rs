//! The identity authority over an engine that keeps its tables: the same thing
//! is never minted anew, and an identity never names a different thing.

use sema_storage::authority::AuthorityWrite;
use sema_storage::dispatch::{begin, resume, Event, Stage, Step};
use sema_storage::error::Error;
use sema_storage::protocol::{
    BindOutcome, ChangeEvent, ContentHash, DeclaredIdentity, DeclaredKey, DeclaredShape,
    DocumentPayload, DocumentViolation, IdentityIntent, MintedUniverse, Rejection, Reply, Request,
    SchemaWholeHandle, Snapshot, TypeIdentity,
};
use sema_storage::records::{AuthorityRecord, StorageRecord};

/// An engine in memory: two tables of records under unique keys.
#[derive(Clone, Default)]
struct Engine {
    records: Vec<StorageRecord>,
    authority: Vec<AuthorityRecord>,
    log: u64,
}

impl Engine {
    fn assert_record(&mut self, record: StorageRecord) -> Snapshot {
        let key = record.record_key();
        assert!(self.records.iter().all(|held| held.record_key() != key));
        self.records.push(record);
        self.log += 1;
        Snapshot(self.log)
    }

    fn mutate_record(&mut self, record: StorageRecord) {
        let key = record.record_key();
        let held = self
            .records
            .iter_mut()
            .find(|held| held.record_key() == key)
            .expect("a record to replace");
        *held = record;
        self.log += 1;
    }

    fn commit(&mut self, writes: &[AuthorityWrite]) {
        for write in writes {
            match write {
                AuthorityWrite::Assert(record) => {
                    let key = record.record_key();
                    assert!(self.authority.iter().all(|held| held.record_key() != key));
                    self.authority.push(record.clone());
                }
                AuthorityWrite::Mutate(record) => {
                    let key = record.record_key();
                    let held = self
                        .authority
                        .iter_mut()
                        .find(|held| held.record_key() == key)
                        .expect("a record to replace");
                    *held = record.clone();
                }
            }
        }
        self.log += 1;
    }

    fn validate(payload: &DocumentPayload) -> Result<(), DocumentViolation> {
        if payload.body == b"invalid" {
            Err(DocumentViolation(b"invalid body".to_vec()))
        } else {
            Ok(())
        }
    }

    fn hash(payload: &DocumentPayload) -> Result<ContentHash, String> {
        if payload.body == b"unhashable" {
            return Err("no hash".to_string());
        }
        let mut digest = [0u8; 32];
        for (index, byte) in payload.body.iter().enumerate() {
            digest[index % 32] = digest[index % 32].wrapping_mul(31).wrapping_add(*byte);
        }
        digest[31] = payload.body.len() as u8;
        Ok(ContentHash(digest))
    }

    fn work(&mut self, stage: &Stage) -> Event {
        match stage {
            Stage::Validate { payload, .. } => Event::Validated(Self::validate(payload)),
            Stage::ReadRecords(_) => Event::Records(Ok(self.records.clone())),
            Stage::HashPayload { payload, .. } => Event::Hashed(Self::hash(payload)),
            Stage::AssertDocument(document) => Event::Stamped(Ok(
                self.assert_record(StorageRecord::Document(document.clone()))
            )),
            Stage::WriteAllocator(allocation) => {
                if allocation.fresh {
                    self.assert_record(allocation.record.clone());
                } else {
                    self.mutate_record(allocation.record.clone());
                }
                Event::Written(Ok(()))
            }
            Stage::TakeSnapshot => Event::Stamped(Ok(Snapshot(self.log))),
            Stage::ReadAuthority { .. } => Event::Authority(Ok(self.authority.clone())),
            Stage::CommitAuthority(commit) => {
                self.commit(&commit.writes);
                Event::Written(Ok(()))
            }
        }
    }

    fn request(&mut self, request: Request) -> Result<(Reply, Option<ChangeEvent>), Error> {
        let mut step = begin(request);
        loop {
            match step {
                Step::Await(stage) => {
                    let event = self.work(&stage);
                    assert!(stage.is_awaiting(&event));
                    step = resume(stage, event);
                }
                Step::Done { reply, change } => return Ok((reply, change)),
                Step::Failed(error) => return Err(error),
            }
        }
    }
}

fn mint(name: &str, shape: u8) -> DeclaredIdentity {
    DeclaredIdentity {
        key: DeclaredKey(name.as_bytes().to_vec()),
        shape: DeclaredShape([shape; 32]),
        intent: IdentityIntent::MintOrBind,
    }
}

fn continued(name: &str, shape: u8, identity: u32) -> DeclaredIdentity {
    DeclaredIdentity {
        key: DeclaredKey(name.as_bytes().to_vec()),
        shape: DeclaredShape([shape; 32]),
        intent: IdentityIntent::Continue(TypeIdentity(identity)),
    }
}

fn whole(handle: &str) -> SchemaWholeHandle {
    SchemaWholeHandle(handle.as_bytes().to_vec())
}

fn bind(engine: &mut Engine, handle: &str, declarations: Vec<DeclaredIdentity>) -> Reply {
    let (reply, change) = engine
        .request(Request::BindIdentities {
            whole: whole(handle),
            declarations,
        })
        .expect("bind request");
    assert_eq!(change, None);
    reply
}

fn assignment(reply: &Reply, name: &str) -> (TypeIdentity, BindOutcome) {
    let Reply::IdentitiesBound(bound) = reply else {
        panic!("expected IdentitiesBound, got {reply:?}");
    };
    let key = DeclaredKey(name.as_bytes().to_vec());
    let found = bound
        .assignments
        .iter()
        .find(|assignment| assignment.key == key)
        .unwrap_or_else(|| panic!("no assignment for {name} in {bound:?}"));
    (found.identity, found.outcome)
}

fn universe(reply: &Reply) -> MintedUniverse {
    let Reply::IdentitiesBound(bound) = reply else {
        panic!("expected IdentitiesBound, got {reply:?}");
    };
    bound.universe
}

/// A fresh process: only what the tables hold is carried over.
fn restart(engine: &Engine) -> Engine {
    let mut authority = engine.authority.clone();
    authority.reverse();
    Engine {
        records: engine.records.clone(),
        authority,
        log: engine.log,
    }
}

#[test]
fn same_declared_schema_binds_identical_identities_across_restart() {
    let mut engine = Engine::default();
    let first = bind(
        &mut engine,
        "payments/v1",
        vec![mint("Alpha", 1), mint("Beta", 2)],
    );
    assert_eq!(assignment(&first, "Alpha").1, BindOutcome::Minted);
    assert_eq!(assignment(&first, "Beta").1, BindOutcome::Minted);

    let mut engine = restart(&engine);
    let second = bind(
        &mut engine,
        "payments/v1",
        vec![mint("Beta", 2), mint("Alpha", 1)],
    );

    assert_eq!(universe(&first), universe(&second), "same universe rebound");
    assert_eq!(
        assignment(&first, "Alpha").0,
        assignment(&second, "Alpha").0,
        "Alpha keeps its one identity",
    );
    assert_eq!(
        assignment(&first, "Beta").0,
        assignment(&second, "Beta").0,
        "Beta keeps its one identity",
    );
    assert_eq!(assignment(&second, "Alpha").1, BindOutcome::Bound);
    assert_eq!(assignment(&second, "Beta").1, BindOutcome::Bound);
}

#[test]
fn carried_declarations_are_stable_and_only_new_ones_mint() {
    let mut engine = Engine::default();
    let base = bind(
        &mut engine,
        "catalog",
        vec![mint("Alpha", 1), mint("Beta", 2)],
    );
    let alpha = assignment(&base, "Alpha").0;

    let evolved = bind(
        &mut engine,
        "catalog",
        vec![mint("Alpha", 1), mint("Gamma", 3)],
    );

    assert_eq!(
        assignment(&evolved, "Alpha"),
        (alpha, BindOutcome::Bound),
        "Alpha keeps its identity",
    );
    let (gamma, gamma_outcome) = assignment(&evolved, "Gamma");
    assert_eq!(gamma_outcome, BindOutcome::Minted, "Gamma is a new thing");
    assert_eq!(
        gamma,
        TypeIdentity(2),
        "Gamma mints the next never-reused local after Alpha(0), Beta(1)",
    );
}

#[test]
fn rebinding_an_identity_to_a_different_shape_is_rejected() {
    let mut engine = Engine::default();
    let minted = bind(&mut engine, "ledger", vec![mint("Alpha", 1)]);
    let alpha = assignment(&minted, "Alpha").0;

    let attempt = bind(
        &mut engine,
        "ledger",
        vec![DeclaredIdentity {
            key: DeclaredKey(b"Impostor".to_vec()),
            shape: DeclaredShape([2; 32]),
            intent: IdentityIntent::Continue(alpha),
        }],
    );

    match attempt {
        Reply::Rejected(Rejection::IdentityRebindRejected {
            identity,
            bound_shape,
            attempted_shape,
        }) => {
            assert_eq!(identity, alpha);
            assert_eq!(bound_shape, DeclaredShape([1; 32]));
            assert_eq!(attempted_shape, DeclaredShape([2; 32]));
        }
        other => panic!("expected a law-2 IdentityRebindRejected, got {other:?}"),
    }
}

#[test]
fn distinct_wholes_mint_distinct_universes_across_restart() {
    let mut engine = Engine::default();
    let first = bind(&mut engine, "alpha-whole", vec![mint("One", 1)]);
    let mut engine = restart(&engine);
    let second = bind(&mut engine, "beta-whole", vec![mint("One", 1)]);

    assert_ne!(
        universe(&first),
        universe(&second),
        "a distinct whole never reuses a minted universe id",
    );
}

#[test]
fn empty_declaration_set_is_rejected() {
    let mut engine = Engine::default();
    let reply = bind(&mut engine, "empty", Vec::new());
    assert!(matches!(
        reply,
        Reply::Rejected(Rejection::EmptyDeclarationSet)
    ));
}

#[test]
fn universes_and_identities_count_from_zero() {
    let mut engine = Engine::default();
    let first = bind(&mut engine, "one", vec![mint("A", 1), mint("B", 1)]);
    let second = bind(&mut engine, "two", vec![mint("A", 1)]);
    assert_eq!(universe(&first), MintedUniverse(0));
    assert_eq!(universe(&second), MintedUniverse(1));
    assert_eq!(assignment(&first, "A").0, TypeIdentity(0));
    assert_eq!(assignment(&first, "B").0, TypeIdentity(1));
    assert_eq!(assignment(&second, "A").0, TypeIdentity(0));
}

#[test]
fn a_repeated_key_in_one_set_is_minted_once() {
    let mut engine = Engine::default();
    let reply = bind(&mut engine, "one", vec![mint("A", 1), mint("A", 2)]);
    let Reply::IdentitiesBound(bound) = reply else {
        panic!("expected IdentitiesBound");
    };
    assert_eq!(bound.assignments[0].outcome, BindOutcome::Minted);
    assert_eq!(bound.assignments[1].outcome, BindOutcome::Bound);
    assert_eq!(bound.assignments[0].identity, bound.assignments[1].identity);
}

#[test]
fn a_changed_shape_under_a_bound_key_keeps_the_identity() {
    let mut engine = Engine::default();
    bind(&mut engine, "one", vec![mint("A", 1)]);
    let changed = bind(&mut engine, "one", vec![mint("A", 9)]);
    assert_eq!(
        assignment(&changed, "A"),
        (TypeIdentity(0), BindOutcome::Bound)
    );
    // The new shape is the one that a claim is held against.
    let claim = bind(&mut engine, "one", vec![continued("B", 9, 0)]);
    assert_eq!(
        assignment(&claim, "B"),
        (TypeIdentity(0), BindOutcome::Bound)
    );
}

#[test]
fn a_continued_identity_moves_to_its_new_key() {
    let mut engine = Engine::default();
    bind(&mut engine, "one", vec![mint("A", 1)]);
    bind(&mut engine, "one", vec![continued("B", 1, 0)]);
    let renamed = bind(&mut engine, "one", vec![mint("B", 1), mint("A", 1)]);
    assert_eq!(
        assignment(&renamed, "B"),
        (TypeIdentity(0), BindOutcome::Bound)
    );
    assert_eq!(
        assignment(&renamed, "A"),
        (TypeIdentity(1), BindOutcome::Minted)
    );
}

#[test]
fn continuing_an_identity_leaves_alone_what_it_does_not_name() {
    let mut engine = Engine::default();
    bind(&mut engine, "one", vec![mint("A", 1), mint("B", 2), mint("C", 3)]);
    bind(&mut engine, "two", vec![mint("A", 1), mint("B", 2)]);
    // B is renamed to D; an identity is continued under the key that it has.
    bind(
        &mut engine,
        "one",
        vec![continued("D", 2, 1), continued("C", 3, 2), mint("E", 4)],
    );
    let one = bind(&mut engine, "one", vec![mint("C", 3), mint("A", 1), mint("D", 2)]);
    assert_eq!(assignment(&one, "A"), (TypeIdentity(0), BindOutcome::Bound));
    assert_eq!(assignment(&one, "C"), (TypeIdentity(2), BindOutcome::Bound));
    assert_eq!(assignment(&one, "D"), (TypeIdentity(1), BindOutcome::Bound));
    let two = bind(&mut engine, "two", vec![mint("B", 2), mint("A", 1)]);
    assert_eq!(universe(&two), MintedUniverse(1));
    assert_eq!(assignment(&two, "A"), (TypeIdentity(0), BindOutcome::Bound));
    assert_eq!(assignment(&two, "B"), (TypeIdentity(1), BindOutcome::Bound));
    // The name that was given up is minted anew, and not with an old identity.
    let renamed = bind(&mut engine, "one", vec![mint("B", 2)]);
    assert_eq!(assignment(&renamed, "B"), (TypeIdentity(4), BindOutcome::Minted));
}

#[test]
fn a_bound_key_is_answered_alike_whatever_lies_between() {
    let mut engine = Engine::default();
    let first = bind(&mut engine, "one", vec![mint("A", 1), mint("B", 2)]);
    bind(&mut engine, "two", vec![mint("A", 7)]);
    bind(&mut engine, "one", vec![mint("C", 3), continued("F", 2, 1)]);
    bind(&mut engine, "one", vec![continued("A", 9, 0)]);
    let mut engine = restart(&engine);
    bind(&mut engine, "three", vec![mint("A", 1)]);
    let last = bind(&mut engine, "one", vec![mint("A", 4), mint("G", 5)]);
    assert_eq!(universe(&last), universe(&first));
    assert_eq!(
        assignment(&last, "A"),
        (assignment(&first, "A").0, BindOutcome::Bound)
    );
    assert_eq!(assignment(&last, "G"), (TypeIdentity(3), BindOutcome::Minted));
}

#[test]
fn an_identity_that_was_never_minted_cannot_be_continued() {
    let mut engine = Engine::default();
    bind(&mut engine, "one", vec![mint("A", 1)]);
    let reply = bind(&mut engine, "one", vec![continued("B", 1, 7)]);
    assert_eq!(
        reply,
        Reply::Rejected(Rejection::IdentityNeverMinted(TypeIdentity(7)))
    );
}

#[test]
fn a_rejected_set_writes_nothing() {
    let mut engine = Engine::default();
    bind(&mut engine, "one", vec![mint("A", 1)]);
    let before = engine.authority.clone();
    let log = engine.log;
    let reply = bind(
        &mut engine,
        "two",
        vec![mint("B", 2), continued("C", 1, 5)],
    );
    assert_eq!(
        reply,
        Reply::Rejected(Rejection::IdentityNeverMinted(TypeIdentity(5)))
    );
    assert_eq!(engine.authority, before);
    assert_eq!(engine.log, log);
}

#[test]
fn the_registry_is_written_only_when_it_moves() {
    let mut engine = Engine::default();
    bind(&mut engine, "one", vec![mint("A", 1)]);
    assert_eq!(engine.authority.len(), 2);
    let stage = match begin(Request::BindIdentities {
        whole: whole("one"),
        declarations: vec![mint("A", 1)],
    }) {
        Step::Await(stage) => stage,
        other => panic!("expected a stage, got {other:?}"),
    };
    let event = Event::Authority(Ok(engine.authority.clone()));
    match resume(stage, event) {
        Step::Await(Stage::CommitAuthority(commit)) => {
            assert_eq!(commit.writes.len(), 1);
            assert!(matches!(commit.writes[0], AuthorityWrite::Mutate(_)));
        }
        other => panic!("expected a commit, got {other:?}"),
    }
}
