//! Requests against an engine in memory: documents, listings and allocation.

use sema_storage::authority::AuthorityWrite;
use sema_storage::dispatch::{begin, resume, Event, Inquiry, Stage, Step};
use sema_storage::documents::{has_next_version, latest_for, list};
use sema_storage::error::Error;
use sema_storage::identity::{UniverseRegistry, UniverseState};
use sema_storage::protocol::{
    ChangeEvent, ContentHash, DeclaredIdentity, DeclaredKey, DeclaredShape, DocumentKey,
    DocumentKind, DocumentPayload, DocumentViolation, FixtureScope, IdentifierBlock,
    IdentityIntent, Rejection, Reply, Request, SchemaWholeHandle, SlotIdentifier, SlotSummary,
    Snapshot, StoredDocument, SubscriptionIdentifier, Version,
};
use sema_storage::records::{
    document_record_key, kind_tag, AuthorityRecord, StorageRecord,
};

/// An engine in memory: two tables of records under unique keys.
#[derive(Clone, Default)]
struct Engine {
    records: Vec<StorageRecord>,
    authority: Vec<AuthorityRecord>,
    log: u64,
}

impl Engine {
    fn assert_record(&mut self, record: StorageRecord) -> Snapshot {
        let key = record.record_key();
        assert!(self.records.iter().all(|held| held.record_key() != key));
        self.records.push(record);
        self.log += 1;
        Snapshot(self.log)
    }

    fn mutate_record(&mut self, record: StorageRecord) {
        let key = record.record_key();
        let held = self
            .records
            .iter_mut()
            .find(|held| held.record_key() == key)
            .expect("a record to replace");
        *held = record;
        self.log += 1;
    }

    fn commit(&mut self, writes: &[AuthorityWrite]) {
        for write in writes {
            match write {
                AuthorityWrite::Assert(record) => {
                    let key = record.record_key();
                    assert!(self.authority.iter().all(|held| held.record_key() != key));
                    self.authority.push(record.clone());
                }
                AuthorityWrite::Mutate(record) => {
                    let key = record.record_key();
                    let held = self
                        .authority
                        .iter_mut()
                        .find(|held| held.record_key() == key)
                        .expect("a record to replace");
                    *held = record.clone();
                }
            }
        }
        self.log += 1;
    }

    fn validate(payload: &DocumentPayload) -> Result<(), DocumentViolation> {
        if payload.body == b"invalid" {
            Err(DocumentViolation(b"invalid body".to_vec()))
        } else {
            Ok(())
        }
    }

    fn hash(payload: &DocumentPayload) -> Result<ContentHash, String> {
        if payload.body == b"unhashable" {
            return Err("no hash".to_string());
        }
        let mut digest = [0u8; 32];
        for (index, byte) in payload.body.iter().enumerate() {
            digest[index % 32] = digest[index % 32].wrapping_mul(31).wrapping_add(*byte);
        }
        digest[31] = payload.body.len() as u8;
        Ok(ContentHash(digest))
    }

    fn work(&mut self, stage: &Stage) -> Event {
        match stage {
            Stage::Validate { payload, .. } => Event::Validated(Self::validate(payload)),
            Stage::ReadRecords(_) => Event::Records(Ok(self.records.clone())),
            Stage::HashPayload { payload, .. } => Event::Hashed(Self::hash(payload)),
            Stage::AssertDocument(document) => Event::Stamped(Ok(
                self.assert_record(StorageRecord::Document(document.clone()))
            )),
            Stage::WriteAllocator(allocation) => {
                if allocation.fresh {
                    self.assert_record(allocation.record.clone());
                } else {
                    self.mutate_record(allocation.record.clone());
                }
                Event::Written(Ok(()))
            }
            Stage::TakeSnapshot => Event::Stamped(Ok(Snapshot(self.log))),
            Stage::ReadAuthority { .. } => Event::Authority(Ok(self.authority.clone())),
            Stage::CommitAuthority(commit) => {
                self.commit(&commit.writes);
                Event::Written(Ok(()))
            }
        }
    }

    fn request(&mut self, request: Request) -> Result<(Reply, Option<ChangeEvent>), Error> {
        let mut step = begin(request);
        loop {
            match step {
                Step::Await(stage) => {
                    let event = self.work(&stage);
                    assert!(stage.is_awaiting(&event));
                    step = resume(stage, event);
                }
                Step::Done { reply, change } => return Ok((reply, change)),
                Step::Failed(error) => return Err(error),
            }
        }
    }
}

fn key(scope: u64, kind: DocumentKind, slot: u64) -> DocumentKey {
    DocumentKey {
        scope: FixtureScope(scope),
        kind,
        slot: SlotIdentifier(slot),
    }
}

fn payload(kind: DocumentKind, body: &[u8]) -> DocumentPayload {
    DocumentPayload {
        kind,
        body: body.to_vec(),
    }
}

fn store(engine: &mut Engine, key: DocumentKey, body: &[u8]) -> SlotSummary {
    let (reply, change) = engine
        .request(Request::Store {
            key,
            payload: payload(key.kind, body),
        })
        .expect("store request");
    let Reply::Stored(summary) = reply else {
        panic!("expected Stored, got {reply:?}");
    };
    let change = change.expect("a change");
    assert_eq!(change.document, summary);
    assert_eq!(change.subscription, SubscriptionIdentifier(0));
    assert_eq!(change.snapshot, Snapshot(engine.log));
    summary
}

fn fetch(engine: &mut Engine, key: DocumentKey, version: Option<u64>) -> Option<StoredDocument> {
    let request = Request::Fetch {
        key,
        version: version.map(Version),
    };
    match engine.request(request) {
        Ok((Reply::Document(found), None)) => found,
        other => panic!("expected Document, got {other:?}"),
    }
}

fn listed(engine: &mut Engine, scope: u64, kind: Option<DocumentKind>) -> Vec<SlotSummary> {
    let request = Request::List {
        scope: FixtureScope(scope),
        kind,
    };
    match engine.request(request) {
        Ok((Reply::Listed(values), None)) => values,
        other => panic!("expected Listed, got {other:?}"),
    }
}

fn allocated(engine: &mut Engine, scope: u64, count: u32) -> IdentifierBlock {
    let request = Request::AllocateIdentifiers {
        scope: FixtureScope(scope),
        count,
    };
    match engine.request(request) {
        Ok((Reply::IdentifiersAllocated(block), None)) => block,
        other => panic!("expected IdentifiersAllocated, got {other:?}"),
    }
}

#[test]
fn a_fetch_gives_back_what_was_stored() {
    let mut engine = Engine::default();
    let slot = key(1, DocumentKind::Nomos, 4);
    let summary = store(&mut engine, slot, b"first");
    assert_eq!(summary.version, Version(1));
    let found = fetch(&mut engine, slot, None).expect("a document");
    assert_eq!(found.key, slot);
    assert_eq!(found.version, Version(1));
    assert_eq!(found.hash, summary.hash);
    assert_eq!(found.payload, payload(DocumentKind::Nomos, b"first"));
}

#[test]
fn each_store_adds_one_version_and_keeps_the_others() {
    let mut engine = Engine::default();
    let slot = key(1, DocumentKind::Nomos, 4);
    for (version, body) in [(1u64, b"one"), (2, b"two"), (3, b"six")] {
        assert_eq!(store(&mut engine, slot, body).version, Version(version));
    }
    assert_eq!(fetch(&mut engine, slot, Some(1)).unwrap().payload.body, b"one");
    assert_eq!(fetch(&mut engine, slot, Some(2)).unwrap().payload.body, b"two");
    assert_eq!(fetch(&mut engine, slot, None).unwrap().payload.body, b"six");
    assert_eq!(fetch(&mut engine, slot, Some(4)), None);
    // In another read order the same versions are found.
    engine.records.reverse();
    assert_eq!(fetch(&mut engine, slot, None).unwrap().version, Version(3));
    assert_eq!(fetch(&mut engine, key(2, DocumentKind::Nomos, 4), None), None);
}

#[test]
fn the_last_of_equal_versions_is_the_latest() {
    let slot = key(1, DocumentKind::Logos, 1);
    let version = |body: &[u8]| StoredDocument {
        key: slot,
        version: Version(2),
        hash: ContentHash([0; 32]),
        payload: payload(DocumentKind::Logos, body),
    };
    let found = latest_for(vec![version(b"a"), version(b"b")], &slot).unwrap();
    assert_eq!(found.payload.body, b"b");
}

#[test]
fn a_kind_that_is_not_the_payloads_is_rejected() {
    let mut engine = Engine::default();
    let reply = engine.request(Request::Store {
        key: key(1, DocumentKind::Nomos, 1),
        payload: payload(DocumentKind::Logos, b"x"),
    });
    assert_eq!(
        reply.unwrap(),
        (Reply::Rejected(Rejection::InvalidKind), None)
    );
    assert!(engine.records.is_empty());
}

#[test]
fn an_invalid_payload_is_rejected_with_its_violation() {
    let mut engine = Engine::default();
    let reply = engine.request(Request::Store {
        key: key(1, DocumentKind::Nomos, 1),
        payload: payload(DocumentKind::Nomos, b"invalid"),
    });
    assert_eq!(
        reply.unwrap(),
        (
            Reply::Rejected(Rejection::InvalidDocument(DocumentViolation(
                b"invalid body".to_vec()
            ))),
            None
        )
    );
    assert!(engine.records.is_empty());
}

#[test]
fn a_payload_without_a_hash_fails_the_request() {
    let mut engine = Engine::default();
    let failed = engine.request(Request::Store {
        key: key(1, DocumentKind::Nomos, 1),
        payload: payload(DocumentKind::Nomos, b"unhashable"),
    });
    assert_eq!(failed, Err(Error::Storage("no hash".to_string())));
    assert!(engine.records.is_empty());
}

#[test]
fn engine_failures_fail_the_request_with_their_message() {
    let lost = || "disk lost".to_string();
    let failed = |stage: Stage, event: Event| match resume(stage, event) {
        Step::Failed(error) => error,
        other => panic!("expected a failure, got {other:?}"),
    };
    let expected = Error::Storage(lost());
    let slot = key(1, DocumentKind::Nomos, 1);
    assert_eq!(
        failed(
            Stage::ReadRecords(Inquiry::Fetch {
                key: slot,
                version: None
            }),
            Event::Records(Err(lost()))
        ),
        expected
    );
    assert_eq!(
        failed(Stage::TakeSnapshot, Event::Stamped(Err(lost()))),
        expected
    );
    assert_eq!(
        failed(
            Stage::AssertDocument(StoredDocument {
                key: slot,
                version: Version(1),
                hash: ContentHash([0; 32]),
                payload: payload(DocumentKind::Nomos, b"x"),
            }),
            Event::Stamped(Err(lost()))
        ),
        expected
    );
    assert_eq!(
        failed(
            Stage::ReadAuthority {
                whole: SchemaWholeHandle(b"w".to_vec()),
                declarations: Vec::new(),
            },
            Event::Authority(Err(lost()))
        ),
        expected
    );
    assert_eq!(expected.message(), "storage: disk lost");
    assert_eq!(
        Error::Actor("stopped".to_string()).message(),
        "actor: stopped"
    );
}

#[test]
fn a_document_is_found_by_its_hash() {
    let mut engine = Engine::default();
    store(&mut engine, key(1, DocumentKind::Nomos, 1), b"alpha");
    let wanted = store(&mut engine, key(1, DocumentKind::Logos, 2), b"beta");
    let reply = engine.request(Request::HashFetch { hash: wanted.hash });
    let Ok((Reply::Document(Some(found)), None)) = reply else {
        panic!("expected a document, got {reply:?}");
    };
    assert_eq!(found.payload.body, b"beta");
    let missing = engine.request(Request::HashFetch {
        hash: ContentHash([9; 32]),
    });
    assert_eq!(missing.unwrap(), (Reply::Document(None), None));
}

#[test]
fn a_listing_is_ordered_by_kind_slot_and_version() {
    let mut engine = Engine::default();
    let nomos = key(1, DocumentKind::Nomos, 7);
    let schema_high = key(1, DocumentKind::TypeSchema, 9);
    let schema_low = key(1, DocumentKind::TypeSchema, 2);
    store(&mut engine, nomos, b"a");
    store(&mut engine, schema_high, b"b");
    store(&mut engine, schema_low, b"c");
    store(&mut engine, schema_high, b"d");
    store(&mut engine, key(2, DocumentKind::Nomos, 1), b"e");
    allocated(&mut engine, 1, 3);
    let order = |values: Vec<SlotSummary>| -> Vec<(DocumentKey, u64)> {
        values
            .into_iter()
            .map(|value| (value.key, value.version.0))
            .collect()
    };
    let all = order(listed(&mut engine, 1, None));
    assert_eq!(
        all,
        vec![
            (schema_low, 1),
            (schema_high, 1),
            (schema_high, 2),
            (nomos, 1)
        ]
    );
    assert_eq!(
        order(listed(&mut engine, 1, Some(DocumentKind::Nomos))),
        vec![(nomos, 1)]
    );
    assert_eq!(listed(&mut engine, 3, None), Vec::new());
    engine.records.reverse();
    assert_eq!(order(listed(&mut engine, 1, None)), all);
}

#[test]
fn equal_ranks_are_listed_as_they_were_read() {
    let slot = key(1, DocumentKind::Logos, 1);
    let version = |mark: u8| StoredDocument {
        key: slot,
        version: Version(2),
        hash: ContentHash([mark; 32]),
        payload: payload(DocumentKind::Logos, b""),
    };
    let values = list(
        &vec![version(3), version(1), version(2)],
        FixtureScope(1),
        None,
    );
    let marks: Vec<u8> = values.iter().map(|value| value.hash.0[0]).collect();
    assert_eq!(marks, vec![3, 1, 2]);
}

#[test]
fn a_subscription_starts_from_the_listing_and_follows_the_changes() {
    let mut engine = Engine::default();
    let slot = key(1, DocumentKind::Nomos, 1);
    store(&mut engine, slot, b"a");
    let (reply, change) = engine
        .request(Request::Subscribe {
            scope: FixtureScope(1),
            kind: None,
        })
        .unwrap();
    assert_eq!(change, None);
    let Reply::Subscribed {
        identifier,
        initial,
    } = reply
    else {
        panic!("expected Subscribed");
    };
    assert_eq!(identifier, SubscriptionIdentifier(0));
    assert_eq!(initial, listed(&mut engine, 1, None));
    let mut known = initial;
    known.push(store(&mut engine, slot, b"b"));
    assert_eq!(known, listed(&mut engine, 1, None));
}

#[test]
fn a_snapshot_is_the_latest_of_the_engine() {
    let mut engine = Engine::default();
    store(&mut engine, key(1, DocumentKind::Nomos, 1), b"a");
    let reply = engine.request(Request::Snapshot {
        scope: FixtureScope(1),
    });
    assert_eq!(reply.unwrap(), (Reply::Snapshotted(Snapshot(1)), None));
}

#[test]
fn blocks_of_a_scope_follow_each_other() {
    let mut engine = Engine::default();
    assert_eq!(
        allocated(&mut engine, 1, 5),
        IdentifierBlock {
            first: 0,
            length: 5
        }
    );
    assert_eq!(
        allocated(&mut engine, 2, 1),
        IdentifierBlock {
            first: 0,
            length: 1
        }
    );
    assert_eq!(
        allocated(&mut engine, 1, 2),
        IdentifierBlock {
            first: 5,
            length: 2
        }
    );
    assert_eq!(engine.records.len(), 2);
}

#[test]
fn stored_versions_and_blocks_outlast_what_lies_between() {
    let mut engine = Engine::default();
    let slot = key(1, DocumentKind::Nomos, 4);
    let stored = store(&mut engine, slot, b"first");
    let mut handed_out = 0;
    for round in 1..=4u32 {
        let block = allocated(&mut engine, 1, round);
        assert_eq!((block.first, block.length), (handed_out, round));
        handed_out += round;
        store(&mut engine, slot, &[round as u8]);
        store(&mut engine, key(1, DocumentKind::Logos, round as u64), b"other");
        allocated(&mut engine, 2, 9);
        let rejected = engine.request(Request::AllocateIdentifiers {
            scope: FixtureScope(1),
            count: 0,
        });
        assert!(matches!(rejected, Ok((Reply::Rejected(_), None))));
        engine.records.reverse();
    }
    let found = fetch(&mut engine, slot, Some(1)).expect("the first version");
    assert_eq!(found.hash, stored.hash);
    assert_eq!(found.payload.body, b"first");
    assert_eq!(fetch(&mut engine, slot, None).unwrap().version, Version(5));
    assert_eq!(allocated(&mut engine, 1, 1).first, 10);
    assert_eq!(allocated(&mut engine, 2, 1).first, 36);
}

#[test]
fn only_a_store_tells_of_a_change() {
    let mut engine = Engine::default();
    let slot = key(1, DocumentKind::Nomos, 4);
    let hash = store(&mut engine, slot, b"a").hash;
    let scope = FixtureScope(1);
    for request in [
        Request::Fetch {
            key: slot,
            version: None,
        },
        Request::HashFetch { hash },
        Request::List { scope, kind: None },
        Request::Subscribe { scope, kind: None },
        Request::Snapshot { scope },
        Request::AllocateIdentifiers { scope, count: 2 },
        Request::AllocateIdentifiers { scope, count: 0 },
        Request::Store {
            key: slot,
            payload: payload(DocumentKind::Nomos, b"invalid"),
        },
        Request::BindIdentities {
            whole: SchemaWholeHandle(b"w".to_vec()),
            declarations: vec![DeclaredIdentity {
                key: DeclaredKey(b"A".to_vec()),
                shape: DeclaredShape([1; 32]),
                intent: IdentityIntent::MintOrBind,
            }],
        },
    ] {
        let is_snapshot = matches!(request, Request::Snapshot { .. });
        let (reply, change) = engine.request(request).expect("an answer");
        assert_eq!(change, None);
        assert_eq!(matches!(reply, Reply::Snapshotted(_)), is_snapshot);
    }
}

#[test]
fn a_count_of_zero_is_rejected() {
    let mut engine = Engine::default();
    let reply = engine.request(Request::AllocateIdentifiers {
        scope: FixtureScope(1),
        count: 0,
    });
    assert_eq!(reply.unwrap(), (Reply::Rejected(Rejection::CountZero), None));
}

#[test]
fn identifiers_that_run_out_fail_the_request() {
    let mut engine = Engine::default();
    allocated(&mut engine, 1, u32::MAX);
    let failed = engine.request(Request::AllocateIdentifiers {
        scope: FixtureScope(1),
        count: 1,
    });
    assert_eq!(
        failed,
        Err(Error::Storage("identifier overflow".to_string()))
    );
}

#[test]
fn universes_that_run_out_fail_the_request() {
    let mut engine = Engine::default();
    engine
        .authority
        .push(AuthorityRecord::UniverseRegistry(UniverseRegistry {
            next_universe: u32::MAX,
            wholes: Vec::new(),
        }));
    let failed = engine.request(Request::BindIdentities {
        whole: SchemaWholeHandle(b"w".to_vec()),
        declarations: vec![DeclaredIdentity {
            key: DeclaredKey(b"A".to_vec()),
            shape: DeclaredShape([1; 32]),
            intent: IdentityIntent::MintOrBind,
        }],
    });
    assert_eq!(
        failed,
        Err(Error::Storage(
            "universe identifier space exhausted".to_string()
        ))
    );
}

#[test]
fn identities_that_run_out_are_rejected() {
    let mut state = UniverseState::empty(0);
    state.next_local = u32::MAX;
    let rejected = state.bind_or_mint(&DeclaredIdentity {
        key: DeclaredKey(b"A".to_vec()),
        shape: DeclaredShape([1; 32]),
        intent: IdentityIntent::MintOrBind,
    });
    assert_eq!(rejected, Err(Rejection::Internal));
    assert_eq!(state.next_local, u32::MAX);
    assert!(state.bindings.is_empty());
}

#[test]
fn a_document_at_its_last_version_cannot_be_stored_again() {
    let slot = key(1, DocumentKind::Nomos, 1);
    let last = StorageRecord::Document(StoredDocument {
        key: slot,
        version: Version(u64::MAX),
        hash: ContentHash([0; 32]),
        payload: payload(DocumentKind::Nomos, b""),
    });
    let records = vec![last];
    assert!(!has_next_version(&records, &slot));
    assert!(has_next_version(&records, &key(1, DocumentKind::Nomos, 2)));
    let stage = Stage::ReadRecords(Inquiry::Store {
        key: slot,
        payload: payload(DocumentKind::Nomos, b""),
    });
    assert!(!stage.is_awaiting(&Event::Records(Ok(records))));
    assert!(stage.is_awaiting(&Event::Records(Err(String::new()))));
    assert!(!stage.is_awaiting(&Event::Written(Ok(()))));
}

#[test]
fn record_keys_spell_out_what_they_stand_for() {
    let slot = key(12, DocumentKind::SemaStorage, 0);
    assert_eq!(document_record_key(&slot, Version(305)), "doc:12:3:0:305");
    assert_eq!(
        StorageRecord::Allocator {
            scope: FixtureScope(u64::MAX),
            next: 1,
        }
        .record_key(),
        "allocator:18446744073709551615"
    );
    assert_eq!(
        AuthorityRecord::UniverseRegistry(UniverseRegistry::default()).record_key(),
        "universe-registry"
    );
    assert_eq!(
        AuthorityRecord::UniverseState(UniverseState::empty(40)).record_key(),
        "universe-state:40"
    );
}

#[test]
fn kinds_have_the_numbers_zero_to_five() {
    let kinds = [
        DocumentKind::TypeSchema,
        DocumentKind::SignalContract,
        DocumentKind::NexusRuntime,
        DocumentKind::SemaStorage,
        DocumentKind::Nomos,
        DocumentKind::Logos,
    ];
    let tags: Vec<u8> = kinds.into_iter().map(kind_tag).collect();
    assert_eq!(tags, vec![0, 1, 2, 3, 4, 5]);
}
