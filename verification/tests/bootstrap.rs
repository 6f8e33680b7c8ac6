//! A device with nothing walks a scope while other people keep writing.
use credsync::codec::{Codec, RowState};
use credsync::protocol::{
    Batch, BootstrapRequest, Change, Cursor, EntityId, EntityName, HexString, Op, ProtocolVersion,
    RowKey, ScopeId,
};
use credsync::rng::Rng;
use credsync::server::Server;
use credsync::storage::{SimStorage, StorageOp};

/// Very small on purpose, so that the fixtures need several pages.
const BUDGET: usize = 128;

struct Plain;

impl Codec for Plain {
    fn encode(&self, change: &Change) -> Option<Vec<u8>> {
        let snapshot = change.snapshot.as_ref().map_or("", |s| s.as_str());
        Some(
            format!(
                "{{\"seq\":{},\"entity\":\"{}\",\"entity_id\":\"{}\",\"op\":\"{:?}\",\
                 \"row_version\":{},\"schema_version\":{},\"snapshot\":{}}}",
                change.seq.get(),
                change.entity.as_str(),
                change.entity_id.as_str(),
                change.op,
                change.row_version.get(),
                change.schema_version.get(),
                snapshot,
            )
            .into_bytes(),
        )
    }

    fn checksum(&self, changes: &Vec<Change>) -> Option<HexString> {
        let sum: u64 = changes.iter().map(|c| c.seq.get()).sum();
        Some(HexString::new(&format!("{sum:032x}")))
    }

    fn digest(&self, rows: &Vec<RowState>) -> HexString {
        let sum: u64 = rows.iter().map(|r| r.row_version.get()).sum();
        HexString::new(&format!("{sum:032x}"))
    }

    fn payload(&self, json: &String) -> Option<HexString> {
        Some(HexString::new(&format!("{:032x}", json.len())))
    }
}

fn scope() -> ScopeId {
    ScopeId::new("inst:adl:enr:2026-cohort")
}

fn entity() -> EntityName {
    EntityName::new("reflections")
}

fn request(after: u64) -> BootstrapRequest {
    BootstrapRequest {
        protocol: ProtocolVersion::new(1).expect("valid protocol"),
        scope: scope(),
        after: Cursor { position: after },
    }
}

/// A server holding `rows` rows in one scope, each written once.
fn server_with(rows: usize) -> (Server, Rng) {
    let mut server = Server::new();
    let mut rng = Rng::new(7);
    for n in 0..rows {
        server.external_change_to(&scope(), &entity(), &format!("r{n}"), &mut rng);
    }
    (server, rng)
}

/// Puts a page on disk, cursor and all.
fn apply(storage: &mut SimStorage, page: &Batch) {
    let mut ops: Vec<StorageOp> = Vec::new();
    for c in &page.changes {
        ops.push(match c.op {
            Op::Upsert => StorageOp::UpsertRow {
                entity: c.entity.clone(),
                entity_id: c.entity_id.clone(),
                snapshot: c.snapshot.clone().expect("an upsert has a snapshot"),
                row_version: c.row_version,
                schema_version: c.schema_version,
            },
            Op::Delete => StorageOp::DeleteRow {
                entity: c.entity.clone(),
                entity_id: c.entity_id.clone(),
            },
        });
    }
    ops.push(StorageOp::SetCursor {
        scope: page.scope.clone(),
        cursor: page.next_cursor,
    });
    storage.transact(&ops).expect("commits");
}

fn cursor_of(storage: &SimStorage) -> u64 {
    storage.0.cursors.get(&scope()).map_or(0, |c| c.get())
}

/// Goes on with a bootstrap to its end, returning how many pages it took.
fn bootstrap_fully(storage: &mut SimStorage, server: &Server) -> usize {
    let mut pages = 0;
    loop {
        let page = server.bootstrap(&request(cursor_of(storage)), BUDGET, &Plain);
        apply(storage, &page);
        pages += 1;
        if !page.has_more {
            return pages;
        }
        assert!(pages < 100, "bootstrap did not terminate");
    }
}

fn holds_what_the_server_says(storage: &SimStorage, server: &Server) {
    let expected = server.rows_at(&scope(), cursor_of(storage));
    assert_eq!(
        storage.0.rows.len(),
        expected.len(),
        "the device holds a different number of rows than the server says it should"
    );
    for r in expected {
        let held = storage
            .row_version(&r.entity, &r.entity_id)
            .expect("readable");
        assert_eq!(
            held,
            Some(r.row_version),
            "row {} is at {held:?}",
            r.entity_id.as_str()
        );
    }
}

fn holds(storage: &SimStorage, id: &EntityId) -> bool {
    storage.0.rows.contains_key(&RowKey {
        entity: entity(),
        entity_id: id.clone(),
    })
}

#[test]
fn a_new_device_bootstraps_to_the_servers_state() {
    let (server, _) = server_with(12);
    let mut storage = SimStorage::new();

    let pages = bootstrap_fully(&mut storage, &server);
    assert!(
        pages > 1,
        "the whole scope fit in one page, so pagination was never exercised"
    );
    holds_what_the_server_says(&storage, &server);
}

/// Bootstrap sends each row once, not once per edit.
#[test]
fn bootstrap_sends_one_entry_per_row_not_one_per_edit() {
    let mut server = Server::new();
    let mut rng = Rng::new(3);
    // Four rows, each edited five times: twenty log entries, four rows.
    for _ in 0..5 {
        for n in 0..4 {
            server.external_change_to(&scope(), &entity(), &format!("r{n}"), &mut rng);
        }
    }

    let mut after = 0u64;
    let mut delivered = 0usize;
    loop {
        let response = server.bootstrap(&request(after), 100_000, &Plain);
        delivered += response.changes.len();
        after = response.next_cursor.get();
        if !response.has_more {
            break;
        }
    }

    assert_eq!(
        delivered, 4,
        "bootstrap delivered {delivered} entries for 4 rows — it is replaying history, not \
         compacting it"
    );
}

/// A bootstrap killed halfway resumes from its cursor and converges.
#[test]
fn a_bootstrap_killed_halfway_resumes_without_loss() {
    let (server, _) = server_with(12);
    let mut storage = SimStorage::new();

    let mut after = 0u64;
    for _ in 0..2 {
        let page = server.bootstrap(&request(after), BUDGET, &Plain);
        apply(&mut storage, &page);
        after = page.next_cursor.get();
        assert!(page.has_more, "the fixture must need more than two pages");
    }
    assert!(
        storage.0.rows.len() > 0,
        "nothing was committed before the kill"
    );

    // A process over the same storage. Whatever the database holds is the truth.
    let mut resumed = SimStorage(storage.0.clone_for_test());
    drop(storage);
    bootstrap_fully(&mut resumed, &server);
    holds_what_the_server_says(&resumed, &server);
}

/// A row updated mid-bootstrap arrives at its latest version.
#[test]
fn a_row_updated_during_bootstrap_converges_to_its_latest_version() {
    let (mut server, mut rng) = server_with(10);
    let mut storage = SimStorage::new();

    let first = server.bootstrap(&request(0), BUDGET, &Plain);
    apply(&mut storage, &first);
    assert!(first.has_more, "the fixture must need more than one page");
    let touched = first.changes[0].entity_id.clone();

    // Somebody edits a row that page one already delivered.
    server.external_change_to(&scope(), &entity(), touched.as_str(), &mut rng);

    bootstrap_fully(&mut storage, &server);
    holds_what_the_server_says(&storage, &server);
}

/// A row deleted during a bootstrap must not survive it.
#[test]
fn a_row_deleted_during_bootstrap_does_not_survive_it() {
    let (mut server, _) = server_with(10);
    let mut storage = SimStorage::new();

    let first = server.bootstrap(&request(0), BUDGET, &Plain);
    apply(&mut storage, &first);
    assert!(first.has_more, "the fixture must need more than one page");

    let doomed = first.changes[0].entity_id.clone();
    assert!(
        holds(&storage, &doomed),
        "the device should be holding the row before it is deleted"
    );

    // Deleted after page one, while the bootstrap is still running.
    server.external_delete(&scope(), &entity(), doomed.as_str());

    let mut saw_tombstone = false;
    loop {
        let page = server.bootstrap(&request(cursor_of(&storage)), BUDGET, &Plain);
        saw_tombstone |= page
            .changes
            .iter()
            .any(|c| c.entity_id == doomed && c.op == Op::Delete);
        apply(&mut storage, &page);
        if !page.has_more {
            break;
        }
    }

    assert!(
        saw_tombstone,
        "the bootstrap never carried a tombstone for {}, so the device cannot have learned of \
         the delete",
        doomed.as_str()
    );
    assert!(
        !holds(&storage, &doomed),
        "row {} was deleted during the bootstrap and the device is still holding it",
        doomed.as_str()
    );
}

/// A fresh bootstrap carries no historical tombstones.
#[test]
fn a_fresh_bootstrap_omits_historical_tombstones() {
    let (mut server, _) = server_with(6);
    server.external_delete(&scope(), &entity(), "r0");
    server.external_delete(&scope(), &entity(), "r1");

    let response = server.bootstrap(&request(0), 100_000, &Plain);
    assert!(
        response.changes.iter().all(|c| c.op != Op::Delete),
        "a fresh bootstrap carried a tombstone for a row the device never had"
    );
    assert!(
        !response.changes.is_empty(),
        "the fixture should still have live rows to send"
    );
}

/// Bootstrap is byte-budgeted, and one oversized row still goes rather than stalling.
#[test]
fn bootstrap_respects_the_compressed_byte_budget() {
    let (server, _) = server_with(20);

    let generous = server.bootstrap(&request(0), 100_000, &Plain);
    let mean = server.bootstrap(&request(0), 256, &Plain);

    assert!(
        mean.changes.len() < generous.changes.len(),
        "a smaller budget returned as much as a large one ({} vs {}), so the budget does not bind",
        mean.changes.len(),
        generous.changes.len()
    );
    assert!(
        !mean.changes.is_empty(),
        "a tight budget returned nothing at all; one change must always go or the scope stalls"
    );
    assert!(mean.has_more, "a truncated bootstrap must say so");
}

/// One change always goes, whatever the budget.
#[test]
fn a_budget_of_nothing_still_sends_one_row_at_a_time() {
    let (server, _) = server_with(3);
    let mut after = 0u64;
    for n in 1..=3u64 {
        let page = server.bootstrap(&request(after), 0, &Plain);
        assert_eq!(page.changes.len(), 1);
        assert_eq!(page.changes[0].seq.get(), n);
        assert_eq!(page.has_more, n < 3);
        after = page.next_cursor.get();
    }
}
