//! Every claim, seen to fail.
use credsync::codec::{Codec, RowState};
use credsync::invariants::{ConflictClass, Invariants, Registry, Verdict};
use credsync::protocol::{
    Change, Command, CommandId, CommandName, Cursor, EntityId, EntityName, HexString, Payload,
    Reason, RowKey, RowVersion, SchemaVersion, ScopeId, Snapshot,
};
use credsync::rng::Rng;
use credsync::server::Server;
use credsync::storage::{Db, Queued, Recovered, Resolution, Resolved, StoredRow};

fn scope() -> ScopeId {
    ScopeId::new("inst:adl:enr:2026-cohort")
}

fn entity() -> EntityName {
    EntityName::new("reflections")
}

fn command_id(n: u8) -> CommandId {
    let mut b = [0u8; 16];
    b[0] = 0x01;
    b[6] = 0x70;
    b[15] = n;
    CommandId::from_bytes(b).expect("version nibble is 7")
}

fn payload() -> Payload {
    Payload::new("{\"body\":\"x\"}".to_owned(), &Plain)
}

fn command(n: u8) -> Command {
    Command {
        id: command_id(n),
        name: CommandName::new("submit_reflection"),
        scope: scope(),
        payload: payload(),
        client_ts: 0,
        checksum: HexString::new("00000000000000000000000000000000"),
    }
}

fn schema() -> SchemaVersion {
    SchemaVersion::new(1).expect("valid schema version")
}

fn queued(n: u8) -> Queued {
    Queued {
        command: command(n),
        schema_version: schema(),
    }
}

fn applied(n: u8) -> Resolved {
    Resolved {
        id: command_id(n),
        resolution: Resolution::Applied { server_seq: None },
    }
}

fn at(position: u64) -> Cursor {
    Cursor { position }
}

fn wrap(db: Db) -> Vec<Db> {
    vec![db]
}

fn row() -> StoredRow {
    StoredRow {
        snapshot: Snapshot::new("{\"v\":1}"),
        row_version: RowVersion::new(1).expect("valid row version"),
        schema_version: schema(),
    }
}

/// A cursor that moves backwards is caught.
#[test]
fn a_cursor_moving_backwards_is_caught() {
    let mut inv = Invariants::new();
    let mut db = Db::new();

    db.cursors.insert(scope(), at(90));
    let mut dbs = wrap(db);
    inv.check_step(1, &dbs, &scope());
    assert!(inv.holds(), "a fresh cursor is not a violation");

    dbs[0].cursors.insert(scope(), at(40));
    inv.check_step(2, &dbs, &scope());

    assert!(
        !inv.holds(),
        "a cursor regressing from 90 to 40 was not caught"
    );
    assert_eq!(inv.violations()[0].invariant, "cursor-monotonicity");
    assert!(inv.violations()[0].detail.contains("90 -> 40"));
}

#[test]
fn a_cursor_moving_forwards_is_not_a_violation() {
    let mut inv = Invariants::new();
    let mut db = Db::new();
    db.cursors.insert(scope(), at(10));
    let mut dbs = wrap(db);

    for c in [10u64, 11, 50, 900] {
        dbs[0].cursors.insert(scope(), at(c));
        inv.check_step(c as i64, &dbs, &scope());
    }
    assert!(
        inv.holds(),
        "monotonic advance must be silent: {:?}",
        inv.violations()
    );
}

/// Each claim is checked of one device on its own, and the memory of one is not another's.
#[test]
fn the_claims_are_checked_device_by_device() {
    let mut inv = Invariants::new();
    let mut full = Db::new();
    full.outbox.push(queued(1));
    full.resolved.push(applied(2));
    let empty = Db::new();

    inv.check_no_loss(1, 3, &full);
    inv.check_durability_and_idempotency(1, 3, &full);
    inv.check_no_loss(2, 0, &empty);
    inv.check_durability_and_idempotency(2, 0, &empty);
    assert!(inv.holds(), "{:?}", inv.violations());

    inv.check_no_loss(3, 3, &empty);
    inv.check_durability_and_idempotency(3, 3, &empty);
    let found: Vec<(&str, Option<usize>, String)> = inv
        .violations()
        .iter()
        .map(|v| (v.invariant, v.device, v.detail.clone()))
        .collect();
    assert_eq!(
        found,
        vec![
            (
                "no-loss",
                Some(3),
                format!(
                    "command {} left the outbox with no recorded outcome — silently lost",
                    command_id(1).text()
                ),
            ),
            (
                "durability",
                Some(3),
                format!(
                    "command {} was resolved and is no longer recorded",
                    command_id(2).text()
                ),
            ),
        ]
    );
    // What was lost has been said, and is not said again.
    inv.check_no_loss(4, 3, &empty);
    inv.check_durability_and_idempotency(4, 3, &empty);
    assert_eq!(inv.violations().len(), 2);

    let mut away = Db::new();
    away.cursors.insert(scope(), at(7));
    inv.check_cursor_monotonic(5, 1, &away, &scope());
    inv.check_cursor_monotonic(6, 1, &empty, &scope());
    assert_eq!(inv.violations().len(), 3);
    assert_eq!(inv.violations()[2].detail, "cursor reached 7 and then vanished from storage");
}

/// A command that leaves the outbox with no recorded outcome is caught.
#[test]
fn a_silently_vanished_command_is_caught() {
    let mut inv = Invariants::new();
    let mut db = Db::new();
    db.outbox.push(queued(1));
    let mut dbs = wrap(db);

    inv.check_step(1, &dbs, &scope());
    assert!(inv.holds());

    // Gone from the outbox, and nowhere in the resolved log.
    dbs[0].outbox.clear();
    inv.check_step(2, &dbs, &scope());

    assert!(!inv.holds(), "a command vanished and nothing noticed");
    assert_eq!(inv.violations()[0].invariant, "no-loss");
    assert!(inv.violations()[0].detail.contains("silently lost"));

    // One report for the loss, not one for each step after it.
    inv.check_step(3, &dbs, &scope());
    assert_eq!(inv.violations().len(), 1);
}

/// Leaving the outbox into a recorded outcome is exactly what should happen.
#[test]
fn a_command_resolved_out_of_the_outbox_is_not_a_loss() {
    let mut inv = Invariants::new();
    let mut db = Db::new();
    db.outbox.push(queued(1));
    let mut dbs = wrap(db);
    inv.check_step(1, &dbs, &scope());

    dbs[0].outbox.clear();
    dbs[0].resolved.push(applied(1));
    inv.check_step(2, &dbs, &scope());

    assert!(
        inv.holds(),
        "a properly resolved command was reported as lost: {:?}",
        inv.violations()
    );
}

/// A command in both places at once is caught.
#[test]
fn a_command_both_queued_and_resolved_is_caught() {
    let mut inv = Invariants::new();
    let mut db = Db::new();
    db.outbox.push(queued(1));
    db.resolved.push(applied(1));

    inv.check_step(1, &wrap(db), &scope());

    assert!(!inv.holds());
    assert_eq!(inv.violations()[0].invariant, "no-loss");
    assert!(inv.violations()[0]
        .detail
        .contains("both queued and resolved"));
}

/// A resolution that disappears is caught.
#[test]
fn a_resolution_that_disappears_is_caught() {
    let mut inv = Invariants::new();
    let mut db = Db::new();
    db.resolved.push(applied(1));
    let mut dbs = wrap(db);

    inv.check_step(1, &dbs, &scope());
    assert!(inv.holds());

    dbs[0].resolved.clear();
    inv.check_step(2, &dbs, &scope());

    assert!(
        !inv.holds(),
        "a recorded outcome vanished and nothing noticed"
    );
    assert_eq!(inv.violations()[0].invariant, "durability");
}

/// A verdict that changes between steps is caught.
#[test]
fn a_verdict_changing_across_steps_is_caught() {
    let mut inv = Invariants::new();
    let mut db = Db::new();
    db.resolved.push(applied(1));
    let mut dbs = wrap(db);
    inv.check_step(1, &dbs, &scope());

    dbs[0].resolved = vec![Resolved {
        id: command_id(1),
        resolution: Resolution::DeadLettered {
            reason: Reason::new("changed its mind"),
        },
    }];
    inv.check_step(2, &dbs, &scope());

    assert!(!inv.holds(), "a verdict changed and nothing noticed");
    assert_eq!(inv.violations()[0].invariant, "idempotency");
    assert!(inv.violations()[0].detail.contains("applied"));
}

/// The same command recorded twice with different verdicts is caught.
#[test]
fn one_command_recorded_twice_with_different_verdicts_is_caught() {
    let mut inv = Invariants::new();
    let mut db = Db::new();
    db.resolved.push(applied(1));
    db.resolved.push(Resolved {
        id: command_id(1),
        resolution: Resolution::Superseded,
    });

    inv.check_step(1, &wrap(db), &scope());

    assert!(!inv.holds());
    assert_eq!(inv.violations()[0].invariant, "idempotency");
    assert!(inv.violations()[0].detail.contains("twice"));
}

/// A stable verdict repeated across many steps is silent.
#[test]
fn a_stable_verdict_is_not_a_violation() {
    let mut inv = Invariants::new();
    let mut db = Db::new();
    db.resolved.push(applied(1));
    db.rows.insert(
        RowKey {
            entity: entity(),
            entity_id: EntityId::new("r:1"),
        },
        row(),
    );
    let dbs = wrap(db);

    for step in 0..50 {
        inv.check_step(step, &dbs, &scope());
    }
    assert!(
        inv.holds(),
        "a stable state produced violations: {:?}",
        inv.violations()
    );
}

/// A codec whose digest is the list of the rows, in hexadecimal.
struct Plain;

impl Codec for Plain {
    fn encode(&self, change: &Change) -> Option<Vec<u8>> {
        Some(change.entity_id.as_str().as_bytes().to_vec())
    }

    fn checksum(&self, changes: &Vec<Change>) -> Option<HexString> {
        Some(HexString::new(&format!("{:032x}", changes.len())))
    }

    fn digest(&self, rows: &Vec<RowState>) -> HexString {
        let sum: u64 = rows.iter().map(|r| r.row_version.get()).sum();
        HexString::new(&format!("{sum:032x}"))
    }

    fn payload(&self, json: &String) -> Option<HexString> {
        Some(HexString::new(&format!("{:032x}", json.len())))
    }
}

fn server_with(rows: usize) -> Server {
    let mut server = Server::new();
    let mut rng = Rng::new(7);
    for n in 0..rows {
        server.external_change_to(&scope(), &entity(), &format!("r{n}"), &mut rng);
    }
    server
}

fn caught_up(server: &Server) -> Db {
    let mut db = Db::new();
    db.cursors.insert(scope(), at(server.head()));
    db.digests.insert(scope(), server.digest(&scope(), &Plain));
    for r in server.rows_at(&scope(), server.head()) {
        db.rows.insert(
            RowKey {
                entity: r.entity,
                entity_id: r.entity_id,
            },
            StoredRow {
                snapshot: Snapshot::new("{}"),
                row_version: r.row_version,
                schema_version: schema(),
            },
        );
    }
    db
}

/// A device that has caught up and agrees is silent; one that lags, disagrees or has nothing is
/// not.
#[test]
fn convergence_is_agreement_at_the_head() {
    let server = server_with(3);
    let mut inv = Invariants::new();
    inv.check_convergence(1, &wrap(caught_up(&server)), &server, &scope(), &Plain);
    assert!(inv.holds(), "{:?}", inv.violations());

    let mut lagging = caught_up(&server);
    lagging.cursors.insert(scope(), at(1));
    inv.check_convergence(2, &wrap(lagging), &server, &scope(), &Plain);
    assert_eq!(inv.violations().len(), 1);
    assert_eq!(inv.violations()[0].invariant, "convergence");

    let mut wrong = caught_up(&server);
    wrong.digests.insert(scope(), HexString::new("ff"));
    inv.check_convergence(3, &wrap(wrong), &server, &scope(), &Plain);
    assert_eq!(inv.violations().len(), 2);

    inv.check_convergence(4, &wrap(Db::new()), &server, &scope(), &Plain);
    assert_eq!(inv.violations().len(), 3);
    assert_eq!(inv.violations()[2].device, Some(0));
    assert_eq!(inv.violations()[2].at_ms, 4);
}

/// A row that the cursor implies has to be there, at the version the cursor implies.
#[test]
fn a_missing_or_stale_row_is_caught() {
    let server = server_with(2);
    let mut inv = Invariants::new();
    let healthy = caught_up(&server);
    inv.check_durable_effects(1, &wrap(healthy), &server, &scope());
    assert!(inv.holds(), "{:?}", inv.violations());

    let key = RowKey {
        entity: entity(),
        entity_id: EntityId::new("r1"),
    };
    let mut missing = caught_up(&server);
    missing.rows.remove(&key);
    inv.check_durable_effects(2, &wrap(missing), &server, &scope());
    assert_eq!(inv.violations().len(), 1);
    assert_eq!(inv.violations()[0].invariant, "durable-effects");

    let mut stale = caught_up(&server);
    stale.rows.insert(key, row());
    inv.check_durable_effects(3, &wrap(stale), &server, &scope());
    assert_eq!(inv.violations().len(), 2);
}

#[test]
fn a_cursor_ahead_of_the_log_is_caught() {
    let server = server_with(2);
    let mut db = Db::new();
    db.cursors.insert(scope(), at(2));
    let mut dbs = wrap(db);
    let mut inv = Invariants::new();
    inv.check_cursor_bounds(1, &dbs, &server, &scope());
    assert!(inv.holds());

    dbs[0].cursors.insert(scope(), at(3));
    inv.check_cursor_bounds(2, &dbs, &server, &scope());
    assert_eq!(
        inv.violations()[0].message(),
        "[cursor-bounds] device 0 at 2ms: cursor 3 is ahead of the server's log head 2"
    );
}

/// Only owner drafts are recovered, and a superseded command leaves one.
#[test]
fn recoveries_follow_the_declared_class() {
    let mut registry = Registry::new();
    registry.register_entity(entity(), ConflictClass::OwnerDraft);
    registry.register_entity(
        EntityName::new("grades"),
        ConflictClass::Other {
            name: "server-wins".to_owned(),
        },
    );
    let mut inv = Invariants::new();
    let mut db = Db::new();
    db.resolved.push(Resolved {
        id: command_id(1),
        resolution: Resolution::Superseded,
    });
    db.recovered.push(Recovered {
        command_id: command_id(1),
        entity: entity(),
        payload: payload(),
    });
    let mut dbs = wrap(db);
    inv.check_policy(1, &dbs, &registry);
    assert!(inv.holds(), "{:?}", inv.violations());

    dbs[0].recovered[0].entity = EntityName::new("grades");
    inv.check_policy(2, &dbs, &registry);
    assert_eq!(inv.violations().len(), 1);
    assert_eq!(inv.violations()[0].invariant, "policy-conformance");

    dbs[0].recovered.clear();
    inv.check_policy(3, &dbs, &registry);
    assert_eq!(inv.violations().len(), 2);
    assert!(inv.violations()[1].detail.contains("superseded"));
}

#[test]
fn a_resolution_has_a_verdict_and_a_name() {
    assert_eq!(
        Verdict::of(&Resolution::Applied { server_seq: None }).name(),
        "applied"
    );
    assert_eq!(Verdict::of(&Resolution::Superseded).name(), "superseded");
    let refused = Resolution::DeadLettered {
        reason: Reason::new("no"),
    };
    assert_eq!(Verdict::of(&refused).name(), "dead-lettered");
}
