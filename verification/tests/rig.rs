//! The parts of the simulator, each by itself.
use credsync::cli::{flag_value, human_duration, parse_seed, summary, Totals};
use credsync::clock::{SimClock, SimEntropy};
use credsync::codec::{Codec, RowState};
use credsync::fault::Fault;
use credsync::network::{part_ripe, repeat_last_change, repeat_last_result, InFlight};
use credsync::pressure::{Load, Pressure, MIN_BUDGET_BYTES, SIM_BUDGET_BYTES};
use credsync::protocol::{
    Change, Command, CommandId, CommandName, Cursor, EntityId, EntityName, HexString, Payload,
    ProtocolVersion, PullRequest, PushRequest, ScopeCursor, ScopeId, Status,
};
use credsync::pull::Compressor;
use credsync::rng::Rng;
use credsync::server::Server;
use credsync::storage::{Db, Resolution, SimStorage, StorageOp, StorageVerdict};
use credsync::text::parse_number;
use credsync::trace::Trace;
use credsync::transport::{SimCompressor, SimTransport, TransportError, WireRequest};

struct Plain;

impl Codec for Plain {
    fn encode(&self, change: &Change) -> Option<Vec<u8>> {
        Some(change.entity_id.as_str().as_bytes().to_vec())
    }

    fn checksum(&self, changes: &Vec<Change>) -> Option<HexString> {
        Some(HexString::new(&format!("{:032x}", changes.len())))
    }

    fn digest(&self, rows: &Vec<RowState>) -> HexString {
        HexString::new(&format!("{:032x}", rows.len()))
    }

    fn payload(&self, json: &String) -> Option<HexString> {
        Some(HexString::new(&format!("{:032x}", json.len())))
    }
}

fn scope() -> ScopeId {
    ScopeId::new("inst:adl")
}

fn entity() -> EntityName {
    EntityName::new("notes")
}

fn id(n: u8) -> CommandId {
    let mut bytes = [0u8; 16];
    bytes[6] = 0x70;
    bytes[15] = n;
    CommandId::from_bytes(bytes).expect("version 7")
}

fn command(n: u8, body: &str) -> Command {
    Command {
        id: id(n),
        name: CommandName::new("submit"),
        scope: scope(),
        payload: Payload::new(body.to_owned(), &Plain),
        client_ts: 0,
        checksum: HexString::new("00"),
    }
}

#[test]
fn an_id_without_its_version_digit_is_refused() {
    assert!(CommandId::from_bytes([0u8; 16]).is_err());
    assert_eq!(id(0x2f).text(), "00000000-0000-7000-0000-00000000002f");
    assert_eq!(id(0x2f).last_byte(), 0x2f);
}

#[test]
fn a_clock_drifts_from_where_it_started() {
    let mut clock = SimClock::new(1_000_000, -500, 200);
    assert_eq!(clock.now(), 999_500);
    clock.advance_to(11_000_000);
    assert_eq!(clock.true_now_ms(), 11_000_000);
    // Ten million milliseconds at 200 parts per million are two seconds.
    assert_eq!(clock.now(), 11_001_500);
    let slow = SimClock::new(0, 0, -200);
    let mut slow = slow;
    slow.advance_to(9_999);
    // Rounded toward zero, one part short of two milliseconds.
    assert_eq!(slow.now(), 9_998);
}

#[test]
fn entropy_is_the_low_byte_of_each_word() {
    let mut buf = [0u8; 8];
    SimEntropy::new(9).fill(&mut buf);
    let mut rng = Rng::new(9);
    for b in buf {
        assert_eq!(u32::from(b), rng.next_u32() % 256);
    }
}

#[test]
fn a_compressor_rounds_up() {
    let c = SimCompressor::with_ratio(4);
    assert_eq!(c.compressed_len(&[0; 8]), 2);
    assert_eq!(c.compressed_len(&[0; 9]), 3);
    assert_eq!(SimCompressor::with_ratio(0).compressed_len(&[0; 9]), 9);
    assert_eq!(SimCompressor::default().compressed_len(&[0; 16]), 4);
}

#[test]
fn an_offline_transport_refuses() {
    let request = || {
        WireRequest::Push(PushRequest {
            protocol: ProtocolVersion::new(1).expect("not zero"),
            commands: vec![command(1, "a")],
        })
    };
    let mut t = SimTransport::new();
    assert_eq!(t.enqueue(request()), Ok(1));
    t.online = false;
    assert!(matches!(
        t.enqueue(request()),
        Err(TransportError::Unreachable { .. })
    ));
    t.online = true;
    assert_eq!(t.enqueue(request()), Ok(2));
    assert_eq!(t.drain().len(), 2);
    assert!(t.drain().is_empty());
}

#[test]
fn load_shrinks_the_budget_and_eases_off() {
    let mut p = Pressure::new();
    assert_eq!(p.budget_bytes(), SIM_BUDGET_BYTES);
    assert_eq!(p.accept_count(9), 9);
    let mut rng = Rng::new(4);
    p.overload(&mut rng);
    assert!(p.is_shedding());
    assert_eq!(p.episodes, 1);
    let expected = (SIM_BUDGET_BYTES / p.severity as usize).max(MIN_BUDGET_BYTES);
    assert_eq!(p.budget_bytes(), expected);
    let taken = p.accept_count(17);
    assert_eq!(taken, 17 / p.severity as usize);
    assert_eq!(p.deferred_commands, 17 - taken as u64);
    // At least one, so that the outbox drains.
    assert_eq!(p.accept_count(1), 1);
    assert_eq!(p.accept_count(0), 0);
    let mut steps = 0;
    while p.is_shedding() {
        p.tick();
        steps += 1;
    }
    assert!((3..=30).contains(&steps));
    assert_eq!(p.load, Load::Normal);
    assert_eq!(p.severity, 1);
}

#[test]
fn a_trace_counts_and_renders() {
    let mut t = Trace::recording();
    assert!(t.is_empty());
    t.event(1_234, 1, "enqueued");
    t.fault(60_000, 0, Fault::Dropped);
    t.fault(60_001, 2, Fault::Dropped);
    assert_eq!(t.len(), 3);
    assert_eq!(t.faults(), vec![("dropped", 2)]);
    assert_eq!(t.fault_count(Fault::Dropped), 2);
    assert!(t.render().starts_with("000000001234 d01 enqueued\n"));
    assert_eq!(t.to_bytes(), t.render().into_bytes());
    assert!(t.coverage().starts_with("dropped=2"));

    let mut silent = Trace::counting();
    silent.event(1, 0, "enqueued");
    silent.fault(1, 0, Fault::Flap);
    assert_eq!(silent.len(), 0);
    assert_eq!(silent.fault_count(Fault::Flap), 1);
}

/// A transaction commits all of its operations or none, whatever the engine is told.
#[test]
fn a_verdict_decides_one_transaction() {
    let ops = vec![
        StorageOp::EnqueueCommand {
            command: command(1, "a"),
            schema_version: credsync::protocol::SchemaVersion::new(1).expect("not zero"),
        },
        StorageOp::SetCursor {
            scope: scope(),
            cursor: Cursor { position: 4 },
        },
    ];
    let mut s = SimStorage::new();
    s.0.verdict = StorageVerdict::FailBeforeCommit;
    assert!(s.transact(&ops).is_err());
    assert!(s.0.outbox.is_empty());
    assert_eq!(s.0.commits, 0);

    s.0.verdict = StorageVerdict::CommitThenLoseAck;
    assert!(s.transact(&ops).is_err());
    assert_eq!(s.0.outbox.len(), 1);
    assert_eq!(s.0.commits, 1);

    let resolve = vec![StorageOp::ResolveCommand {
        id: id(1),
        resolution: Resolution::Superseded,
    }];
    assert_eq!(s.transact(&resolve).expect("commits").applied, 1);
    assert!(s.0.outbox.is_empty());
    assert_eq!(s.0.resolved.len(), 1);
    assert_eq!(s.0.enqueued_ids(), vec![id(1)]);
}

fn pull(server: &Server, cursor: u64, limit: usize) -> credsync::protocol::PullResponse {
    let request = PullRequest {
        protocol: Server::protocol(),
        scopes: vec![ScopeCursor {
            scope: scope(),
            cursor: Cursor { position: cursor },
        }],
        limit_bytes: None,
    };
    server.pull(&request, limit, 10_000, &Plain)
}

/// A write that has not committed hides everything after it, and nothing is skipped.
#[test]
fn an_open_write_withholds_its_successors() {
    let mut server = Server::new();
    let mut rng = Rng::new(1);
    server.external_change_to(&scope(), &entity(), "a", &mut rng);
    server.hold_next_write(2);
    server.external_change_to(&scope(), &entity(), "b", &mut rng);
    server.external_change_to(&scope(), &entity(), "c", &mut rng);
    assert_eq!(server.in_flight_writes(), 1);
    assert_eq!(server.visible_head(&scope()), 1);
    let batch = &pull(&server, 0, 10).batches[0];
    assert_eq!(batch.changes.len(), 1);
    assert_eq!(batch.next_cursor.get(), 1);

    server.set_commit_order_guard(false);
    let seqs: Vec<u64> = pull(&server, 0, 10).batches[0]
        .changes
        .iter()
        .map(|c| c.seq.get())
        .collect();
    assert_eq!(seqs, vec![1, 3]);

    server.set_commit_order_guard(true);
    server.advance_commits();
    server.advance_commits();
    assert_eq!(server.in_flight_writes(), 0);
    assert_eq!(pull(&server, 0, 10).batches[0].changes.len(), 3);
    assert_eq!(pull(&server, 1, 1).batches[0].changes.len(), 1);
    assert!(pull(&server, 1, 1).batches[0].has_more);
    assert!(pull(&server, 3, 10).batches[0].changes.is_empty());
}

/// A device that walks the log meets every committed change once, in order, whatever the page.
#[test]
fn a_walk_meets_every_change_once() {
    let mut server = Server::new();
    let mut rng = Rng::new(5);
    for n in 0..25 {
        server.external_change_to(&scope(), &entity(), &format!("r{}", n % 7), &mut rng);
        server.external_change_to(&ScopeId::new("inst:other"), &entity(), "x", &mut rng);
    }
    for limit in [1, 3, 100] {
        let mut met: Vec<u64> = Vec::new();
        let mut cursor = 0;
        loop {
            let batch = &pull(&server, cursor, limit).batches[0];
            met.extend(batch.changes.iter().map(|c| c.seq.get()));
            cursor = batch.next_cursor.get();
            if !batch.has_more {
                break;
            }
        }
        let odd: Vec<u64> = (0..25).map(|n| 2 * n + 1).collect();
        assert_eq!(met, odd);
        assert_eq!(cursor, server.visible_head(&scope()));
    }
}

fn push(server: &mut Server, rng: &mut Rng, commands: Vec<Command>) -> Vec<(u8, Status)> {
    let request = PushRequest {
        protocol: Server::protocol(),
        commands,
    };
    server
        .push(&request, rng)
        .results
        .iter()
        .map(|r| (r.id.last_byte(), r.status))
        .collect()
}

/// A command is answered once: again with the same body gives the same answer, and with another
/// is refused.
#[test]
fn answers_are_given_once() {
    let mut server = Server::new();
    server.register_command("submit", entity(), scope());
    let mut rng = Rng::new(8);
    let first = push(
        &mut server,
        &mut rng,
        (0..20).map(|n| command(n, "a")).collect(),
    );
    assert_eq!(first.len(), 20);
    let head = server.head();
    let state = rng.next_u64();
    let mut rng = Rng::new(8);
    let again = push(
        &mut server,
        &mut rng,
        (0..20).map(|n| command(n, "a")).collect(),
    );
    assert_eq!(first, again);
    assert_eq!(server.head(), head, "a replay wrote something");
    assert_eq!(server.answered_commands(), 20);
    assert_eq!(rng.next_u64(), Rng::new(8).next_u64(), "a replay drew");
    assert_ne!(state, 0);

    let reused = push(&mut server, &mut rng, vec![command(0, "something else")]);
    assert_eq!(reused, vec![(0, Status::Rejected)]);
    assert!(server.has_answered(&id(0)));
    assert!(!server.has_answered(&id(77)));
}

/// A tampered replay is refused and leaves the record: the honest command gets its answer again.
#[test]
fn a_tampered_replay_does_not_damage_the_record() {
    let mut server = Server::new();
    server.register_command("submit", entity(), scope());
    let mut rng = Rng::new(8);
    let request = |c: Command| PushRequest {
        protocol: Server::protocol(),
        commands: vec![c],
    };
    for n in 0..20 {
        let first = server.push(&request(command(n, "honest")), &mut rng).results;
        let head = server.head();
        let tampered = server
            .push(&request(command(n, "tampered with")), &mut rng)
            .results;
        assert_eq!(tampered[0].status, Status::Rejected);
        assert_eq!(
            tampered[0].reason.as_ref().map(|r| r.as_str()),
            Some("This request could not be verified. Please try again.")
        );
        let again = server.push(&request(command(n, "honest")), &mut rng).results;
        assert_eq!(first, again);
        assert_eq!(server.head(), head);
    }
}

/// A command that has been answered draws nothing, whether it comes again honestly or tampered
/// with.
#[test]
fn an_answered_command_draws_nothing() {
    let mut server = Server::new();
    server.register_command("submit", entity(), scope());
    let mut rng = Rng::new(8);
    let first = server.apply_command(&command(1, "honest"), &mut rng);
    let mut idle = Rng::new(77);
    let again = server.apply_command(&command(1, "honest"), &mut idle);
    let tampered = server.apply_command(&command(1, "tampered with"), &mut idle);
    assert_eq!(first, again);
    assert_eq!(tampered.status, Status::Rejected);
    assert_eq!(tampered.server_seq, None);
    assert_eq!(server.answered_commands(), 1);
    assert_eq!(idle.next_u64(), Rng::new(77).next_u64());
}

#[test]
fn an_unknown_command_is_rejected() {
    let mut server = Server::new();
    let mut rng = Rng::new(8);
    let answers = push(&mut server, &mut rng, vec![command(1, "a")]);
    assert_eq!(answers, vec![(1, Status::Rejected)]);
    assert_eq!(server.head(), 0);
}

/// Only the prefix that was taken is answered.
#[test]
fn a_prefix_is_answered_and_the_rest_is_silence() {
    let mut server = Server::new();
    server.register_command("submit", entity(), scope());
    let mut rng = Rng::new(8);
    let request = PushRequest {
        protocol: Server::protocol(),
        commands: (0..5).map(|n| command(n, "a")).collect(),
    };
    let response = server.push_prefix(&request, 2, &mut rng);
    assert_eq!(response.results.len(), 2);
    assert_eq!(server.answered_commands(), 2);
    assert!(!server.has_answered(&id(2)));
    assert_eq!(server.push_prefix(&request, 99, &mut rng).results.len(), 5);
}

#[test]
fn a_restart_keeps_what_is_durable() {
    let mut server = Server::new();
    let mut rng = Rng::new(1);
    server.external_change(&scope(), &entity(), &mut rng);
    assert!(server.is_warm());
    server.restart_cold();
    assert!(!server.is_warm());
    assert_eq!(server.head(), 1);
    assert_eq!(server.rows_at(&scope(), 1).len(), 1);
    assert_eq!(server.rows_at(&scope(), 0).len(), 0);
}

/// The latest version at a cursor is the last write up to it, and a delete leaves none.
#[test]
fn rows_are_as_of_a_cursor() {
    let mut server = Server::new();
    let mut rng = Rng::new(1);
    server.external_change_to(&scope(), &entity(), "a", &mut rng);
    server.external_change_to(&scope(), &entity(), "a", &mut rng);
    server.external_delete(&scope(), &entity(), "a");
    let a = EntityId::new("a");
    let at = |c: u64| {
        server
            .row_version_at(&scope(), &entity(), &a, c)
            .map(|v| v.get())
    };
    assert_eq!(at(0), None);
    assert_eq!(at(1), Some(1));
    assert_eq!(at(2), Some(2));
    assert_eq!(at(3), None);
}

#[test]
fn a_violation_of_the_protocol_repeats_the_last_entry() {
    let mut server = Server::new();
    let mut rng = Rng::new(1);
    let mut empty = pull(&server, 0, 10);
    assert!(!repeat_last_change(&mut empty));
    server.external_change_to(&scope(), &entity(), "a", &mut rng);
    let mut one = pull(&server, 0, 10);
    assert!(repeat_last_change(&mut one));
    assert_eq!(one.batches[0].changes.len(), 2);
    assert_eq!(one.batches[0].changes[0], one.batches[0].changes[1]);

    let request = PushRequest {
        protocol: Server::protocol(),
        commands: vec![command(1, "a")],
    };
    let mut answered = server.push_prefix(&request, 1, &mut rng);
    assert!(repeat_last_result(&mut answered));
    assert_eq!(answered.results.len(), 2);
    let mut silent = server.push_prefix(&request, 0, &mut rng);
    assert!(!repeat_last_result(&mut silent));
}

#[test]
fn responses_part_by_their_time_and_keep_their_order() {
    let flight = |device: usize, deliver_at_ms: i64| InFlight {
        device,
        deliver_at_ms,
        response: Err(TransportError::Malformed {
            detail: "x".to_owned(),
        }),
    };
    let (ready, waiting) = part_ripe(
        vec![flight(1, 50), flight(2, 101), flight(3, 100), flight(4, 200)],
        100,
    );
    let devices = |v: &Vec<InFlight>| v.iter().map(|f| f.device).collect::<Vec<usize>>();
    assert_eq!(devices(&ready), vec![1, 3]);
    assert_eq!(devices(&waiting), vec![2, 4]);
}

#[test]
fn numbers_are_read_as_they_are_written() {
    assert_eq!(parse_seed("17"), Some(17));
    assert_eq!(parse_seed("+17"), Some(17));
    assert_eq!(parse_seed("0x4f21a9c3"), Some(0x4f21_a9c3));
    assert_eq!(parse_seed("0xFF"), Some(255));
    assert_eq!(parse_seed("18446744073709551615"), Some(u64::MAX));
    for bad in ["", "+", "0x", "-1", "1 ", "0x1g", "18446744073709551616", "ff"] {
        assert_eq!(parse_seed(bad), None, "{bad}");
    }
    assert_eq!(parse_number(&"f".repeat(32), 16, u128::MAX), Some(u128::MAX));
    assert_eq!(parse_number(&"f".repeat(33), 16, u128::MAX), None);
}

#[test]
fn durations_are_days_or_hours() {
    let hour = 60 * 60 * 1000;
    assert_eq!(human_duration(14 * 24 * hour + 5), "14d");
    assert_eq!(human_duration(23 * hour + 59), "23h");
    assert_eq!(human_duration(0), "0h");
    assert_eq!(human_duration(-3 * hour), "-3h");
    assert_eq!(
        summary(0x2a, 3, 24 * hour, "dropped=1"),
        "seed 0x000000000000002a  devices=3  simulated=1d  dropped=1"
    );
}

/// A batch says how often each fault fired, and warns of those that never did.
#[test]
fn a_batch_warns_of_silent_faults() {
    let mut totals = Totals::new();
    let mut trace = Trace::counting();
    for f in Fault::all() {
        if f != Fault::Flap && f != Fault::SlowCommit {
            trace.fault(0, 0, f);
        }
    }
    totals.add_run(&trace, 60_000);
    totals.add_run(&trace, 60_000);
    assert_eq!(totals.simulated_ms, 120_000);
    let lines = totals.coverage_lines();
    assert_eq!(lines.len(), 13);
    assert_eq!(lines[0], format!("  {:<32} 2", "dropped"));
    assert_eq!(totals.silent(), vec!["flap", "slow-commit"]);
    assert_eq!(
        totals.warning()[1],
        "warning: 2 fault(s) never fired: flap, slow-commit"
    );
    trace.fault(0, 0, Fault::Flap);
    trace.fault(0, 0, Fault::SlowCommit);
    totals.add_run(&trace, 0);
    assert!(totals.warning().is_empty());
}

#[test]
fn a_flag_has_the_value_behind_it() {
    let args: Vec<String> = ["--a", "1", "--b"].iter().map(|s| (*s).to_owned()).collect();
    assert_eq!(flag_value(&args, "--a"), Some("1".to_owned()));
    assert_eq!(flag_value(&args, "--b"), None);
    assert_eq!(flag_value(&args, "--c"), None);
}

#[test]
fn a_copy_of_a_database_stands_by_itself() {
    let mut db = Db::new();
    db.cursors.insert(scope(), Cursor { position: 3 });
    let copy = db.clone_for_test();
    db.cursors.insert(scope(), Cursor { position: 9 });
    assert_eq!(copy.cursors.get(&scope()).map(|c| c.get()), Some(3));
}
