//! Whole runs: a small client on each device, driven through simulated time.
//!
//! The client keeps nothing in memory. Whatever its database holds is the truth, so a restart
//! asks nothing of it.
use credsync::cli::{read_args, report, Invocation, Totals, STEPS_PER_RUN};
use credsync::codec::{Codec, RowState};
use credsync::drive::{drive, next_in_batch, BatchStep, RunAction, RunState};
use credsync::fault::{Fault, FaultRates};
use credsync::protocol::{
    Batch, Change, Command, CommandId, Cursor, HexString, Op, PushRequest, PushResponse, RowKey,
    ScopeId, Status,
};
use credsync::storage::{Db, Queued, Resolution, SimStorage, StorageError, StorageOp};
use credsync::trace::Trace;
use credsync::turn::{command_id, digest_from_hex, Action, Applied, Event, Standing};
use credsync::world::{World, SETTLE_STEPS};
use std::collections::BTreeSet;

fn mixed(seed: u64, bytes: &[u8]) -> u64 {
    let mut h = seed ^ 0xcbf2_9ce4_8422_2325;
    for b in bytes {
        h = (h ^ u64::from(*b)).wrapping_mul(0x0000_0100_0000_01b3);
    }
    h
}

struct Plain;

impl Codec for Plain {
    fn encode(&self, change: &Change) -> Option<Vec<u8>> {
        Some(
            format!(
                "{} {} {} {:?} {} {}",
                change.seq.get(),
                change.entity.as_str(),
                change.entity_id.as_str(),
                change.op,
                change.row_version.get(),
                change.snapshot.as_ref().map_or("", |s| s.as_str()),
            )
            .into_bytes(),
        )
    }

    fn checksum(&self, changes: &Vec<Change>) -> Option<HexString> {
        let mut h = 0;
        for c in changes {
            h = mixed(h, &self.encode(c)?);
        }
        Some(HexString::new(&format!("{h:032x}")))
    }

    fn digest(&self, rows: &Vec<RowState>) -> HexString {
        let mut h = 0;
        for r in rows {
            h = mixed(h, r.entity.as_str().as_bytes());
            h = mixed(h, r.entity_id.as_str().as_bytes());
            h = mixed(h, &r.row_version.get().to_be_bytes());
        }
        HexString::new(&format!("{h:032x}"))
    }

    fn payload(&self, json: &String) -> Option<HexString> {
        Some(HexString::new(&format!("{:032x}", mixed(7, json.as_bytes()))))
    }
}

fn transact(db: &mut Db, ops: &Vec<StorageOp>) -> bool {
    let mut storage = SimStorage(std::mem::replace(db, Db::new()));
    let outcome = storage.transact(ops);
    *db = storage.0;
    match outcome {
        Ok(tx) => {
            assert_eq!(tx.applied, ops.len());
            true
        }
        Err(StorageError::Transient { .. }) => false,
    }
}

fn rows_of(db: &Db) -> Vec<RowState> {
    let mut rows = Vec::new();
    for i in 0..db.rows.len() {
        let key: &RowKey = db.rows.key_at(i);
        rows.push(RowState {
            entity: key.entity.clone(),
            entity_id: key.entity_id.clone(),
            row_version: db.rows.value_at(i).row_version,
        });
    }
    rows
}

fn cursor_of(db: &Db, scope: &ScopeId) -> u64 {
    db.cursors.get(scope).map_or(0, |c| c.get())
}

/// Applies a batch in one transaction, if it starts after the cursor and is in order.
fn apply_batch(db: &mut Db, batch: &Batch) -> Applied {
    let mut last = cursor_of(db, &batch.scope);
    if batch.next_cursor.get() < last {
        return Applied::Refused;
    }
    let mut ops: Vec<StorageOp> = Vec::new();
    for c in &batch.changes {
        if c.seq.get() <= last {
            return Applied::Refused;
        }
        last = c.seq.get();
        ops.push(match c.op {
            Op::Upsert => StorageOp::UpsertRow {
                entity: c.entity.clone(),
                entity_id: c.entity_id.clone(),
                snapshot: c.snapshot.clone().expect("an upsert has a snapshot"),
                row_version: c.row_version,
                schema_version: c.schema_version,
            },
            Op::Delete => StorageOp::DeleteRow {
                entity: c.entity.clone(),
                entity_id: c.entity_id.clone(),
            },
        });
    }
    ops.push(StorageOp::SetCursor {
        scope: batch.scope.clone(),
        cursor: batch.next_cursor,
    });
    let after = rows_of(&db.staged(&ops));
    let digest = Plain.digest(&after);
    let diverged = !batch.has_more && digest.as_str() != batch.digest.as_str();
    ops.push(StorageOp::SetScopeDigest {
        scope: batch.scope.clone(),
        digest,
    });
    if !transact(db, &ops) {
        Applied::Refused
    } else if diverged {
        Applied::Diverged
    } else {
        Applied::Clean
    }
}

fn queued_command(db: &Db, id: CommandId) -> Option<Command> {
    db.outbox
        .iter()
        .find(|q| q.command.id == id)
        .map(|q| q.command.clone())
}

/// Settles each command that is still queued and was answered once.
fn apply_results(db: &mut Db, world_entity: &str, response: &PushResponse) -> bool {
    let mut seen: BTreeSet<CommandId> = BTreeSet::new();
    let mut ops: Vec<StorageOp> = Vec::new();
    for r in &response.results {
        if !seen.insert(r.id) {
            return false;
        }
        let Some(command) = queued_command(db, r.id) else {
            continue;
        };
        let resolution = match r.status {
            Status::Applied => Resolution::Applied {
                server_seq: r.server_seq,
            },
            Status::Superseded => Resolution::Superseded,
            Status::Rejected => Resolution::DeadLettered {
                reason: r.reason.clone().expect("a rejection has a reason"),
            },
        };
        if resolution == Resolution::Superseded {
            ops.push(StorageOp::SaveRecoveredDraft {
                entity: credsync::protocol::EntityName::new(world_entity),
                command_id: r.id,
                payload: command.payload,
            });
        }
        ops.push(StorageOp::ResolveCommand {
            id: r.id,
            resolution,
        });
    }
    transact(db, &ops)
}

/// Does what the world asks, and says what came of it.
fn perform(world: &mut World, action: Action) -> Option<Event> {
    match action {
        Action::Rest => None,
        Action::Restart {
            device,
            restored,
            outbox,
        } => {
            let db = &world.databases[device];
            assert_eq!(outbox.len(), db.outbox.len());
            let stands = db.cursors.get(&world.scope).copied();
            assert_eq!(restored.map(|r| r.cursor), stands);
            if let Some(hex) = db.digests.get(&world.scope) {
                let digest = restored.expect("a digest comes with a cursor").digest;
                assert_eq!(digest, digest_from_hex(hex));
                assert_eq!(format!("{:032x}", digest.expect("hexadecimal")), hex.as_str());
            }
            Some(Event::Restarted)
        }
        Action::Enqueue { device, entry } => {
            let ops = vec![StorageOp::EnqueueCommand {
                command: entry.command,
                schema_version: entry.schema_version,
            }];
            let taken = transact(&mut world.databases[device], &ops);
            Some(Event::Enqueued { taken })
        }
        Action::BuildPush {
            device, protocol, ..
        } => {
            let commands: Vec<Command> = world.databases[device]
                .outbox
                .iter()
                .map(|q: &Queued| q.command.clone())
                .collect();
            Some(Event::PushBuilt {
                request: Some(PushRequest { protocol, commands }),
            })
        }
        Action::FindStanding { device } => {
            let standing = match world.databases[device].cursors.get(&world.scope) {
                Some(c) => Standing::At { cursor: *c },
                None => Standing::Unknown,
            };
            Some(Event::Stands { standing })
        }
        Action::ApplyBatch { device, batch } => Some(Event::BatchApplied {
            outcome: apply_batch(&mut world.databases[device], &batch),
        }),
        Action::ApplyResults { device, response } => {
            let entity = world.entity.as_str().to_owned();
            Some(Event::ResultsApplied {
                taken: apply_results(&mut world.databases[device], &entity, &response),
            })
        }
    }
}

fn step(world: &mut World) {
    let mut event = Event::Begin;
    loop {
        let action = world.advance(event, &Plain);
        match perform(world, action) {
            Some(next) => event = next,
            None => return,
        }
    }
}

/// Does what is left of a run, and says in what order things were done.
fn go_on(world: &mut World, mut state: RunState) -> Vec<RunAction> {
    let mut done = Vec::new();
    let mut hostile = None;
    loop {
        let (action, next) = drive(state);
        match action {
            RunAction::Step => step(world),
            RunAction::Quiet => hostile = Some(world.begin_settling()),
            RunAction::Judge => {
                assert_eq!(world.server().in_flight_writes(), 0, "writes uncommitted");
                world.end_settling(hostile.take().expect("quiet before"), &Plain);
            }
            RunAction::Stop => return done,
        }
        done.push(action);
        state = next;
    }
}

fn settle(world: &mut World) {
    go_on(world, RunState::settling());
}

fn run(world: &mut World, steps: u32) {
    go_on(world, RunState::start(steps));
}

fn ran(seed: u64, rates: FaultRates, trace: Trace, steps: u32) -> World {
    let mut world = World::new(seed, rates, trace);
    run(&mut world, steps);
    world
}

/// Runs a seed and returns its trace bytes.
fn trace_of(seed: u64) -> Vec<u8> {
    ran(seed, FaultRates::default(), Trace::recording(), 2_000)
        .trace
        .to_bytes()
}

#[test]
fn the_same_seed_produces_a_byte_identical_trace() {
    let a = trace_of(0x4f21_a9c3);
    let b = trace_of(0x4f21_a9c3);

    assert_eq!(
        a.len(),
        b.len(),
        "two runs of one seed produced traces of different lengths"
    );
    assert!(a == b, "two runs of one seed diverged");
    assert!(!a.is_empty(), "the trace recorded nothing at all");
}

/// Determinism must survive many seeds, not just a lucky one.
#[test]
fn every_seed_in_a_small_batch_is_reproducible() {
    for seed in 0..12 {
        assert_eq!(
            trace_of(seed),
            trace_of(seed),
            "seed {seed} did not reproduce"
        );
    }
}

/// Different seeds must actually explore different runs.
#[test]
fn different_seeds_produce_different_traces() {
    let a = trace_of(1);
    let b = trace_of(2);
    assert_ne!(a, b, "two different seeds produced identical runs");
}

/// A seed replays into the same world state, not merely the same trace text.
#[test]
fn a_replayed_seed_lands_in_the_same_state() {
    let state = |seed: u64| {
        let world = ran(seed, FaultRates::default(), Trace::counting(), 2_000);
        let rows: Vec<usize> = world.databases().iter().map(|db| db.rows.len()).collect();
        let outboxes: Vec<usize> = world.databases().iter().map(|db| db.outbox.len()).collect();
        let resolved: Vec<usize> = world
            .databases()
            .iter()
            .map(|db| db.resolved.len())
            .collect();
        (rows, outboxes, resolved, world.server().head())
    };

    assert_eq!(state(0x4f21_a9c3), state(0x4f21_a9c3));
}

/// Every fault of the menu occurs in a small batch.
#[test]
fn every_fault_in_the_menu_fires() {
    let mut totals = Totals::new();
    for seed in 0..8 {
        let world = ran(seed, FaultRates::default(), Trace::counting(), 2_000);
        totals.add_run(&world.trace, world.elapsed_ms());
    }
    for fault in Fault::all() {
        let n = totals.counts[fault.place()];
        assert!(
            n > 0,
            "fault '{}' never fired across eight seeds — it is in the menu but not in the rig",
            fault.name()
        );
    }
    assert!(totals.silent().is_empty());
    assert_eq!(totals.simulated_ms, 8 * 2_600 * 60_000);
}

/// A world with the faults turned off produces none.
#[test]
fn a_quiet_world_records_no_faults() {
    let world = ran(7, FaultRates::none(), Trace::counting(), 500);
    assert!(
        world.trace.faults().is_empty(),
        "faults fired in a world configured to have none: {:?}",
        world.trace.faults()
    );
}

/// A run takes its steps, then settles, then is judged, and covers the time of all of them.
#[test]
fn a_run_settles_and_is_judged_once() {
    let mut world = World::new(9, FaultRates::default(), Trace::counting());
    let done = go_on(&mut world, RunState::start(25));
    let steps = |n: usize| vec![RunAction::Step; n];
    let mut expected = steps(25);
    expected.push(RunAction::Quiet);
    expected.extend(steps(SETTLE_STEPS as usize));
    expected.push(RunAction::Judge);
    assert_eq!(done, expected);
    assert_eq!(world.elapsed_ms(), (25 + 600) * 60_000);
    assert_eq!(drive(RunState::Over), (RunAction::Stop, RunState::Over));
}

/// A batch stops at the first seed that breaks a claim, and is green when none does.
#[test]
fn a_batch_stops_at_its_first_failure() {
    let outcome = |seeds: u64, bad: &[u64]| {
        let mut tried = Vec::new();
        let mut held = true;
        loop {
            match next_in_batch(seeds, tried.len() as u64, held) {
                BatchStep::Run { seed } => {
                    tried.push(seed);
                    held = !bad.contains(&seed);
                }
                end => return (tried, end),
            }
        }
    };
    assert_eq!(outcome(3, &[]), (vec![0, 1, 2], BatchStep::Green));
    assert_eq!(outcome(5, &[2, 4]), (vec![0, 1, 2], BatchStep::Failed { seed: 2 }));
    assert_eq!(outcome(1, &[0]), (vec![0], BatchStep::Failed { seed: 0 }));
    assert_eq!(outcome(0, &[0]), (vec![], BatchStep::Green));
}

/// A run covers weeks of device life.
#[test]
fn a_run_covers_weeks_of_device_life_in_moments() {
    let started = std::time::Instant::now();
    let world = ran(3, FaultRates::default(), Trace::counting(), STEPS_PER_RUN);
    let wall = started.elapsed();

    let days = world.elapsed_ms() / (24 * 60 * 60 * 1000);
    assert!(
        days >= 14,
        "a run should cover at least a fortnight, covered {days} days"
    );
    assert!(
        wall.as_secs() < 120,
        "one seed took {wall:?}; a 1,000-seed batch would be untenable"
    );
}

/// Devices really do disagree about the time, and by days.
#[test]
fn devices_disagree_about_what_time_it_is() {
    let mut worst_skew_ms: i64 = 0;
    let mut saw_disagreement_between_devices = false;

    for seed in 0..16 {
        let world = ran(seed, FaultRates::default(), Trace::counting(), 200);

        let (true_now, apparent) = world.apparent_times_ms();
        for a in &apparent {
            worst_skew_ms = worst_skew_ms.max((a - true_now).abs());
        }
        if apparent.windows(2).any(|w| w[0] != w[1]) {
            saw_disagreement_between_devices = true;
        }
    }

    assert!(
        saw_disagreement_between_devices,
        "every device agreed with every other on the time; the clocks are not lying"
    );

    // A full day of skew somewhere across sixteen seeds. The menu allows three.
    let a_day_ms = 24 * 60 * 60 * 1000;
    assert!(
        worst_skew_ms > a_day_ms,
        "worst clock skew was {worst_skew_ms}ms, under a day"
    );
}

/// A hostile run converges: every device ends up holding what the server holds.
#[test]
fn a_hostile_run_converges() {
    for seed in 0..6 {
        let world = ran(seed, FaultRates::default(), Trace::counting(), 1_500);
        assert!(
            world.invariants.holds(),
            "seed {seed} violated an invariant: {:?}",
            world.invariants.violations()
        );
    }
}

/// A quiet run converges too.
#[test]
fn a_quiet_run_converges() {
    let world = ran(3, FaultRates::none(), Trace::counting(), 1_500);
    assert!(
        world.invariants.holds(),
        "a world with no faults at all violated an invariant: {:?}",
        world.invariants.violations()
    );
}

/// Devices agree with each other, not merely with the server.
#[test]
fn devices_end_up_holding_the_same_rows() {
    let world = ran(11, FaultRates::default(), Trace::counting(), 1_500);

    let digests: Vec<Option<String>> = world
        .databases()
        .iter()
        .map(|db| {
            db.digests
                .get(world.scope())
                .map(|h| h.as_str().to_owned())
        })
        .collect();

    assert!(
        digests.windows(2).all(|w| w[0] == w[1]),
        "devices disagreed with each other: {digests:?}"
    );
    assert!(
        digests[0].is_some(),
        "no device recorded a digest at all — the run did nothing"
    );

    let rows: Vec<usize> = world.databases().iter().map(|db| db.rows.len()).collect();
    assert!(
        rows[0] > 0,
        "no rows were ever applied; the run proves nothing"
    );
}

/// Seeds enough to be confident an episode fires without making the suite slow.
const SEEDS: u64 = 12;
const STEPS: u32 = 1_500;

/// Rates that guarantee load happens, for tests that need it to.
fn loaded() -> FaultRates {
    FaultRates {
        overload: 2,
        ..FaultRates::default()
    }
}

fn run_loaded(seed: u64, rates: FaultRates) -> World {
    ran(seed, rates, Trace::counting(), STEPS)
}

/// Shedding fires, and defers real work when it does.
#[test]
fn the_overload_fault_actually_sheds_load() {
    let mut episodes = 0u64;
    let mut deferred = 0u64;

    for seed in 0..SEEDS {
        let world = run_loaded(seed, loaded());
        episodes += world.pressure.episodes;
        deferred += world.pressure.deferred_commands;
    }

    assert!(
        episodes > 0,
        "the overload fault never fired across {SEEDS} seeds"
    );
    assert!(
        deferred > 0,
        "load was applied {episodes} time(s) but no command was ever deferred, so the shedding \
         path never ran"
    );
}

/// Every command the server answered is one it actually processed.
#[test]
fn a_shedding_server_never_answers_a_command_it_did_not_process() {
    for seed in 0..SEEDS {
        let world = run_loaded(seed, loaded());

        let answered = world.server_answered_commands();
        let enqueued = world.commands_ever_enqueued();

        assert!(
            answered <= enqueued,
            "seed {seed:#x}: the server recorded {answered} answers for {enqueued} commands — it \
             invented a verdict for work it never saw"
        );
        assert!(enqueued > 0);
    }
}

/// Nothing acknowledged is lost, and nothing unanswered is abandoned.
#[test]
fn shedding_never_loses_an_enqueued_command() {
    for seed in 0..SEEDS {
        let world = run_loaded(seed, loaded());

        for (i, db) in world.databases().iter().enumerate() {
            let resolved: BTreeSet<_> = db.resolved.iter().map(|r| r.id).collect();
            let queued: BTreeSet<_> = db.outbox.iter().map(|q| q.command.id).collect();

            for id in db.enqueued_ids() {
                assert!(
                    resolved.contains(&id) || queued.contains(&id),
                    "seed {seed:#x}, device {i}: command {} left the outbox with no recorded \
                     outcome — the user's write is gone",
                    id.text()
                );
            }
        }
    }
}

/// A command the server declined to look at stays in the outbox.
#[test]
fn deferred_commands_stay_queued_rather_than_resolving() {
    for seed in 0..SEEDS {
        let world = run_loaded(seed, loaded());

        for (i, db) in world.databases().iter().enumerate() {
            for r in &db.resolved {
                assert!(
                    world.server_has_answered(&r.id),
                    "seed {seed:#x}, device {i}: command {} is resolved on the device and the \
                     server has no record of it",
                    r.id.text()
                );
            }
        }
    }
}

/// The world still converges with load applied across the full fault menu.
#[test]
fn the_world_converges_under_load_and_the_full_fault_menu() {
    for seed in 0..SEEDS {
        let world = run_loaded(seed, loaded());
        assert!(
            world.invariants.holds(),
            "seed {seed:#x}: {:?}",
            world.invariants.violations()
        );
    }
}

/// A server restarting mid-cycle is survivable, not a failure.
#[test]
fn a_server_restart_mid_cycle_is_survivable() {
    let rates = FaultRates {
        server_restart: 2,
        overload: 3,
        ..FaultRates::default()
    };

    for seed in 0..SEEDS {
        let world = run_loaded(seed, rates);
        assert!(
            world.invariants.holds(),
            "seed {seed:#x}: a server restart broke an invariant: {:?}",
            world.invariants.violations()
        );
    }
}

/// Load episodes come from the seed, not from a clock.
#[test]
fn load_episodes_replay_identically() {
    for seed in 0..4 {
        let a = ran(seed, loaded(), Trace::recording(), STEPS);
        let b = ran(seed, loaded(), Trace::recording(), STEPS);

        assert_eq!(
            a.trace.render(),
            b.trace.render(),
            "seed {seed:#x}: two runs of one seed produced different traces"
        );
        assert_eq!(
            a.pressure.episodes, b.pressure.episodes,
            "seed {seed:#x}: episode counts differ"
        );
        assert_eq!(
            a.pressure.deferred_commands, b.pressure.deferred_commands,
            "seed {seed:#x}: deferred counts differ"
        );
    }
}

/// With the guard on, a hostile run converges.
#[test]
fn the_guard_keeps_a_run_green_under_slow_commits() {
    for seed in 0..6 {
        let world = ran(seed, FaultRates::default(), Trace::counting(), 1_200);
        assert!(
            world.invariants.holds(),
            "seed {seed} failed with the commit-order guard on: {:?}",
            world.invariants.violations()
        );
    }
}

/// Slow commits actually happen, or the test above proves nothing.
#[test]
fn slow_commits_really_occur() {
    let world = ran(3, FaultRates::default(), Trace::counting(), 1_200);
    let n = world
        .trace
        .faults()
        .iter()
        .find(|(name, _)| *name == "slow-commit")
        .map_or(0, |(_, n)| *n);
    assert!(
        n > 0,
        "no write was ever held open, so the guard was never exercised"
    );
    assert_eq!(n, world.trace.fault_count(Fault::SlowCommit));
}

/// Without the guard, the invariants catch the loss.
#[test]
fn without_the_guard_the_invariants_catch_the_lost_change() {
    let mut caught = 0;
    let mut checked = 0;

    for seed in 0..8 {
        let mut world = World::new(seed, FaultRates::default(), Trace::recording());
        world.disable_commit_order_guard();
        run(&mut world, 1_200);
        checked += 1;
        if !world.invariants.holds() {
            caught += 1;
        }
    }

    assert!(
        caught > 0,
        "the simulator ran {checked} seeds against a server that loses changes and reported \
         green every time"
    );
}

/// A report names its seed at the top and at the bottom.
#[test]
fn a_report_names_its_seed() {
    let mut world = World::new(0x2a, FaultRates::none(), Trace::counting());
    let scope = world.scope().clone();
    world.databases[0].cursors.insert(scope, Cursor { position: 9 });
    step(&mut world);
    assert!(!world.invariants.holds());
    let lines = report(0x2a, world.invariants.violations());
    assert_eq!(lines[1], "FAILED at seed 0x000000000000002a");
    assert!(lines[2].starts_with("  [cursor-bounds] device 0 at "));
    assert_eq!(
        lines[lines.len() - 1],
        "  cargo run --release -p credsync-sim -- --seed 0x2a --trace"
    );
}

/// The ids of a device's commands differ from each other and from those of other devices.
#[test]
fn authored_ids_are_unique() {
    let mut ids = BTreeSet::new();
    for device in 0..4u8 {
        for n in 0..=255u8 {
            assert!(ids.insert(command_id(device, n)));
        }
    }
    assert_eq!(
        command_id(2, 7).text(),
        "01910000-0000-7000-0000-000000000207"
    );
}

#[test]
fn the_arguments_say_what_to_run() {
    let asked = |args: &[&str]| {
        let args: Vec<String> = args.iter().map(|a| (*a).to_owned()).collect();
        read_args(&args)
    };
    assert_eq!(asked(&[]), Invocation::Batch { seeds: 1_000 });
    assert_eq!(asked(&["--seeds", "12"]), Invocation::Batch { seeds: 12 });
    assert_eq!(asked(&["--seeds", "x"]), Invocation::Batch { seeds: 1_000 });
    assert_eq!(
        asked(&["--trace", "--seed", "0x4f21a9c3"]),
        Invocation::One {
            seed: 0x4f21_a9c3,
            trace: true
        }
    );
    assert_eq!(
        asked(&["--seed", "17"]),
        Invocation::One {
            seed: 17,
            trace: false
        }
    );
    assert_eq!(asked(&["--seed", "seventeen"]), Invocation::BadSeed);
    assert_eq!(asked(&["--seed"]), Invocation::Batch { seeds: 1_000 });
    assert_eq!(asked(&["--seed", "1", "-h"]), Invocation::Help);
}
