//! The turns of the world: what it asks of the engines, in which order, and what it makes of the
//! answers.
use crate::clock::{apparent, SimEntropy};
use crate::codec::{is_function, payload_checksum, Codec};
use crate::fault::{
    decide_storage, menu, menu_is_complete, menu_place, storage_fault, Fault, FLAP_DURATION_MS,
};
use crate::invariants::{bounds_found, device_checked, effects_found, over, over_agrees};
use crate::network::{
    outbound_views, part_ripe, parting_keeps_addresses, response_view, ripe, unripe, work_of_all,
    InFlight, NetView, OutboundView, RequestView, ResponseView, STEP_MS,
};
use crate::protocol::{
    batch_views, big_endian, result_views, Batch, BatchView, Command, CommandId, CommandName,
    Cursor, HexString, Payload, ProtocolVersion, PullRequest, PushRequest, PushResponse, ResultView,
    SchemaVersion, ScopeCursor,
};
use crate::rng::{chance_of, start, u64_of};
use crate::server::{scope_cursors, Server};
use crate::storage::{DbView, Queued, StorageVerdict};
use crate::text::{number_within, parse_number};
use crate::transport::{Outbound, SimCompressor, SimTransport, WireRequest, WireResponse};
use crate::world::{
    a_beginning_uses_little, a_fault_uses_one, begun, devices_add_up, handing_over, network_carried,
    phase_ok, room_shrinks, same_requests_same_work, with_event, with_fault, with_rng, work_adds_up,
    work_for, work_of_one_more, world_room, Device, DeviceView, Phase, World, WorldView, LAST_MS,
};
use vstd::prelude::*;

verus! {

/// Where a restarted device stands.
#[derive(Debug, Clone, Copy, PartialEq, Eq)]
pub struct Restored {
    pub cursor: Cursor,
    /// The scope's digest as a number; none stands for the digest of an empty scope.
    pub digest: Option<u128>,
}

/// Rebuilds a digest from its text.
pub fn digest_from_hex(hex: &HexString) -> (digest: Option<u128>)
    ensures
        match digest {
            Some(v) => number_within(hex@, 16, u128::MAX as nat) == Some(v as nat),
            None => number_within(hex@, 16, u128::MAX as nat) is None,
        },
{
    parse_number(hex.as_str(), 16, u128::MAX)
}

/// The id of command number `n` of a device.
pub open spec fn authored_id(device: u8, n: u8) -> nat {
    0x0191_0000_0000_7000_0000_0000_0000_0000 + device as nat * 256 + n as nat
}

/// The id of command number `n` of a device: unique and reproducible.
pub fn command_id(device: u8, n: u8) -> (id: CommandId)
    ensures
        id.raw == authored_id(device, n),
{
    let bytes: [u8; 16] = [0x01, 0x91, 0, 0, 0, 0, 0x70, 0, 0, 0, 0, 0, 0, 0, device, n];
    proof {
        reveal_with_fuel(big_endian, 17);
        assert(big_endian(bytes@) == authored_id(device, n));
    }
    match CommandId::from_bytes(bytes) {
        Ok(id) => id,
        Err(_) => CommandId { raw: 0 },
    }
}

/// No two commands of a run have the same id, as long as no device authors more than 256.
pub proof fn ids_are_unique(device: u8, n: u8, other: u8, m: u8)
    requires
        authored_id(device, n) == authored_id(other, m),
    ensures
        device == other,
        n == m,
{
}

/// What becomes of the next transaction after a fault was decided.
pub open spec fn verdict_for(fault: Option<Fault>) -> StorageVerdict {
    match fault {
        Some(Fault::StorageFailed) => StorageVerdict::FailBeforeCommit,
        Some(Fault::StorageCommittedThenKilled) => StorageVerdict::CommitThenLoseAck,
        _ => StorageVerdict::Commit,
    }
}

/// The world once it is decided whether a device's next transaction misbehaves. Where the process
/// dies after the commit, a kill is due.
pub open spec fn armed(w: WorldView, i: usize) -> WorldView {
    let (fault, s) = storage_fault(w.net.rng, w.rates);
    let drawn = with_rng(w, s);
    let told = match fault {
        Some(f) => with_fault(drawn, i, f),
        None => drawn,
    };
    let d = w.devices[i as int];
    WorldView {
        devices: w.devices.update(
            i as int,
            DeviceView {
                pending_kill: d.pending_kill || fault == Some(Fault::StorageCommittedThenKilled),
                ..d
            },
        ),
        databases: w.databases.update(
            i as int,
            DbView { verdict: verdict_for(fault), ..w.databases[i as int] },
        ),
        ..told
    }
}

/// A device whose process has started anew: nothing in flight, and another seed for what it
/// draws.
pub open spec fn rebooted(d: DeviceView, seed: u64) -> DeviceView {
    DeviceView {
        pending: seq![],
        next_id: 0,
        online: true,
        entropy: start(seed),
        entropy_seed: seed,
        ratio: 4,
        pending_kill: false,
        ..d
    }
}

/// The world once a device has restarted.
pub open spec fn device_restarted(w: WorldView, i: usize) -> WorldView {
    let told = with_fault(w, i, Fault::DeviceRestarted);
    let (seed, s) = u64_of(w.net.rng);
    WorldView {
        devices: w.devices.update(i as int, rebooted(w.devices[i as int], seed)),
        ..with_rng(told, s)
    }
}

/// What a database says of a scope: nothing if the device never stood anywhere in it.
pub open spec fn restored_from(db: DbView, scope: Seq<char>) -> Option<(Cursor, Option<nat>)> {
    if db.cursors.dom().contains(scope) {
        Some(
            (
                db.cursors[scope],
                if db.digests.dom().contains(scope) {
                    number_within(db.digests[scope]@, 16, u128::MAX as nat)
                } else {
                    None
                },
            ),
        )
    } else {
        None
    }
}

/// What is restored of a scope.
pub open spec fn restored_view(r: Option<Restored>) -> Option<(Cursor, Option<nat>)> {
    match r {
        Some(x) => Some(
            (
                x.cursor,
                match x.digest {
                    Some(v) => Some(v as nat),
                    None => None,
                },
            ),
        ),
        None => None,
    }
}

/// Connectivity comes back when its time has come, or goes away.
pub open spec fn connected(w: WorldView, i: usize) -> WorldView {
    let d = w.devices[i as int];
    if d.offline_until_ms > 0 && w.now_ms >= d.offline_until_ms {
        WorldView {
            devices: w.devices.update(
                i as int,
                DeviceView { offline_until_ms: 0, online: true, ..d },
            ),
            ..w
        }
    } else if d.offline_until_ms == 0 {
        let (flap, s) = chance_of(w.net.rng, w.rates.connectivity_flap);
        if flap {
            let back = (w.now_ms + FLAP_DURATION_MS) as i64;
            WorldView {
                devices: w.devices.update(
                    i as int,
                    DeviceView { offline_until_ms: back, online: false, ..d },
                ),
                ..with_fault(with_rng(w, s), i, Fault::Flap)
            }
        } else {
            with_rng(w, s)
        }
    } else {
        w
    }
}

impl World {
    /// Decides whether a device's next transaction misbehaves.
    fn arm_storage(&mut self, i: usize)
        requires
            old(self).wf(),
            i < old(self).devices@.len(),
            world_room(old(self)@, 1),
        ensures
            final(self).wf(),
            final(self)@ == armed(old(self)@, i),
    {
        let ghost w = self@;
        let fault: Option<Fault> = decide_storage(&mut self.rng, &self.rates);
        let verdict: StorageVerdict = match fault {
            Some(Fault::StorageFailed) => StorageVerdict::FailBeforeCommit,
            Some(Fault::StorageCommittedThenKilled) => StorageVerdict::CommitThenLoseAck,
            _ => StorageVerdict::Commit,
        };
        assert(self@ =~= with_rng(w, self.rng.state()));
        if let Some(f) = fault {
            self.fault(i, f);
        }
        assert(w.devices[i as int] == self.devices@[i as int]@);
        assert(w.databases[i as int] == self.databases@[i as int]@);
        if matches!(fault, Some(Fault::StorageCommittedThenKilled)) {
            self.devices[i].pending_kill = true;
        }
        self.databases[i].verdict = verdict;
        assert(self@.devices =~= armed(w, i).devices);
        assert(self@.databases =~= armed(w, i).databases);
        assert(self@ =~= armed(w, i));
    }

    fn connect(&mut self, i: usize)
        requires
            old(self).wf(),
            i < old(self).devices@.len(),
            world_room(old(self)@, 1),
            old(self).now_ms <= LAST_MS + STEP_MS,
        ensures
            final(self).wf(),
            final(self)@ == connected(old(self)@, i),
    {
        let ghost w = self@;
        assert(w.devices[i as int] == self.devices@[i as int]@);
        let until: i64 = self.devices[i].offline_until_ms;
        if until > 0 && self.now_ms >= until {
            self.devices[i].offline_until_ms = 0;
            self.devices[i].transport.online = true;
        } else if until == 0 && self.rng.chance(self.rates.connectivity_flap) {
            let back: i64 = self.now_ms + FLAP_DURATION_MS;
            self.devices[i].offline_until_ms = back;
            self.devices[i].transport.online = false;
            assert(self@.devices =~= connected(w, i).devices);
            self.fault(i, Fault::Flap);
        }
        assert(self@.devices =~= connected(w, i).devices);
        assert(self@ =~= connected(w, i));
    }
}

/// What the world asks of a device's engine.
#[derive(Debug)]
pub enum Action {
    /// Start anew, from what the database holds: where the scope stands, and what is queued.
    Restart { device: usize, restored: Option<Restored>, outbox: Vec<Queued> },
    /// Queue a command.
    Enqueue { device: usize, entry: Queued },
    /// Say what there is to hand in, within so many bytes.
    BuildPush { device: usize, protocol: ProtocolVersion, limit_bytes: usize },
    /// Say where the scope stands, reading it from storage again if it has to be.
    FindStanding { device: usize },
    /// Apply a batch.
    ApplyBatch { device: usize, batch: Batch },
    /// Take in some results.
    ApplyResults { device: usize, response: PushResponse },
    /// Nothing: the step is over.
    Rest,
}

/// What the world asks of a device's engine.
pub enum ActionView {
    Restart {
        device: usize,
        restored: Option<(Cursor, Option<nat>)>,
        outbox: Seq<Queued>,
    },
    Enqueue {
        device: usize,
        id: nat,
        name: Seq<char>,
        scope: Seq<char>,
        json: Seq<char>,
        sum: Option<Seq<char>>,
        client_ts: int,
        checksum: Seq<char>,
        schema_version: u16,
    },
    BuildPush { device: usize, protocol: ProtocolVersion, limit_bytes: usize },
    FindStanding { device: usize },
    ApplyBatch { device: usize, batch: BatchView },
    ApplyResults { device: usize, protocol: ProtocolVersion, results: Seq<ResultView> },
    Rest,
}

impl View for Action {
    type V = ActionView;

    open spec fn view(&self) -> ActionView {
        match self {
            Action::Restart { device, restored, outbox } => ActionView::Restart {
                device: *device,
                restored: restored_view(*restored),
                outbox: outbox@,
            },
            Action::Enqueue { device, entry } => ActionView::Enqueue {
                device: *device,
                id: entry.command.id.raw as nat,
                name: entry.command.name@,
                scope: entry.command.scope@,
                json: entry.command.payload.text(),
                sum: entry.command.payload.sum(),
                client_ts: entry.command.client_ts as int,
                checksum: entry.command.checksum@,
                schema_version: entry.schema_version.value,
            },
            Action::BuildPush { device, protocol, limit_bytes } => ActionView::BuildPush {
                device: *device,
                protocol: *protocol,
                limit_bytes: *limit_bytes,
            },
            Action::FindStanding { device } => ActionView::FindStanding { device: *device },
            Action::ApplyBatch { device, batch } => ActionView::ApplyBatch {
                device: *device,
                batch: batch@,
            },
            Action::ApplyResults { device, response } => ActionView::ApplyResults {
                device: *device,
                protocol: response.protocol,
                results: result_views(response.results@),
            },
            Action::Rest => ActionView::Rest,
        }
    }
}

/// What is asked of the engine of a device that restarts.
pub open spec fn restart_asked(w: WorldView, i: usize) -> ActionView {
    ActionView::Restart {
        device: i,
        restored: restored_from(w.databases[i as int], w.scope),
        outbox: w.databases[i as int].outbox,
    }
}

/// What the user writes.
pub open spec fn written() -> Seq<char> {
    "{\"body\":\"xxxxxxxxxxxxxxxxxxxxxxxxxxxxxxxx\"}"@
}

/// The world once a device's user has written something, and what is asked of its engine.
pub open spec fn authored<W: Codec>(w: WorldView, i: usize, codec: &W) -> (WorldView, ActionView) {
    let d = w.devices[i as int];
    let counted = WorldView {
        devices: w.devices.update(
            i as int,
            DeviceView { commands_authored: ((d.commands_authored + 1) % 256) as u8, ..d },
        ),
        ..w
    };
    (
        armed(counted, i),
        ActionView::Enqueue {
            device: i,
            id: authored_id((i % 256) as u8, d.commands_authored),
            name: "submit_reflection"@,
            scope: w.scope,
            json: written(),
            sum: payload_checksum(codec, written()),
            client_ts: apparent(d.clock),
            checksum: "00000000000000000000000000000000"@,
            schema_version: 1,
        },
    )
}

/// The world once a device has sent something: parked for the network if the device is online,
/// refused otherwise.
pub open spec fn parked(w: WorldView, i: usize, request: RequestView) -> WorldView {
    let d = w.devices[i as int];
    if d.online {
        let id = (d.next_id + 1) as u64;
        WorldView {
            devices: w.devices.update(
                i as int,
                DeviceView {
                    pending: d.pending.push(OutboundView { id, request }),
                    next_id: id,
                    ..d
                },
            ),
            ..w
        }
    } else {
        w
    }
}

impl World {
    /// Restarts a device. Its memory is discarded: whatever the database holds is the truth, and
    /// what is queued is handed in again to a server that dedupes.
    fn restart_device(&mut self, i: usize) -> (action: Action)
        requires
            old(self).wf(),
            i < old(self).devices@.len(),
            world_room(old(self)@, 1),
        ensures
            final(self).wf(),
            final(self)@ == device_restarted(old(self)@, i),
            action@ == restart_asked(old(self)@, i),
    {
        let ghost w = self@;
        assert(w.devices[i as int] == self.devices@[i as int]@);
        assert(w.databases[i as int] == self.databases@[i as int]@);
        self.fault(i, Fault::DeviceRestarted);
        let seed: u64 = self.rng.next_u64();
        self.devices[i].transport = SimTransport::new();
        self.devices[i].entropy = SimEntropy::new(seed);
        self.devices[i].compressor = SimCompressor::default();
        self.devices[i].pending_kill = false;
        proof {
            assert(outbound_views(self.devices@[i as int].transport.pending@) =~= seq![]);
            assert(self@.devices =~= device_restarted(w, i).devices);
            assert(self@ =~= device_restarted(w, i));
        }
        let restored: Option<Restored> = match self.databases[i].cursors.get(&self.scope) {
            Some(cursor) => {
                let digest: Option<u128> = match self.databases[i].digests.get(&self.scope) {
                    Some(hex) => digest_from_hex(hex),
                    None => None,
                };
                Some(Restored { cursor: *cursor, digest })
            },
            None => None,
        };
        let outbox: Vec<Queued> = self.databases[i].outbox.clone();
        assert(outbox@ =~= w.databases[i as int].outbox);
        Action::Restart { device: i, restored, outbox }
    }

    /// The user of a device writes something.
    fn author_command<W: Codec>(&mut self, i: usize, codec: &W) -> (action: Action)
        requires
            old(self).wf(),
            i < old(self).devices@.len(),
            world_room(old(self)@, 1),
            is_function(codec),
        ensures
            final(self).wf(),
            (final(self)@, action@) == authored(old(self)@, i, codec),
    {
        let ghost w = self@;
        assert(w.devices[i as int] == self.devices@[i as int]@);
        let n: u8 = self.devices[i].commands_authored;
        self.devices[i].commands_authored = if n == 255 {
            0
        } else {
            n + 1
        };
        let json: String = "{\"body\":\"xxxxxxxxxxxxxxxxxxxxxxxxxxxxxxxx\"}".to_owned();
        let command = Command {
            id: command_id((i % 256) as u8, n),
            name: CommandName::new("submit_reflection"),
            scope: self.scope.clone(),
            payload: Payload::new(json, codec),
            // The device's own clock, which lies. Nothing may decide a conflict on it.
            client_ts: self.devices[i].clock.now(),
            checksum: HexString::new("00000000000000000000000000000000"),
        };
        let ghost counted = WorldView {
            devices: w.devices.update(
                i as int,
                DeviceView {
                    commands_authored: ((n + 1) % 256) as u8,
                    ..w.devices[i as int]
                },
            ),
            ..w
        };
        assert(self@.devices =~= counted.devices);
        assert(self@ =~= counted);
        self.arm_storage(i);
        Action::Enqueue {
            device: i,
            entry: Queued { command, schema_version: SchemaVersion { value: 1 } },
        }
    }

    fn send(&mut self, i: usize, request: WireRequest)
        requires
            old(self).wf(),
            i < old(self).devices@.len(),
            old(self)@.devices[i as int].next_id < u64::MAX,
        ensures
            final(self).wf(),
            final(self)@ == parked(old(self)@, i, request@),
    {
        let ghost w = self@;
        let ghost view = request@;
        assert(w.devices[i as int] == self.devices@[i as int]@);
        // A request refused while offline is not sent again: the next turn builds another.
        let _ = self.devices[i].transport.enqueue(request);
        proof {
            let d = w.devices[i as int];
            if d.online {
                assert(self.devices@[i as int]@.pending =~= d.pending.push(
                    OutboundView { id: (d.next_id + 1) as u64, request: view },
                ));
            }
            assert(self@.devices =~= parked(w, i, view).devices);
            assert(self@ =~= parked(w, i, view));
        }
    }
}

/// What became of a batch.
#[derive(Debug, Clone, Copy, PartialEq, Eq, Structural)]
pub enum Applied {
    /// It was applied, and the digests agree.
    Clean,
    /// It was applied, and the digests do not agree.
    Diverged,
    /// It was refused.
    Refused,
}

/// Where a scope stands, as a device's engine has it.
#[derive(Debug, Clone, Copy, PartialEq, Eq, Structural)]
pub enum Standing {
    /// Storage cannot be read, so there is no position to resume from.
    Unreadable,
    /// The engine has never heard of the scope.
    Unknown,
    /// Here.
    At { cursor: Cursor },
}

/// What the world is told.
#[derive(Debug)]
pub enum Event {
    /// A step begins.
    Begin,
    /// The engine has started anew.
    Restarted,
    /// The engine took the command, or refused it.
    Enqueued { taken: bool },
    /// What the engine has to hand in, if anything.
    PushBuilt { request: Option<PushRequest> },
    /// Where the scope stands.
    Stands { standing: Standing },
    /// What became of the batch.
    BatchApplied { outcome: Applied },
    /// The engine took in the results, or refused them.
    ResultsApplied { taken: bool },
}

/// What the world is told.
pub enum EventView {
    Begin,
    Restarted,
    Enqueued { taken: bool },
    PushBuilt { request: Option<(ProtocolVersion, Seq<Command>)> },
    Stands { standing: Standing },
    BatchApplied { outcome: Applied },
    ResultsApplied { taken: bool },
}

impl View for Event {
    type V = EventView;

    open spec fn view(&self) -> EventView {
        match self {
            Event::Begin => EventView::Begin,
            Event::Restarted => EventView::Restarted,
            Event::Enqueued { taken } => EventView::Enqueued { taken: *taken },
            Event::PushBuilt { request } => EventView::PushBuilt {
                request: match request {
                    Some(r) => Some((r.protocol, r.commands@)),
                    None => None,
                },
            },
            Event::Stands { standing } => EventView::Stands { standing: *standing },
            Event::BatchApplied { outcome } => EventView::BatchApplied { outcome: *outcome },
            Event::ResultsApplied { taken } => EventView::ResultsApplied { taken: *taken },
        }
    }
}

/// The event is what the world is waiting to hear.
pub open spec fn fits(phase: Phase, event: EventView) -> bool {
    match phase {
        Phase::Idle => event is Begin,
        Phase::Restarting { .. } => event is Restarted,
        Phase::Authoring { .. } => event is Enqueued,
        Phase::Killed { .. } => event is Restarted,
        Phase::Pushing { .. } => event is PushBuilt,
        Phase::Pulling { .. } => event is Stands,
        Phase::Applying => event is BatchApplied,
        Phase::Settling => event is ResultsApplied,
        Phase::Delivering => event is Restarted,
    }
}

/// The world in a phase.
pub open spec fn awaiting(w: WorldView, phase: Phase) -> WorldView {
    WorldView { phase, ..w }
}

/// The device asks for what it has to hand in.
pub open spec fn pushing(w: WorldView, i: usize) -> (WorldView, ActionView) {
    (
        awaiting(w, Phase::Pushing { device: i }),
        ActionView::BuildPush {
            device: i,
            protocol: ProtocolVersion { value: 1 },
            limit_bytes: 100_000,
        },
    )
}

/// The user of a device may write something, once in a hundred minutes on average; then the
/// device hands in what it has.
pub open spec fn authoring<W: Codec>(w: WorldView, i: usize, codec: &W) -> (WorldView, ActionView) {
    if w.quiet {
        pushing(w, i)
    } else {
        let (hit, s) = chance_of(w.net.rng, 1);
        if hit {
            let (v, action) = authored(with_rng(w, s), i, codec);
            (awaiting(v, Phase::Authoring { device: i }), action)
        } else {
            pushing(with_rng(w, s), i)
        }
    }
}

/// A device restarts, and the world waits for it in a phase.
pub open spec fn restarting(w: WorldView, i: usize, phase: Phase) -> (WorldView, ActionView) {
    (awaiting(device_restarted(w, i), phase), restart_asked(w, i))
}

/// The responses whose time has come are taken off the network.
pub open spec fn due_taken(w: WorldView) -> WorldView {
    WorldView {
        net: NetView { in_flight: unripe(w.net.in_flight, w.now_ms), ..w.net },
        due: ripe(w.net.in_flight, w.now_ms),
        due_at: 0,
        batch_at: 0,
        ..w
    }
}

/// What the claims come to at the end of a step.
pub open spec fn judged(w: WorldView) -> WorldView {
    let n = w.databases.len();
    let head = (w.net.server.next_seq - 1) as u64;
    WorldView {
        memory: Map::new(
            |i: int| true,
            |i: int|
                if 0 <= i < n {
                    device_checked(w.memory[i], w.databases[i], w.scope, i as usize, w.now_ms).0
                } else {
                    w.memory[i]
                },
        ),
        found: w.found + over(
            |i: int|
                device_checked(w.memory[i], w.databases[i], w.scope, i as usize, w.now_ms).1,
            n,
        ) + over(
            |i: int| bounds_found(w.databases[i], w.scope, head, i as usize, w.now_ms),
            n,
        ) + over(
            |i: int| effects_found(w.databases[i], w.net.server, w.scope, i as usize, w.now_ms),
            n,
        ),
        ..w
    }
}

/// What the next response that is due has for the engine: the next batch of it, or its results.
pub open spec fn at_hand(w: WorldView) -> Option<ActionView> {
    let f = w.due[w.due_at as int];
    match f.response {
        ResponseView::Pull { batches, .. } => if w.batch_at < batches.len() {
            Some(ActionView::ApplyBatch { device: f.device, batch: batches[w.batch_at as int] })
        } else {
            None
        },
        ResponseView::Push { protocol, results } => Some(
            ActionView::ApplyResults { device: f.device, protocol, results },
        ),
        _ => None,
    }
}

/// The world once it is done with a response, which is put on record if it failed.
pub open spec fn passed_over(w: WorldView) -> WorldView {
    let f = w.due[w.due_at as int];
    let v = if f.response is Pull || f.response is Push {
        w
    } else {
        with_event(w, f.device, "response-failed"@)
    };
    WorldView { due_at: w.due_at + 1, batch_at: 0, ..v }
}

/// What the world waits for when it has handed something over.
pub open spec fn delivery_phase(action: ActionView) -> Phase {
    if action is ApplyBatch {
        Phase::Applying
    } else {
        Phase::Settling
    }
}

/// The rest of the responses that are due, as far as the first one that has something for an
/// engine; when nothing is left the step is judged.
#[verifier::opaque]
pub open spec fn delivering(w: WorldView) -> (WorldView, ActionView)
    decreases w.due.len() - w.due_at,
{
    if w.due_at >= w.due.len() {
        (awaiting(judged(w), Phase::Idle), ActionView::Rest)
    } else {
        match at_hand(w) {
            Some(action) => (
                awaiting(armed(w, w.due[w.due_at as int].device), delivery_phase(action)),
                action,
            ),
            None => delivering(passed_over(w)),
        }
    }
}

/// The turns of the devices from number `i` on, as far as the first thing that is asked of an
/// engine: once all have had their turn, the network carries what they sent and hands over what
/// is due.
pub open spec fn turn_of<W: Codec>(w: WorldView, i: usize, codec: &W) -> (WorldView, ActionView) {
    if i >= w.devices.len() {
        delivering(due_taken(network_carried(w, codec)))
    } else {
        let c = connected(w, i);
        let (hit, s) = chance_of(c.net.rng, c.rates.device_restart);
        if hit {
            restarting(with_rng(c, s), i, Phase::Restarting { device: i })
        } else {
            authoring(with_rng(c, s), i, codec)
        }
    }
}

/// A device whose transaction was the last thing it did restarts; otherwise the deliveries go on.
pub open spec fn after_delivery(w: WorldView, device: usize) -> (WorldView, ActionView) {
    if w.devices[device as int].pending_kill {
        restarting(w, device, Phase::Delivering)
    } else {
        delivering(w)
    }
}

/// What is put on record of a batch.
pub open spec fn batch_word(outcome: Applied) -> Seq<char> {
    match outcome {
        Applied::Clean => "applied"@,
        Applied::Diverged => "applied-diverged"@,
        Applied::Refused => "apply-refused"@,
    }
}

/// The world once a device has asked for what came after the position it stands at.
pub open spec fn pull_sent(w: WorldView, i: usize, standing: Standing) -> WorldView {
    let ask = |cursor: Cursor|
        parked(
            w,
            i,
            RequestView::Pull {
                protocol: ProtocolVersion { value: 1 },
                scopes: seq![(w.scope, cursor.position)],
                limit_bytes: None,
            },
        );
    match standing {
        Standing::Unreadable => w,
        Standing::Unknown => ask(Cursor { position: 0 }),
        Standing::At { cursor } => ask(cursor),
    }
}

/// What the world does when it is told something, and what it asks next.
pub open spec fn advanced<W: Codec>(w: WorldView, event: EventView, codec: &W) -> (
    WorldView,
    ActionView,
) {
    match (w.phase, event) {
        (Phase::Idle, EventView::Begin) => turn_of(begun(w), 0, codec),
        (Phase::Restarting { device }, EventView::Restarted) => authoring(w, device, codec),
        (Phase::Authoring { device }, EventView::Enqueued { taken }) => {
            let v = with_event(
                w,
                device,
                if taken {
                    "enqueued"@
                } else {
                    "enqueue-refused"@
                },
            );
            if v.devices[device as int].pending_kill {
                restarting(v, device, Phase::Killed { device })
            } else {
                pushing(v, device)
            }
        },
        (Phase::Killed { device }, EventView::Restarted) => pushing(w, device),
        (Phase::Pushing { device }, EventView::PushBuilt { request }) => {
            let v = match request {
                Some((protocol, commands)) => if commands.len() > 0 {
                    parked(w, device, RequestView::Push { protocol, commands })
                } else {
                    w
                },
                None => w,
            };
            (awaiting(v, Phase::Pulling { device }), ActionView::FindStanding { device })
        },
        (Phase::Pulling { device }, EventView::Stands { standing }) => turn_of(
            pull_sent(w, device, standing),
            (device + 1) as usize,
            codec,
        ),
        (Phase::Applying, EventView::BatchApplied { outcome }) => {
            let device = w.due[w.due_at as int].device;
            after_delivery(
                WorldView {
                    batch_at: w.batch_at + 1,
                    phase: Phase::Delivering,
                    ..with_event(w, device, batch_word(outcome))
                },
                device,
            )
        },
        (Phase::Settling, EventView::ResultsApplied { taken }) => {
            let device = w.due[w.due_at as int].device;
            let word = if taken {
                "results-applied"@
            } else {
                "results-refused"@
            };
            after_delivery(
                WorldView {
                    due_at: w.due_at + 1,
                    batch_at: 0,
                    phase: Phase::Delivering,
                    ..with_event(w, device, word)
                },
                device,
            )
        },
        (Phase::Delivering, EventView::Restarted) => delivering(w),
        _ => (w, ActionView::Rest),
    }
}

impl World {
    fn event(&mut self, device: usize, what: &str)
        requires
            old(self).wf(),
        ensures
            final(self).wf(),
            final(self)@ == with_event(old(self)@, device, what@),
    {
        let ghost w = self@;
        self.trace.event(self.now_ms, device, what);
        assert(self@ =~= with_event(w, device, what@));
    }

    fn await_in(&mut self, phase: Phase)
        requires
            old(self).wf(),
            phase_ok(old(self)@, phase),
        ensures
            final(self).wf(),
            final(self)@ == awaiting(old(self)@, phase),
    {
        let ghost w = self@;
        self.phase = phase;
        assert(self@ =~= awaiting(w, phase));
    }

    fn push_step(&mut self, i: usize) -> (action: Action)
        requires
            old(self).wf(),
            i < old(self).devices@.len(),
        ensures
            final(self).wf(),
            (final(self)@, action@) == pushing(old(self)@, i),
    {
        self.await_in(Phase::Pushing { device: i });
        Action::BuildPush { device: i, protocol: Server::protocol(), limit_bytes: 100_000 }
    }

    fn author_step<W: Codec>(&mut self, i: usize, codec: &W) -> (action: Action)
        requires
            old(self).wf(),
            i < old(self).devices@.len(),
            world_room(old(self)@, 1),
            is_function(codec),
        ensures
            final(self).wf(),
            (final(self)@, action@) == authoring(old(self)@, i, codec),
    {
        let ghost w = self@;
        if !self.quiet && self.rng.chance(1) {
            assert(self@ =~= with_rng(w, self.rng.state()));
            let action = self.author_command(i, codec);
            self.await_in(Phase::Authoring { device: i });
            action
        } else {
            assert(self@ =~= with_rng(w, self.rng.state()));
            self.push_step(i)
        }
    }

    fn restart_into(&mut self, i: usize, phase: Phase) -> (action: Action)
        requires
            old(self).wf(),
            i < old(self).devices@.len(),
            phase_ok(old(self)@, phase),
            world_room(old(self)@, 1),
        ensures
            final(self).wf(),
            (final(self)@, action@) == restarting(old(self)@, i, phase),
    {
        let action = self.restart_device(i);
        self.await_in(phase);
        action
    }

    /// Takes the responses whose time has come.
    fn take_due(&mut self)
        requires
            old(self).wf(),
            !handing_over(old(self).phase),
        ensures
            final(self).wf(),
            final(self)@ == due_taken(old(self)@),
    {
        let ghost w = self@;
        let mut all: Vec<InFlight> = Vec::new();
        core::mem::swap(&mut all, &mut self.in_flight);
        let (ready, waiting) = part_ripe(all, self.now_ms);
        self.in_flight = waiting;
        self.due = ready;
        self.due_at = 0;
        self.batch_at = 0;
        proof {
            parting_keeps_addresses(w.net.in_flight, w.now_ms, w.devices.len());
            assert(self@ =~= due_taken(w));
        }
    }

    /// Holds the claims against the world as it stands at the end of a step. Every step, not only
    /// the last: a bug that corrects itself before the run ends is still a bug.
    fn judge(&mut self)
        requires
            old(self).wf(),
        ensures
            final(self).wf(),
            final(self)@ == judged(old(self)@),
    {
        let ghost w = self@;
        let ghost n = w.databases.len();
        let ghost dbs = self.databases@;
        let ghost head = (w.net.server.next_seq - 1) as u64;
        let ghost before = self.invariants;
        self.invariants.check_step(self.now_ms, &self.databases, &self.scope);
        proof {
            over_agrees(
                |i: int|
                    device_checked(
                        before.memory_of(i),
                        dbs[i]@,
                        w.scope,
                        i as usize,
                        w.now_ms,
                    ).1,
                |i: int|
                    device_checked(w.memory[i], w.databases[i], w.scope, i as usize, w.now_ms).1,
                n,
            );
        }
        let ghost remembered = self.invariants;
        self.invariants.check_cursor_bounds(
            self.now_ms,
            &self.databases,
            &self.server,
            &self.scope,
        );
        proof {
            over_agrees(
                |i: int| bounds_found(dbs[i]@, w.scope, head, i as usize, w.now_ms),
                |i: int| bounds_found(w.databases[i], w.scope, head, i as usize, w.now_ms),
                n,
            );
        }
        self.invariants.check_durable_effects(
            self.now_ms,
            &self.databases,
            &self.server,
            &self.scope,
        );
        proof {
            over_agrees(
                |i: int| effects_found(dbs[i]@, w.net.server, w.scope, i as usize, w.now_ms),
                |i: int|
                    effects_found(w.databases[i], w.net.server, w.scope, i as usize, w.now_ms),
                n,
            );
            assert forall|i: int| self@.memory[i] == judged(w).memory[i] by {
                assert(self.invariants.memory_of(i) == remembered.memory_of(i));
                assert(w.memory[i] == before.memory_of(i));
            }
            assert(self@.memory =~= judged(w).memory);
            assert(self@.found =~= judged(w).found);
            assert(self@ =~= judged(w));
        }
    }
}

/// The world has room for a step's worth of work, and for what its devices have sent.
pub open spec fn ready(w: WorldView, spare: nat) -> bool {
    &&& w.now_ms <= LAST_MS + STEP_MS
    &&& w.phase is Idle ==> w.now_ms <= LAST_MS
    &&& world_room(w, work_for(w.devices, w.devices.len()) + spare)
    &&& forall|i: int|
        0 <= i < w.devices.len() ==> (#[trigger] w.devices[i]).next_id < u64::MAX
            && w.devices[i].requests_sent + w.devices[i].pending.len() < u64::MAX
}

impl World {
    fn show(&self) -> (shown: Option<Action>)
        requires
            self.wf(),
            self.due_at < self.due@.len(),
        ensures
            match shown {
                Some(action) => at_hand(self@) == Some(action@),
                None => at_hand(self@) is None,
            },
    {
        let at: usize = self.due_at;
        let device: usize = self.due[at].device;
        assert(self@.due[at as int] == self.due@[at as int]@);
        match &self.due[at].response {
            Err(_) => None,
            Ok(WireResponse::Pull(response)) => if self.batch_at < response.batches.len() {
                let batch: Batch = response.batches[self.batch_at].clone();
                Some(Action::ApplyBatch { device, batch })
            } else {
                None
            },
            Ok(WireResponse::Push(response)) => Some(
                Action::ApplyResults { device, response: response.clone() },
            ),
        }
    }

    fn hand_over(&mut self, action: &Action)
        requires
            old(self).wf(),
            old(self).due_at < old(self).due@.len(),
            world_room(old(self)@, 1),
            at_hand(old(self)@) == Some(action@),
        ensures
            final(self).wf(),
            final(self)@ == awaiting(
                armed(old(self)@, old(self)@.due[old(self).due_at as int].device),
                delivery_phase(action@),
            ),
    {
        let ghost v = self@;
        let device: usize = self.due[self.due_at].device;
        proof {
            assert(v.due[v.due_at as int] == self.due@[self.due_at as int]@);
            assert(v.due[v.due_at as int].device < v.devices.len());
        }
        self.arm_storage(device);
        match action {
            Action::ApplyBatch { .. } => self.await_in(Phase::Applying),
            _ => self.await_in(Phase::Settling),
        }
    }

    fn pass_over(&mut self)
        requires
            old(self).wf(),
            !handing_over(old(self).phase),
            old(self).due_at < old(self).due@.len(),
        ensures
            final(self).wf(),
            final(self)@ == passed_over(old(self)@),
            final(self).phase == old(self).phase,
            final(self).due_at == old(self).due_at + 1,
            final(self).due@.len() == old(self).due@.len(),
    {
        let ghost w = self@;
        let at: usize = self.due_at;
        assert(w.due[at as int] == self.due@[at as int]@);
        let failed: bool = match &self.due[at].response {
            Ok(_) => false,
            Err(_) => true,
        };
        let device: usize = self.due[at].device;
        if failed {
            self.trace.event(self.now_ms, device, "response-failed");
        }
        let n: usize = self.due.len();
        assert(at < n);
        self.due_at = at + 1;
        self.batch_at = 0;
        assert(self@ =~= passed_over(w));
    }

    /// Hands over the responses that are due, as far as the first one that an engine has to see.
    fn deliver_due(&mut self) -> (action: Action)
        requires
            old(self).wf(),
            !handing_over(old(self).phase),
            world_room(old(self)@, 1),
        ensures
            final(self).wf(),
            (final(self)@, action@) == delivering(old(self)@),
        decreases old(self).due@.len() - old(self).due_at,
    {
        if self.due_at >= self.due.len() {
            self.judge();
            self.await_in(Phase::Idle);
            proof {
                reveal(delivering);
            }
            return Action::Rest;
        }
        match self.show() {
            Some(action) => {
                self.hand_over(&action);
                proof {
                    reveal(delivering);
                }
                action
            },
            None => {
                proof {
                    passing_over_goes_on(self@);
                }
                self.pass_over();
                self.deliver_due()
            },
        }
    }
}

proof fn passing_over_goes_on(w: WorldView)
    requires
        w.due_at < w.due.len(),
        at_hand(w) is None,
        world_room(w, 1),
    ensures
        delivering(w) == delivering(passed_over(w)),
        world_room(passed_over(w), 1),
{
    reveal(delivering);
    let v = passed_over(w);
    assert forall|f: Fault| (#[trigger] v.net.trace.count(f)) + 1 <= u64::MAX by {
        assert(w.net.trace.count(f) + 1 <= u64::MAX);
    }
}

proof fn connecting_uses_one(w: WorldView, i: usize, n: nat)
    requires
        world_room(w, n + 1),
    ensures
        world_room(connected(w, i), n),
{
    room_shrinks(w.net.trace, n + 1, n);
    a_fault_uses_one(w.net.trace, w.now_ms, i, Fault::Flap, n);
}

proof fn an_event_uses_nothing(w: WorldView, device: usize, what: Seq<char>, n: nat)
    requires
        world_room(w, n),
    ensures
        world_room(with_event(w, device, what), n),
{
    let v = with_event(w, device, what);
    assert forall|f: Fault| (#[trigger] v.net.trace.count(f)) + n <= u64::MAX by {
        assert(w.net.trace.count(f) + n <= u64::MAX);
    }
}

impl World {
    /// Gives the devices from number `i` on their turn.
    fn device_step<W: Codec>(&mut self, i: usize, codec: &W) -> (action: Action)
        requires
            old(self).wf(),
            !handing_over(old(self).phase),
            is_function(codec),
            old(self).now_ms <= LAST_MS + STEP_MS,
            world_room(
                old(self)@,
                work_for(old(self)@.devices, old(self)@.devices.len()) + 2,
            ),
            forall|j: int|
                0 <= j < old(self)@.devices.len() ==> (#[trigger] old(self)@.devices[j]).requests_sent
                    + old(self)@.devices[j].pending.len() <= u64::MAX,
        ensures
            final(self).wf(),
            (final(self)@, action@) == turn_of(old(self)@, i, codec),
    {
        let ghost w = self@;
        let ghost work = work_for(w.devices, w.devices.len());
        if i >= self.devices.len() {
            self.carry_network(codec, Ghost(2));
            let ghost v = self@;
            self.take_due();
            proof {
                room_shrinks(v.net.trace, 2, 1);
            }
            return self.deliver_due();
        }
        proof {
            room_shrinks(w.net.trace, work + 2, 2);
            connecting_uses_one(w, i, 1);
            room_shrinks(w.net.trace, 2, 1);
        }
        self.connect(i);
        let ghost c = self@;
        if self.rng.chance(self.rates.device_restart) {
            assert(self@ =~= with_rng(c, self.rng.state()));
            self.restart_into(i, Phase::Restarting { device: i })
        } else {
            assert(self@ =~= with_rng(c, self.rng.state()));
            self.author_step(i, codec)
        }
    }
}

proof fn pulling_adds_one(w: WorldView, i: usize, standing: Standing)
    requires
        i < w.devices.len(),
        ready(w, 3),
    ensures
        ({
            let v = pull_sent(w, i, standing);
            &&& world_room(v, work_for(v.devices, v.devices.len()) + 2)
            &&& forall|j: int|
                0 <= j < v.devices.len() ==> (#[trigger] v.devices[j]).requests_sent
                    + v.devices[j].pending.len() <= u64::MAX
        }),
{
    let v = pull_sent(w, i, standing);
    let n = w.devices.len();
    let work = work_for(w.devices, n);
    if w.devices[i as int].online && standing != Standing::Unreadable {
        let d = v.devices[i as int];
        work_of_one_more(w.devices, i as int, d, n);
        assert(d.pending.drop_last() =~= w.devices[i as int].pending);
        assert(work_for(v.devices, n) == work + 1);
    }
    room_shrinks(w.net.trace, work + 3, work_for(v.devices, n) + 2);
    assert forall|j: int| 0 <= j < n implies (#[trigger] v.devices[j]).requests_sent
        + v.devices[j].pending.len() <= u64::MAX by {
        assert(w.devices[j].requests_sent + w.devices[j].pending.len() < u64::MAX);
    }
}

impl World {
    fn pull_step(&mut self, i: usize, standing: Standing)
        requires
            old(self).wf(),
            i < old(self).devices@.len(),
            old(self)@.devices[i as int].next_id < u64::MAX,
        ensures
            final(self).wf(),
            final(self)@ == pull_sent(old(self)@, i, standing),
    {
        // A position that cannot be trusted is not resumed from. Nothing is lost by waiting: the
        // next turn tries again.
        let cursor: Cursor = match standing {
            Standing::Unreadable => {
                return;
            },
            Standing::Unknown => Cursor::start(),
            Standing::At { cursor } => cursor,
        };
        let mut scopes: Vec<ScopeCursor> = Vec::new();
        scopes.push(ScopeCursor { scope: self.scope.clone(), cursor });
        assert(scope_cursors(scopes@) =~= seq![(self@.scope, cursor.position)]);
        let request = PullRequest { protocol: Server::protocol(), scopes, limit_bytes: None };
        self.send(i, WireRequest::Pull(request));
    }

    fn begin<W: Codec>(&mut self, codec: &W) -> (action: Action)
        requires
            old(self).wf(),
            old(self).phase is Idle,
            ready(old(self)@, 12),
            is_function(codec),
        ensures
            final(self).wf(),
            (final(self)@, action@) == turn_of(begun(old(self)@), 0, codec),
    {
        let ghost w = self@;
        let ghost n = w.devices.len();
        let ghost work = work_for(w.devices, n);
        proof {
            room_shrinks(w.net.trace, work + 12, 5);
            room_shrinks(w.net.trace, work + 12, work + 6);
            a_beginning_uses_little(w, work + 2);
        }
        self.begin_step();
        proof {
            let v = self@;
            assert forall|i: int| 0 <= i < n implies (#[trigger] v.devices[i]).pending
                == w.devices[i].pending && v.devices[i].requests_sent
                == w.devices[i].requests_sent by {
            }
            same_requests_same_work(v.devices, w.devices, n);
            assert forall|j: int| 0 <= j < n implies (#[trigger] v.devices[j]).requests_sent
                + v.devices[j].pending.len() <= u64::MAX by {
                assert(w.devices[j].requests_sent + w.devices[j].pending.len() < u64::MAX);
            }
        }
        self.device_step(0, codec)
    }

    fn delivered(&mut self, device: usize) -> (action: Action)
        requires
            old(self).wf(),
            !handing_over(old(self).phase),
            device < old(self).devices@.len(),
            world_room(old(self)@, 1),
        ensures
            final(self).wf(),
            (final(self)@, action@) == after_delivery(old(self)@, device),
    {
        assert(self@.devices[device as int] == self.devices@[device as int]@);
        if self.devices[device].pending_kill {
            self.restart_into(device, Phase::Delivering)
        } else {
            self.deliver_due()
        }
    }

    fn batch_applied(&mut self, outcome: Applied) -> (action: Action)
        requires
            old(self).wf(),
            old(self).phase is Applying,
            world_room(old(self)@, 1),
        ensures
            final(self).wf(),
            ({
                let w = old(self)@;
                let device = w.due[w.due_at as int].device;
                (final(self)@, action@) == after_delivery(
                    WorldView {
                        batch_at: w.batch_at + 1,
                        phase: Phase::Delivering,
                        ..with_event(w, device, batch_word(outcome))
                    },
                    device,
                )
            }),
    {
        let ghost w = self@;
        let device: usize = self.due[self.due_at].device;
        let word: &str = match outcome {
            Applied::Clean => "applied",
            Applied::Diverged => "applied-diverged",
            Applied::Refused => "apply-refused",
        };
        proof {
            assert(w.due[w.due_at as int] == self.due@[self.due_at as int]@);
            assert(w.due[w.due_at as int].device < w.devices.len());
            an_event_uses_nothing(w, device, word@, 1);
        }
        self.event(device, word);
        proof {
            let r = self.due@[self.due_at as int].response;
            assert(response_view(r) == w.due[w.due_at as int].response);
            assert(r matches Ok(WireResponse::Pull(p)) && batch_views(p.batches@).len()
                == p.batches.len());
        }
        self.batch_at = self.batch_at + 1;
        self.phase = Phase::Delivering;
        assert(self@ =~= WorldView {
            batch_at: w.batch_at + 1,
            phase: Phase::Delivering,
            ..with_event(w, device, batch_word(outcome))
        });
        self.delivered(device)
    }

    fn results_applied(&mut self, taken: bool) -> (action: Action)
        requires
            old(self).wf(),
            old(self).phase is Settling,
            world_room(old(self)@, 1),
        ensures
            final(self).wf(),
            ({
                let w = old(self)@;
                let device = w.due[w.due_at as int].device;
                let word = if taken {
                    "results-applied"@
                } else {
                    "results-refused"@
                };
                (final(self)@, action@) == after_delivery(
                    WorldView {
                        due_at: w.due_at + 1,
                        batch_at: 0,
                        phase: Phase::Delivering,
                        ..with_event(w, device, word)
                    },
                    device,
                )
            }),
    {
        let ghost w = self@;
        let n: usize = self.due.len();
        let at: usize = self.due_at;
        let device: usize = self.due[at].device;
        let word: &str = if taken {
            "results-applied"
        } else {
            "results-refused"
        };
        proof {
            assert(w.due[w.due_at as int] == self.due@[at as int]@);
            assert(w.due[w.due_at as int].device < w.devices.len());
            an_event_uses_nothing(w, device, word@, 1);
            assert(at < n);
        }
        self.event(device, word);
        self.due_at = at + 1;
        self.batch_at = 0;
        self.phase = Phase::Delivering;
        assert(self@ =~= WorldView {
            due_at: w.due_at + 1,
            batch_at: 0,
            phase: Phase::Delivering,
            ..with_event(w, device, word@)
        });
        self.delivered(device)
    }

    fn enqueued(&mut self, device: usize, taken: bool) -> (action: Action)
        requires
            old(self).wf(),
            device < old(self).devices@.len(),
            world_room(old(self)@, 1),
        ensures
            final(self).wf(),
            ({
                let v = with_event(
                    old(self)@,
                    device,
                    if taken {
                        "enqueued"@
                    } else {
                        "enqueue-refused"@
                    },
                );
                (final(self)@, action@) == if v.devices[device as int].pending_kill {
                    restarting(v, device, Phase::Killed { device })
                } else {
                    pushing(v, device)
                }
            }),
    {
        let ghost w = self@;
        let word: &str = if taken {
            "enqueued"
        } else {
            "enqueue-refused"
        };
        proof {
            an_event_uses_nothing(w, device, word@, 1);
        }
        self.event(device, word);
        assert(self@.devices[device as int] == self.devices@[device as int]@);
        if self.devices[device].pending_kill {
            self.restart_into(device, Phase::Killed { device })
        } else {
            self.push_step(device)
        }
    }

    fn counted_work(&self, i: usize, from: u64) -> (total: Option<u64>)
        requires
            i < self.devices@.len(),
        ensures
            match total {
                Some(t) => t == from + work_of_all(self@.devices[i as int].pending),
                None => from + work_of_all(self@.devices[i as int].pending) > u64::MAX,
            },
    {
        let pending: &Vec<Outbound> = &self.devices[i].transport.pending;
        let ghost requests = outbound_views(pending@);
        let mut total: u64 = from;
        let mut k: usize = 0;
        assert(requests.take(0) =~= seq![]);
        while k < pending.len()
            invariant
                k <= pending@.len(),
                requests == outbound_views(pending@),
                requests == self@.devices[i as int].pending,
                total == from + work_of_all(requests.take(k as int)),
            decreases pending@.len() - k,
        {
            let ghost next = requests.take(k + 1);
            proof {
                assert(next.drop_last() =~= requests.take(k as int));
                assert(next.last() == pending@[k as int]@);
                work_adds_up(requests, k + 1);
            }
            let more: u64 = match &pending[k].request {
                WireRequest::Push(request) => request.commands.len() as u64,
                _ => 0,
            };
            let sum: u64 = match total.checked_add(more) {
                Some(t) => t,
                None => {
                    return None;
                },
            };
            total = match sum.checked_add(1) {
                Some(t) => t,
                None => {
                    return None;
                },
            };
            k = k + 1;
        }
        assert(requests.take(requests.len() as int) =~= requests);
        Some(total)
    }

    /// Whether the counters of the world have room for whatever it is told next.
    #[must_use]
    pub fn is_ready(&self) -> (r: bool)
        requires
            self.wf(),
        ensures
            r == ready(self@, 12),
    {
        let ghost w = self@;
        let ghost n = w.devices.len();
        let idle: bool = matches!(self.phase, Phase::Idle);
        if self.now_ms > LAST_MS + STEP_MS || idle && self.now_ms > LAST_MS {
            return false;
        }
        let mut work: u64 = 12;
        let mut i: usize = 0;
        while i < self.devices.len()
            invariant
                self.wf(),
                w == self@,
                n == w.devices.len(),
                i <= self.devices@.len(),
                work == 12 + work_for(w.devices, i as nat),
                forall|j: int|
                    0 <= j < i ==> (#[trigger] w.devices[j]).next_id < u64::MAX
                        && w.devices[j].requests_sent + w.devices[j].pending.len() < u64::MAX,
            decreases self.devices@.len() - i,
        {
            let d: &Device = &self.devices[i];
            assert(w.devices[i as int] == d@);
            if d.transport.next_id == u64::MAX || d.requests_sent >= u64::MAX
                - d.transport.pending.len() as u64 {
                return false;
            }
            proof {
                devices_add_up(w.devices, (i + 1) as nat, n);
            }
            work = match self.counted_work(i, work) {
                Some(t) => t,
                None => {
                    assert(w.net.trace.count(Fault::Dropped) >= 0);
                    return false;
                },
            };
            i = i + 1;
        }
        let room: u64 = u64::MAX - work;
        if self.pressure.deferred_commands > room || self.pressure.episodes > room
            || self.server.head() >= room {
            return false;
        }
        let faults: Vec<Fault> = Fault::all();
        let mut k: usize = 0;
        while k < 13
            invariant
                k <= 13,
                faults@ == menu(),
                room == u64::MAX - work,
                work == 12 + work_for(w.devices, w.devices.len()),
                w == self@,
                forall|j: int| 0 <= j < k ==> w.net.trace.count(#[trigger] menu()[j]) <= room,
            decreases 13 - k,
        {
            if self.trace.fault_count(faults[k]) > room {
                return false;
            }
            k = k + 1;
        }
        proof {
            assert forall|f: Fault| (#[trigger] w.net.trace.count(f)) + work <= u64::MAX by {
                menu_is_complete(f);
                assert(w.net.trace.count(menu()[menu_place(f)]) <= room);
            }
        }
        true
    }

    /// Takes in what came of the last thing the world asked, and says what it asks next.
    pub fn advance<W: Codec>(&mut self, event: Event, codec: &W) -> (action: Action)
        requires
            old(self).wf(),
            ready(old(self)@, 12),
            fits(old(self).phase, event@),
            is_function(codec),
        ensures
            final(self).wf(),
            (final(self)@, action@) == advanced(old(self)@, event@, codec),
    {
        let ghost w = self@;
        let ghost work = work_for(w.devices, w.devices.len());
        proof {
            room_shrinks(w.net.trace, work + 12, 1);
            room_shrinks(w.net.trace, work + 12, work + 3);
        }
        match (self.phase, event) {
            (Phase::Idle, Event::Begin) => self.begin(codec),
            (Phase::Restarting { device }, Event::Restarted) => self.author_step(device, codec),
            (Phase::Authoring { device }, Event::Enqueued { taken }) => self.enqueued(device, taken),
            (Phase::Killed { device }, Event::Restarted) => self.push_step(device),
            (Phase::Pushing { device }, Event::PushBuilt { request }) => {
                match request {
                    Some(request) => {
                        if request.commands.len() > 0 {
                            self.send(device, WireRequest::Push(request));
                        }
                    },
                    None => {},
                }
                self.await_in(Phase::Pulling { device });
                Action::FindStanding { device }
            },
            (Phase::Pulling { device }, Event::Stands { standing }) => {
                proof {
                    pulling_adds_one(w, device, standing);
                }
                let n: usize = self.devices.len();
                assert(device < n);
                self.pull_step(device, standing);
                self.device_step(device + 1, codec)
            },
            (Phase::Applying, Event::BatchApplied { outcome }) => self.batch_applied(outcome),
            (Phase::Settling, Event::ResultsApplied { taken }) => self.results_applied(taken),
            (Phase::Delivering, Event::Restarted) => self.deliver_due(),
            _ => Action::Rest,
        }
    }
}

} // verus!
