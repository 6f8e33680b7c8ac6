//! The world: some devices and one server, driven forward through simulated time.
//!
//! What a device does with its storage is the client engine's business, and the engine is not part
//! of this crate. The world is therefore a machine that is driven from outside: it is told what
//! came of the last thing it asked of an engine, and says what to ask next. Everything else — the
//! time that passes, the faults, the network, the server, the claims that are held against every
//! step — happens here, and the seed alone determines it.
use crate::clock::{apparent, ClockState, SimClock, SimEntropy};
use crate::codec::{is_function, Codec};
use crate::fault::{
    decide_response, menu_is_complete, quiet_rates, response_fault, Fault, FaultRates,
    SKEW_MAGNITUDE_MS,
};
use crate::invariants::{
    all_wf, convergence_found, no_memory, over, over_agrees, policy_found, ConflictClass,
    Invariants, MemoryView, Registry, ViolationView,
};
use crate::ordered::OrderedMap;
use crate::network::{
    addressed, answered_request, carried, carried_all, clone_response, dispatched, flight_views,
    has_room, noted, outbound_views, rejoin, rejoining_keeps_addresses, released,
    repeat_last_change, repeat_last_result, response_view, trace_room, work_of, work_of_all,
    FlightView, InFlight, NetView, OutboundView, RequestView, ResponseView, PULL_LIMIT, STEP_MS,
};
use crate::pressure::{accepted_of, accepting_is_within, overloaded, ticked, Load, Pressure};
use crate::protocol::{CommandId, EntityName, ScopeId};
use crate::rng::{chance_of, range_of, signed_of, start, u64_of, Rng};
use crate::server::{
    answering_takes_few_positions, appended, committed, empty_server, row_name, server_digest,
    unsettled_is_at_most_all, Server, ServerView,
};
use crate::storage::{empty_db, Db, DbView};
use crate::trace::{Trace, TraceView};
use crate::transport::{
    Outbound, SimCompressor, SimTransport, TransportError, WireRequest, WireResponse,
};
use vstd::prelude::*;

verus! {

/// The true time at which every run starts.
pub const START_MS: i64 = 1_756_137_600_000;

/// The latest true time at which a step is taken: what is in flight is due within the range of
/// the clock.
pub const LAST_MS: i64 = 0x7fff_fff0_0000_0000;

/// One simulated device, but for its database and its engine.
#[derive(Debug)]
pub struct Device {
    pub clock: SimClock,
    pub transport: SimTransport,
    /// What the device's engine draws from.
    pub entropy: SimEntropy,
    /// What the device's engine measures with.
    pub compressor: SimCompressor,
    /// True time at which connectivity returns, when flapped; 0 otherwise.
    pub offline_until_ms: i64,
    /// Requests this device has sent, for the periodic drop.
    pub requests_sent: u64,
    /// Commands this device has authored, so that ids stay unique and reproducible.
    pub commands_authored: u8,
    /// Whether the device must be restarted after its next transaction: that transaction commits
    /// and the process dies before it hears so.
    pub pending_kill: bool,
}

/// One simulated device.
#[verifier::ext_equal]
pub struct DeviceView {
    pub clock: ClockState,
    pub pending: Seq<OutboundView>,
    pub next_id: u64,
    pub online: bool,
    pub entropy: u64,
    pub entropy_seed: u64,
    pub ratio: usize,
    pub offline_until_ms: i64,
    pub requests_sent: u64,
    pub commands_authored: u8,
    pub pending_kill: bool,
}

impl View for Device {
    type V = DeviceView;

    open spec fn view(&self) -> DeviceView {
        DeviceView {
            clock: self.clock.0,
            pending: outbound_views(self.transport.pending@),
            next_id: self.transport.next_id,
            online: self.transport.online,
            entropy: self.entropy.0.state(),
            entropy_seed: self.entropy.0.origin(),
            ratio: self.compressor.ratio(),
            offline_until_ms: self.offline_until_ms,
            requests_sent: self.requests_sent,
            commands_authored: self.commands_authored,
            pending_kill: self.pending_kill,
        }
    }
}

/// Some devices.
pub open spec fn device_views(devices: Seq<Device>) -> Seq<DeviceView> {
    devices.map_values(|d: Device| d@)
}

/// What the world is waiting to hear.
#[derive(Debug, Clone, Copy, PartialEq, Eq, Structural)]
pub enum Phase {
    /// Nothing: the next step has not begun.
    Idle,
    /// That a device has restarted, before it takes its turn.
    Restarting { device: usize },
    /// Whether a device's engine took the command.
    Authoring { device: usize },
    /// That a device which died authoring has restarted.
    Killed { device: usize },
    /// What a device has to hand in.
    Pushing { device: usize },
    /// Where a device stands.
    Pulling { device: usize },
    /// What became of a batch.
    Applying,
    /// What became of some results.
    Settling,
    /// That a device which died taking in a response has restarted.
    Delivering,
}

/// The whole simulation, but for the engines.
#[derive(Debug)]
pub struct World {
    pub devices: Vec<Device>,
    /// The devices' databases, one each.
    pub databases: Vec<Db>,
    pub server: Server,
    pub rng: Rng,
    pub rates: FaultRates,
    /// True time.
    pub now_ms: i64,
    pub in_flight: Vec<InFlight>,
    /// Responses held back by a reorder fault, released after the next ones.
    pub held: Vec<InFlight>,
    /// The responses being handed over in this step.
    pub due: Vec<InFlight>,
    /// How many of them are done with.
    pub due_at: usize,
    /// How many batches of the next one are done with.
    pub batch_at: usize,
    /// What the world is waiting to hear.
    pub phase: Phase,
    pub scope: ScopeId,
    pub entity: EntityName,
    /// While set, nobody authors new work: the world is draining, not living.
    pub quiet: bool,
    /// What the run recorded.
    pub trace: Trace,
    /// The claims being held against the run, and anything that has broken one.
    pub invariants: Invariants,
    /// What every device was told of the entities.
    pub registry: Registry,
    /// How hard the server is shedding load.
    pub pressure: Pressure,
}

/// The whole simulation.
#[verifier::ext_equal]
pub struct WorldView {
    pub devices: Seq<DeviceView>,
    pub databases: Seq<DbView>,
    pub net: NetView,
    pub seed: u64,
    pub rates: FaultRates,
    pub now_ms: i64,
    pub due: Seq<FlightView>,
    pub due_at: nat,
    pub batch_at: nat,
    pub phase: Phase,
    pub scope: Seq<char>,
    pub entity: Seq<char>,
    pub quiet: bool,
    pub memory: Map<int, MemoryView>,
    pub found: Seq<ViolationView>,
    pub classes: Map<Seq<char>, ConflictClass>,
}

/// What some databases hold.
pub open spec fn db_views(dbs: Seq<Db>) -> Seq<DbView> {
    dbs.map_values(|d: Db| d@)
}

impl View for World {
    type V = WorldView;

    open spec fn view(&self) -> WorldView {
        WorldView {
            devices: device_views(self.devices@),
            databases: db_views(self.databases@),
            net: NetView {
                rng: self.rng.state(),
                server: self.server@,
                pressure: self.pressure,
                trace: self.trace@,
                in_flight: flight_views(self.in_flight@),
                held: flight_views(self.held@),
            },
            seed: self.rng.origin(),
            rates: self.rates,
            now_ms: self.now_ms,
            due: flight_views(self.due@),
            due_at: self.due_at as nat,
            batch_at: self.batch_at as nat,
            phase: self.phase,
            scope: self.scope@,
            entity: self.entity@,
            quiet: self.quiet,
            memory: Map::new(|i: int| true, |i: int| self.invariants.memory_of(i)),
            found: self.invariants.findings(),
            classes: self.registry.classes@,
        }
    }
}

/// The device that a phase is about is one of the world's, and what was handed over to an engine
/// is the next thing that is due.
pub open spec fn phase_ok(w: WorldView, phase: Phase) -> bool {
    match phase {
        Phase::Restarting { device }
        | Phase::Authoring { device }
        | Phase::Killed { device }
        | Phase::Pushing { device }
        | Phase::Pulling { device } => device < w.devices.len(),
        Phase::Applying => {
            &&& w.due_at < w.due.len()
            &&& w.due[w.due_at as int].response matches ResponseView::Pull { batches, .. }
                && w.batch_at < batches.len()
        },
        Phase::Settling => {
            &&& w.due_at < w.due.len()
            &&& w.due[w.due_at as int].response is Push
        },
        Phase::Idle | Phase::Delivering => true,
    }
}

/// Whether an engine has been handed something that was due.
pub open spec fn handing_over(phase: Phase) -> bool {
    phase is Applying || phase is Settling
}

/// What holds of a world at all times.
pub open spec fn world_sound(w: WorldView) -> bool {
    &&& w.devices.len() == w.databases.len()
    &&& w.net.trace.counts.len() == 13
    &&& START_MS <= w.now_ms
    &&& forall|i: int|
        0 <= i < w.devices.len() ==> (#[trigger] w.devices[i]).clock.epoch_ms == START_MS
            && w.devices[i].clock.now_ms == w.now_ms
    &&& addressed(w.net.in_flight, w.devices.len())
    &&& addressed(w.net.held, w.devices.len())
    &&& addressed(w.due, w.devices.len())
    &&& w.due_at <= w.due.len()
    &&& phase_ok(w, w.phase)
}

impl World {
    /// The parts are in order, and what they say together is sound.
    pub open spec fn wf(&self) -> bool {
        &&& self.server.wf()
        &&& self.pressure.wf()
        &&& self.invariants.wf()
        &&& all_wf(self.databases@)
        &&& self.registry.classes.wf()
        &&& world_sound(self@)
    }
}

/// The world with a fault on record.
pub open spec fn with_fault(w: WorldView, device: usize, f: Fault) -> WorldView {
    WorldView {
        net: NetView { trace: w.net.trace.with_fault(w.now_ms, device, f), ..w.net },
        ..w
    }
}

/// The world with an event on record.
pub open spec fn with_event(w: WorldView, device: usize, what: Seq<char>) -> WorldView {
    WorldView {
        net: NetView { trace: w.net.trace.with_event(w.now_ms, device, what), ..w.net },
        ..w
    }
}

/// The world with the generator in another state.
pub open spec fn with_rng(w: WorldView, s: u64) -> WorldView {
    WorldView { net: NetView { rng: s, ..w.net }, ..w }
}

/// The world with another server.
pub open spec fn with_server(w: WorldView, server: ServerView) -> WorldView {
    WorldView { net: NetView { server, ..w.net }, ..w }
}

/// A step later: the clocks move on, and the writes that were held open commit when their delay
/// has run out.
pub open spec fn moved_on(w: WorldView) -> WorldView {
    let now_ms = (w.now_ms + STEP_MS) as i64;
    WorldView {
        now_ms,
        devices: w.devices.map_values(
            |d: DeviceView| DeviceView { clock: ClockState { now_ms, ..d.clock }, ..d },
        ),
        net: NetView { server: committed(w.net.server), ..w.net },
        ..w
    }
}

/// A writer may hold its transaction open.
pub open spec fn slowed(w: WorldView) -> WorldView {
    if w.quiet {
        w
    } else {
        let (slow, s) = chance_of(w.net.rng, w.rates.slow_commit);
        if slow {
            let (delay, t) = range_of(s, 1, 4);
            with_fault(
                with_server(
                    with_rng(w, t),
                    ServerView { hold_next: delay, ..w.net.server },
                ),
                0,
                Fault::SlowCommit,
            )
        } else {
            with_rng(w, s)
        }
    }
}

/// The server may restart.
pub open spec fn server_restarted(w: WorldView) -> WorldView {
    let (restart, s) = chance_of(w.net.rng, w.rates.server_restart);
    if restart {
        with_fault(
            with_server(with_rng(w, s), ServerView { warm: false, ..w.net.server }),
            0,
            Fault::ServerRestarted,
        )
    } else {
        with_rng(w, s)
    }
}

/// Load eases off, or arrives.
pub open spec fn loaded(w: WorldView) -> WorldView {
    let p = ticked(w.net.pressure);
    let eased = WorldView { net: NetView { pressure: p, ..w.net }, ..w };
    if w.quiet || p.load is Shedding {
        eased
    } else {
        let (hit, s) = chance_of(w.net.rng, w.rates.overload);
        if hit {
            let (q, t) = overloaded(p, s);
            with_fault(
                WorldView { net: NetView { pressure: q, rng: t, ..w.net }, ..w },
                0,
                Fault::Overloaded,
            )
        } else {
            with_rng(eased, s)
        }
    }
}

/// Somebody else may write: another student, a teacher grading.
pub open spec fn written_elsewhere(w: WorldView) -> WorldView {
    if w.quiet {
        w
    } else {
        let (hit, s) = chance_of(w.net.rng, 2);
        if hit {
            let (n, t) = crate::rng::below_of(s, 8);
            with_server(
                with_rng(w, t),
                appended(
                    w.net.server,
                    w.scope,
                    (w.entity, row_name(n as nat)),
                    crate::protocol::Op::Upsert,
                ),
            )
        } else {
            with_rng(w, s)
        }
    }
}

/// The beginning of a step, before any device acts.
pub open spec fn begun(w: WorldView) -> WorldView {
    written_elsewhere(loaded(server_restarted(slowed(moved_on(w)))))
}

/// The counters of the world have room for some faults, and for some positions of the log.
pub open spec fn world_room(w: WorldView, n: nat) -> bool {
    &&& has_room(w.net, n)
    &&& w.net.pressure.episodes + n <= u64::MAX
}

impl World {
    pub(crate) fn fault(&mut self, device: usize, fault: Fault)
        requires
            old(self).wf(),
            world_room(old(self)@, 1),
        ensures
            final(self).wf(),
            final(self)@ == with_fault(old(self)@, device, fault),
    {
        proof {
            menu_is_complete(fault);
        }
        let ghost w = self@;
        self.trace.fault(self.now_ms, device, fault);
        assert(self@ =~= with_fault(w, device, fault));
    }

    fn move_on(&mut self)
        requires
            old(self).wf(),
            old(self).now_ms <= LAST_MS,
        ensures
            final(self).wf(),
            final(self)@ == moved_on(old(self)@),
    {
        let ghost w = self@;
        let now_ms: i64 = self.now_ms + STEP_MS;
        self.now_ms = now_ms;
        let n: usize = self.devices.len();
        let ghost devices = self.devices@;
        let ghost f = |d: DeviceView| DeviceView { clock: ClockState { now_ms, ..d.clock }, ..d };
        let mut i: usize = 0;
        while i < n
            invariant
                i <= n,
                n == self.devices@.len(),
                n == devices.len(),
                f == (|d: DeviceView| DeviceView { clock: ClockState { now_ms, ..d.clock }, ..d }),
                self.now_ms == now_ms,
                self@ == (WorldView { now_ms, devices: device_views(self.devices@), ..w }),
                self.server.wf(),
                self.pressure.wf(),
                self.invariants.wf(),
                all_wf(self.databases@),
                self.registry.classes.wf(),
                forall|j: int|
                    0 <= j < n ==> (#[trigger] self.devices@[j])@ == if j < i {
                        f(devices[j]@)
                    } else {
                        devices[j]@
                    },
            decreases n - i,
        {
            self.devices[i].clock.advance_to(now_ms);
            i = i + 1;
        }
        self.server.advance_commits();
        assert(self@ =~= moved_on(w));
    }

    fn slow_step(&mut self)
        requires
            old(self).wf(),
            world_room(old(self)@, 1),
        ensures
            final(self).wf(),
            final(self)@ == slowed(old(self)@),
    {
        let ghost w = self@;
        if !self.quiet && self.rng.chance(self.rates.slow_commit) {
            let delay: u32 = self.rng.range(1, 4);
            self.server.hold_next_write(delay);
            self.fault(0, Fault::SlowCommit);
        }
        assert(self@ =~= slowed(w));
    }

    fn server_restart_step(&mut self)
        requires
            old(self).wf(),
            world_room(old(self)@, 1),
        ensures
            final(self).wf(),
            final(self)@ == server_restarted(old(self)@),
    {
        let ghost w = self@;
        if self.rng.chance(self.rates.server_restart) {
            self.server.restart_cold();
            self.fault(0, Fault::ServerRestarted);
        }
        assert(self@ =~= server_restarted(w));
    }

    fn load_step(&mut self)
        requires
            old(self).wf(),
            world_room(old(self)@, 2),
        ensures
            final(self).wf(),
            final(self)@ == loaded(old(self)@),
    {
        let ghost w = self@;
        self.pressure.tick();
        if !self.quiet && !self.pressure.is_shedding() && self.rng.chance(self.rates.overload) {
            self.pressure.overload(&mut self.rng);
            self.fault(0, Fault::Overloaded);
        }
        assert(self@ =~= loaded(w));
    }

    fn outside_write_step(&mut self)
        requires
            old(self).wf(),
            world_room(old(self)@, 1),
        ensures
            final(self).wf(),
            final(self)@ == written_elsewhere(old(self)@),
    {
        let ghost w = self@;
        if !self.quiet && self.rng.chance(2) {
            self.server.external_change(&self.scope, &self.entity, &mut self.rng);
        }
        assert(self@ =~= written_elsewhere(w));
    }
}

pub proof fn a_fault_uses_one(t: TraceView, now_ms: i64, device: usize, f: Fault, n: nat)
    requires
        trace_room(t, n + 1),
    ensures
        trace_room(t.with_fault(now_ms, device, f), n),
{
    menu_is_complete(f);
    let v = t.with_fault(now_ms, device, f);
    assert forall|g: Fault| (#[trigger] v.count(g)) + n <= u64::MAX by {
        menu_is_complete(g);
        assert(t.count(g) + n + 1 <= u64::MAX);
    }
}

pub proof fn room_shrinks(t: TraceView, more: nat, n: nat)
    requires
        trace_room(t, more),
        n <= more,
    ensures
        trace_room(t, n),
{
    assert forall|g: Fault| (#[trigger] t.count(g)) + n <= u64::MAX by {
        assert(t.count(g) + more <= u64::MAX);
    }
}

proof fn beginnings_use_little(w: WorldView, n: nat)
    ensures
        world_room(w, n) ==> world_room(moved_on(w), n),
        world_room(w, n + 1) ==> world_room(slowed(w), n),
        world_room(w, n + 1) ==> world_room(server_restarted(w), n),
        world_room(w, n + 1) ==> world_room(loaded(w), n),
        world_room(w, n + 1) ==> world_room(written_elsewhere(w), n),
{
    if world_room(w, n + 1) {
        let t = w.net.trace;
        room_shrinks(t, n + 1, n);
        a_fault_uses_one(t, w.now_ms, 0, Fault::SlowCommit, n);
        a_fault_uses_one(t, w.now_ms, 0, Fault::ServerRestarted, n);
        a_fault_uses_one(t, w.now_ms, 0, Fault::Overloaded, n);
    }
}

pub proof fn a_beginning_uses_little(w: WorldView, n: nat)
    requires
        world_room(w, n + 4),
    ensures
        world_room(begun(w), n),
{
    beginnings_use_little(w, n + 4);
    let a = moved_on(w);
    beginnings_use_little(a, n + 3);
    let b = slowed(a);
    beginnings_use_little(b, n + 2);
    let c = server_restarted(b);
    beginnings_use_little(c, n + 1);
    beginnings_use_little(loaded(c), n);
}

impl World {
    /// Time moves on, and what can happen to the server happens.
    pub(crate) fn begin_step(&mut self)
        requires
            old(self).wf(),
            old(self).now_ms <= LAST_MS,
            world_room(old(self)@, 5),
        ensures
            final(self).wf(),
            final(self)@ == begun(old(self)@),
    {
        proof {
            let a = moved_on(self@);
            beginnings_use_little(self@, 5);
            beginnings_use_little(a, 4);
            let b = slowed(a);
            beginnings_use_little(b, 3);
            beginnings_use_little(server_restarted(b), 2);
        }
        self.move_on();
        self.slow_step();
        self.server_restart_step();
        self.load_step();
        self.outside_write_step();
    }

    /// Sends an answer on its way, with whatever happens to it there.
    fn dispatch(
        &mut self,
        device: usize,
        fault: Option<Fault>,
        answer: Result<WireResponse, TransportError>,
    )
        requires
            old(self).wf(),
            device < old(self).devices@.len(),
            old(self).now_ms <= LAST_MS + STEP_MS,
        ensures
            final(self).wf(),
            final(self)@ == (WorldView {
                net: dispatched(
                    old(self)@.net,
                    old(self).rates,
                    old(self).now_ms,
                    device,
                    fault,
                    response_view(answer),
                ),
                ..old(self)@
            }),
    {
        let ghost w = self@;
        // Severed and malformed both arrive as bytes that do not decode, because that is what the
        // client sees. The distinction matters to the trace.
        let response: Result<WireResponse, TransportError> = match fault {
            Some(Fault::Severed) => Err(
                TransportError::Malformed { detail: "severed mid-batch".to_owned() },
            ),
            Some(Fault::Malformed) => Err(
                TransportError::Malformed { detail: "corrupted bytes".to_owned() },
            ),
            _ => answer,
        };
        let latency: i64 = self.rng.range(self.rates.latency_ms.0, self.rates.latency_ms.1) as i64;
        let deliver_at_ms: i64 = self.now_ms + latency;
        match fault {
            Some(Fault::Duplicated) => {
                // The same answer twice, at different times.
                let extra: i64 = self.rng.range(1, 500) as i64;
                let copy = InFlight {
                    device,
                    deliver_at_ms: deliver_at_ms + extra,
                    response: clone_response(&response),
                };
                let ghost second = copy@;
                self.in_flight.push(copy);
                let flight = InFlight { device, deliver_at_ms, response };
                let ghost first = flight@;
                self.in_flight.push(flight);
                assert(self@.net.in_flight =~= w.net.in_flight.push(second).push(first));
            },
            Some(Fault::Reordered) => {
                let flight = InFlight { device, deliver_at_ms, response };
                let ghost first = flight@;
                self.held.push(flight);
                assert(self@.net.held =~= w.net.held.push(first));
            },
            _ => {
                let flight = InFlight { device, deliver_at_ms, response };
                let ghost first = flight@;
                self.in_flight.push(flight);
                assert(self@.net.in_flight =~= w.net.in_flight.push(first));
            },
        }
    }
}

/// What carrying all that some devices have sent comes to, device by device.
pub open spec fn carried_for<W: Codec>(w: WorldView, n: nat, codec: &W) -> NetView
    decreases n,
{
    if n == 0 {
        w.net
    } else {
        let d = w.devices[n - 1];
        carried_all(
            carried_for(w, (n - 1) as nat, codec),
            w.rates,
            w.now_ms,
            (n - 1) as usize,
            d.requests_sent,
            d.pending,
            codec,
        )
    }
}

/// A device whose requests have been taken.
pub open spec fn emptied(d: DeviceView) -> DeviceView {
    DeviceView {
        pending: seq![],
        requests_sent: (d.requests_sent + d.pending.len()) as u64,
        ..d
    }
}

/// Everything the devices sent is answered, with faults; then what was held back rejoins the queue
/// behind whatever overtook it.
pub open spec fn network_carried<W: Codec>(w: WorldView, codec: &W) -> WorldView {
    let n = carried_for(w, w.devices.len(), codec);
    WorldView {
        net: released(n, w.now_ms),
        devices: w.devices.map_values(|d: DeviceView| emptied(d)),
        ..w
    }
}

/// How much carrying what some devices have sent can add to a counter.
pub open spec fn work_for(devices: Seq<DeviceView>, n: nat) -> nat
    decreases n,
{
    if n == 0 {
        0
    } else {
        work_for(devices, (n - 1) as nat) + work_of_all(devices[n - 1].pending)
    }
}

proof fn faults_of_a_request(
    t: TraceView,
    now_ms: i64,
    device: usize,
    fault: Option<Fault>,
    rest: nat,
)
    requires
        trace_room(t, 1 + rest),
        fault != Some(Fault::ProtocolViolation),
    ensures
        trace_room(noted(t, now_ms, device, fault), rest),
        trace_room(
            noted(t, now_ms, device, fault).with_fault(now_ms, device, Fault::ProtocolViolation),
            rest,
        ),
{
    menu_is_complete(Fault::ProtocolViolation);
    if fault is Some {
        menu_is_complete(fault.unwrap());
    }
    let once = noted(t, now_ms, device, fault);
    let twice = once.with_fault(now_ms, device, Fault::ProtocolViolation);
    assert forall|g: Fault| (#[trigger] once.count(g)) + rest <= u64::MAX by {
        menu_is_complete(g);
        assert(t.count(g) + 1 + rest <= u64::MAX);
    }
    assert forall|g: Fault| (#[trigger] twice.count(g)) + rest <= u64::MAX by {
        menu_is_complete(g);
        assert(t.count(g) + 1 + rest <= u64::MAX);
    }
}

proof fn carrying_uses_its_work<W: Codec>(
    n: NetView,
    rates: FaultRates,
    now_ms: i64,
    device: usize,
    index: u64,
    request: RequestView,
    codec: &W,
    rest: nat,
)
    requires
        has_room(n, work_of(request) + rest),
        n.pressure.severity >= 1,
    ensures
        has_room(carried(n, rates, now_ms, device, index, request, codec), rest),
        carried(n, rates, now_ms, device, index, request, codec).pressure.severity
            == n.pressure.severity,
        carried(n, rates, now_ms, device, index, request, codec).pressure.episodes
            == n.pressure.episodes,
{
    let (fault, s) = response_fault(n.rng, rates, index);
    room_shrinks(n.trace, work_of(request) + rest, 1 + rest);
    faults_of_a_request(n.trace, now_ms, device, fault, rest);
    if let RequestView::Push { protocol, commands } = request {
        let offered = commands.len() as int;
        accepting_is_within(n.pressure.load, n.pressure.severity, offered);
        let taken = accepted_of(n.pressure.load, n.pressure.severity, offered);
        let (violate, t) = chance_of(s, rates.protocol_violation);
        unsettled_is_at_most_all(n.server, commands.take(taken));
        answering_takes_few_positions(n.server, commands.take(taken), t);
    }
}

impl World {
    /// Answers one request, and sends the answer on its way.
    fn carry_one<W: Codec>(&mut self, device: usize, index: u64, request: &WireRequest, codec: &W)
        requires
            old(self).wf(),
            device < old(self).devices@.len(),
            old(self).now_ms <= LAST_MS + STEP_MS,
            is_function(codec),
            has_room(old(self)@.net, work_of(request@)),
        ensures
            final(self).wf(),
            final(self)@ == (WorldView {
                net: carried(
                    old(self)@.net,
                    old(self).rates,
                    old(self).now_ms,
                    device,
                    index,
                    request@,
                    codec,
                ),
                ..old(self)@
            }),
    {
        let ghost w = self@;
        let fault: Option<Fault> = decide_response(&mut self.rng, &self.rates, index);
        if let Some(f) = fault {
            proof {
                menu_is_complete(f);
                menu_is_complete(Fault::ProtocolViolation);
                assert(w.net.trace.count(f) + 1 <= u64::MAX);
            }
            self.trace.fault(self.now_ms, device, f);
        }
        let ghost arrived = NetView {
            rng: self.rng.state(),
            trace: noted(w.net.trace, w.now_ms, device, fault),
            ..w.net
        };
        assert(self@ =~= WorldView { net: arrived, ..w });
        if matches!(fault, Some(Fault::Dropped)) {
            return;
        }
        // A server that decodes cleanly and is still wrong: a buggy or hostile peer.
        let violate: bool = self.rng.chance(self.rates.protocol_violation);
        proof {
            menu_is_complete(Fault::ProtocolViolation);
            assert(w.net.trace.count(Fault::ProtocolViolation) + 1 <= u64::MAX);
            assert(self.trace@.count(Fault::ProtocolViolation) == w.net.trace.count(
                Fault::ProtocolViolation,
            ));
        }
        let answer: Result<WireResponse, TransportError> = match request {
            WireRequest::Bootstrap(_) => {
                assert(self@ =~= WorldView { net: NetView { rng: self.rng.state(), ..arrived }, ..w });
                return;
            },
            WireRequest::Pull(req) => {
                let budget: usize = self.pressure.budget_bytes();
                let mut response = self.server.pull(req, PULL_LIMIT, budget, codec);
                if violate && repeat_last_change(&mut response) {
                    self.trace.fault(self.now_ms, device, Fault::ProtocolViolation);
                }
                Ok(WireResponse::Pull(response))
            },
            WireRequest::Push(req) => {
                // A loaded server looks at a prefix and answers only that. The rest stays queued,
                // because a client settles only what it is told about.
                let accepted: usize = self.pressure.accept_count(req.commands.len());
                proof {
                    unsettled_is_at_most_all(self.server@, req.commands@);
                }
                let mut response = self.server.push_prefix(req, accepted, &mut self.rng);
                if violate && repeat_last_result(&mut response) {
                    self.trace.fault(self.now_ms, device, Fault::ProtocolViolation);
                }
                Ok(WireResponse::Push(response))
            },
        };
        self.dispatch(device, fault, answer);
        assert(self@.net == answered_request(
            NetView { rng: chance_of(arrived.rng, w.rates.protocol_violation).1, ..arrived },
            w.rates,
            w.now_ms,
            device,
            fault,
            violate,
            request@,
            codec,
        ));
    }
}

/// The work of some devices is that of what they have sent.
pub proof fn same_requests_same_work(a: Seq<DeviceView>, b: Seq<DeviceView>, n: nat)
    requires
        forall|i: int| 0 <= i < n ==> (#[trigger] a[i]).pending == b[i].pending,
    ensures
        work_for(a, n) == work_for(b, n),
    decreases n,
{
    if n > 0 {
        same_requests_same_work(a, b, (n - 1) as nat);
        assert(a[n - 1].pending == b[n - 1].pending);
    }
}

/// What one device sends more adds its own work.
pub proof fn work_of_one_more(a: Seq<DeviceView>, i: int, d: DeviceView, n: nat)
    requires
        0 <= i < a.len(),
        n <= a.len(),
    ensures
        work_for(a.update(i, d), n) == work_for(a, n) + if i < n {
            work_of_all(d.pending) - work_of_all(a[i].pending)
        } else {
            0
        },
    decreases n,
{
    if n > 0 {
        work_of_one_more(a, i, d, (n - 1) as nat);
    }
}

/// Some requests are no more work than all of them.
pub proof fn work_adds_up(requests: Seq<OutboundView>, i: int)
    requires
        0 <= i <= requests.len(),
    ensures
        work_of_all(requests.take(i)) <= work_of_all(requests),
    decreases requests.len() - i,
{
    if i < requests.len() {
        work_adds_up(requests, i + 1);
        let next = requests.take(i + 1);
        assert(next.drop_last() =~= requests.take(i));
    } else {
        assert(requests.take(i) =~= requests);
    }
}

/// Some devices are no more work than all of them.
pub proof fn devices_add_up(devices: Seq<DeviceView>, n: nat, all: nat)
    requires
        n <= all,
    ensures
        work_for(devices, n) <= work_for(devices, all),
    decreases all - n,
{
    if n < all {
        devices_add_up(devices, n + 1, all);
    }
}

impl World {
    /// Answers all that one device has sent.
    fn carry_device<W: Codec>(&mut self, i: usize, codec: &W, Ghost(rest): Ghost<nat>)
        requires
            old(self).wf(),
            i < old(self).devices@.len(),
            old(self).now_ms <= LAST_MS + STEP_MS,
            is_function(codec),
            has_room(old(self)@.net, work_of_all(old(self)@.devices[i as int].pending) + rest),
            old(self)@.devices[i as int].requests_sent + old(self)@.devices[i as int].pending.len()
                <= u64::MAX,
        ensures
            final(self).wf(),
            ({
                let w = old(self)@;
                let d = w.devices[i as int];
                final(self)@ == WorldView {
                    net: carried_all(
                        w.net,
                        w.rates,
                        w.now_ms,
                        i,
                        d.requests_sent,
                        d.pending,
                        codec,
                    ),
                    devices: w.devices.update(i as int, emptied(d)),
                    ..w
                }
            }),
            has_room(final(self)@.net, rest),
            final(self)@.net.pressure.episodes == old(self)@.net.pressure.episodes,
    {
        let ghost w = self@;
        let ghost d = w.devices[i as int];
        assert(d == self.devices@[i as int]@);
        let taken: Vec<Outbound> = self.devices[i].transport.drain();
        let ghost requests = d.pending;
        assert(requests == outbound_views(taken@));
        let n: usize = taken.len();
        let sent: u64 = self.devices[i].requests_sent;
        self.devices[i].requests_sent = sent + n as u64;
        let ghost devices = w.devices.update(i as int, emptied(d));
        proof {
            assert(self.devices@[i as int]@ =~= emptied(d));
            assert(device_views(self.devices@) =~= devices);
            assert(requests.take(0) =~= seq![]);
            assert(self@ =~= WorldView { devices, ..w });
        }
        let mut k: usize = 0;
        while k < n
            invariant
                k <= n,
                n == taken@.len(),
                requests == outbound_views(taken@),
                sent + n <= u64::MAX,
                i < w.devices.len(),
                w.devices.len() == devices.len(),
                is_function(codec),
                w.now_ms <= LAST_MS + STEP_MS,
                self.wf(),
                self@ == (WorldView {
                    net: carried_all(
                        w.net,
                        w.rates,
                        w.now_ms,
                        i,
                        sent,
                        requests.take(k as int),
                        codec,
                    ),
                    devices,
                    ..w
                }),
                has_room(
                    self@.net,
                    (work_of_all(requests) - work_of_all(requests.take(k as int)) + rest) as nat,
                ),
                work_of_all(requests.take(k as int)) <= work_of_all(requests),
                self@.net.pressure.episodes == w.net.pressure.episodes,
            decreases n - k,
        {
            let ghost next = requests.take(k + 1);
            let ghost request = requests[k as int].request;
            let ghost left = (work_of_all(requests) - work_of_all(next) + rest) as nat;
            proof {
                work_adds_up(requests, k + 1);
                assert(next.drop_last() =~= requests.take(k as int));
                assert(next.last() == requests[k as int]);
                assert(taken@[k as int].request@ == request);
                room_shrinks(self@.net.trace, work_of(request) + left, work_of(request));
                carrying_uses_its_work(
                    self@.net,
                    w.rates,
                    w.now_ms,
                    i,
                    (sent + k + 1) as u64,
                    request,
                    codec,
                    left,
                );
            }
            let index: u64 = sent + k as u64 + 1;
            self.carry_one(i, index, &taken[k].request, codec);
            k = k + 1;
        }
        assert(requests.take(n as int) =~= requests);
    }

    /// Lets what was held back rejoin the queue.
    fn release(&mut self)
        requires
            old(self).wf(),
            old(self).now_ms <= LAST_MS + STEP_MS,
        ensures
            final(self).wf(),
            final(self)@ == (WorldView {
                net: released(old(self)@.net, old(self).now_ms),
                ..old(self)@
            }),
    {
        let ghost w = self@;
        let mut held: Vec<InFlight> = Vec::new();
        core::mem::swap(&mut held, &mut self.held);
        proof {
            rejoining_keeps_addresses(
                w.net.in_flight,
                w.net.held,
                w.net.rng,
                w.now_ms,
                w.devices.len(),
            );
            assert(flight_views(self.held@) =~= seq![]);
        }
        rejoin(&mut self.in_flight, held, &mut self.rng, self.now_ms);
        assert(self@ =~= WorldView { net: released(w.net, w.now_ms), ..w });
    }

    /// Takes everything the devices sent, answers it, and applies faults.
    pub(crate) fn carry_network<W: Codec>(&mut self, codec: &W, Ghost(rest): Ghost<nat>)
        requires
            old(self).wf(),
            old(self).now_ms <= LAST_MS + STEP_MS,
            is_function(codec),
            has_room(
                old(self)@.net,
                work_for(old(self)@.devices, old(self)@.devices.len()) + rest,
            ),
            forall|i: int|
                0 <= i < old(self)@.devices.len() ==> (#[trigger] old(self)@.devices[i]).requests_sent
                    + old(self)@.devices[i].pending.len() <= u64::MAX,
        ensures
            final(self).wf(),
            final(self)@ == network_carried(old(self)@, codec),
            has_room(final(self)@.net, rest),
            final(self)@.net.pressure.episodes == old(self)@.net.pressure.episodes,
    {
        let ghost w = self@;
        let n: usize = self.devices.len();
        let ghost total = work_for(w.devices, n as nat);
        let mut i: usize = 0;
        assert(self@ =~= WorldView { net: carried_for(w, 0, codec), devices: w.devices, ..w });
        while i < n
            invariant
                i <= n,
                n == w.devices.len(),
                self.wf(),
                w.now_ms <= LAST_MS + STEP_MS,
                is_function(codec),
                total == work_for(w.devices, n as nat),
                work_for(w.devices, i as nat) <= total,
                has_room(self@.net, (total - work_for(w.devices, i as nat) + rest) as nat),
                self@.net.pressure.episodes == w.net.pressure.episodes,
                forall|j: int|
                    0 <= j < n ==> (#[trigger] w.devices[j]).requests_sent
                        + w.devices[j].pending.len() <= u64::MAX,
                self@ == (WorldView {
                    net: carried_for(w, i as nat, codec),
                    devices: self@.devices,
                    ..w
                }),
                self@.devices.len() == n,
                forall|j: int|
                    0 <= j < n ==> (#[trigger] self@.devices[j]) == if j < i {
                        emptied(w.devices[j])
                    } else {
                        w.devices[j]
                    },
            decreases n - i,
        {
            let ghost left = (total - work_for(w.devices, (i + 1) as nat) + rest) as nat;
            proof {
                devices_add_up(w.devices, (i + 1) as nat, n as nat);
            }
            self.carry_device(i, codec, Ghost(left));
            i = i + 1;
            assert(self@ =~= WorldView {
                net: carried_for(w, i as nat, codec),
                devices: self@.devices,
                ..w
            });
        }
        assert(self@.devices =~= w.devices.map_values(|d: DeviceView| emptied(d)));
        self.release();
        assert(self@ =~= network_carried(w, codec));
    }
}

/// How many steps a world is given to settle in: enough for the slowest device to walk the whole
/// log at [`PULL_LIMIT`] changes per pull, with the latency of each round trip.
pub const SETTLE_STEPS: u32 = 600;

/// A device as the run's generator makes it, and the state of the generator after. Each has its
/// own skew and drift: device clocks lie, so none of them agree with the world or each other.
pub open spec fn drawn_device(s: u64) -> (DeviceView, u64) {
    let (skew_ms, s1) = signed_of(s, SKEW_MAGNITUDE_MS);
    let (drift, s2) = range_of(s1, 0, 400);
    let (seed, s3) = u64_of(s2);
    let (ratio, s4) = range_of(s3, 1, 8);
    (
        DeviceView {
            clock: ClockState {
                now_ms: START_MS,
                skew_ms,
                drift_ppm: (drift - 200) as i64,
                epoch_ms: START_MS,
            },
            pending: seq![],
            next_id: 0,
            online: true,
            entropy: start(seed),
            entropy_seed: seed,
            ratio: ratio as usize,
            offline_until_ms: 0,
            requests_sent: 0,
            commands_authored: 0,
            pending_kill: false,
        },
        s4,
    )
}

/// Some devices, one after the other.
pub open spec fn drawn_devices(s: u64, n: nat) -> (Seq<DeviceView>, u64)
    decreases n,
{
    if n == 0 {
        (seq![], s)
    } else {
        let (before, t) = drawn_devices(s, (n - 1) as nat);
        let (d, u) = drawn_device(t);
        (before.push(d), u)
    }
}

/// A world at its start, as the seed makes it.
pub open spec fn new_world(seed: u64, rates: FaultRates, trace: TraceView) -> WorldView {
    let scope = "inst:adl:enr:2026-cohort"@;
    let entity = "reflections"@;
    let (count, s) = range_of(start(seed), 2, 4);
    let (devices, t) = drawn_devices(s, count as nat);
    WorldView {
        devices,
        databases: Seq::new(count as nat, |i: int| empty_db()),
        net: NetView {
            rng: t,
            server: ServerView {
                targets: Map::empty().insert("submit_reflection"@, (entity, scope)),
                ..empty_server()
            },
            pressure: Pressure {
                load: Load::Normal,
                severity: 1,
                deferred_commands: 0,
                episodes: 0,
            },
            trace,
            in_flight: seq![],
            held: seq![],
        },
        seed,
        rates,
        now_ms: START_MS,
        due: seq![],
        due_at: 0,
        batch_at: 0,
        phase: Phase::Idle,
        scope,
        entity,
        quiet: false,
        memory: Map::new(|i: int| true, |i: int| no_memory()),
        found: seq![],
        classes: Map::empty().insert(entity, ConflictClass::OwnerDraft),
    }
}

/// Every command that some devices ever enqueued.
pub open spec fn ever_enqueued(dbs: Seq<DbView>) -> Set<u128>
    decreases dbs.len(),
{
    if dbs.len() == 0 {
        Set::empty()
    } else {
        ever_enqueued(dbs.drop_last()).union(dbs.last().enqueued)
    }
}

/// One of the first `n` ids is this one.
spec fn is_among(ids: Seq<CommandId>, n: int, id: u128) -> bool {
    exists|j: int| 0 <= j < n && (#[trigger] ids[j]).raw == id
}

/// The world with a perfect network, where nobody writes.
pub open spec fn quieted(w: WorldView) -> WorldView {
    WorldView {
        rates: quiet_rates(),
        quiet: true,
        devices: w.devices.map_values(|d: DeviceView| DeviceView { online: true, ..d }),
        ..w
    }
}

/// The world once it has settled, with what the last two claims come to.
pub open spec fn settled<W: Codec>(w: WorldView, hostile: FaultRates, codec: &W) -> WorldView {
    let n = w.databases.len();
    let head = (w.net.server.next_seq - 1) as u64;
    let digest = server_digest(w.net.server.log, w.scope, codec);
    WorldView {
        rates: hostile,
        quiet: false,
        found: w.found + over(
            |i: int|
                convergence_found(w.databases[i], w.scope, digest, head, i as usize, w.now_ms),
            n,
        ) + over(|i: int| policy_found(w.databases[i], w.classes, i as usize, w.now_ms), n),
        ..w
    }
}

impl Device {
    fn draw(rng: &mut Rng) -> (d: Self)
        ensures
            (d@, final(rng).state()) == drawn_device(old(rng).state()),
            final(rng).origin() == old(rng).origin(),
    {
        let skew_ms: i64 = rng.signed(SKEW_MAGNITUDE_MS);
        let drift_ppm: i64 = rng.range(0, 400) as i64 - 200;
        let seed: u64 = rng.next_u64();
        let ratio: usize = rng.range(1, 8) as usize;
        let d = Device {
            clock: SimClock::new(START_MS, skew_ms, drift_ppm),
            transport: SimTransport::new(),
            entropy: SimEntropy::new(seed),
            compressor: SimCompressor::with_ratio(ratio),
            offline_until_ms: 0,
            requests_sent: 0,
            commands_authored: 0,
            pending_kill: false,
        };
        assert(d@.pending =~= seq![]);
        d
    }
}

/// Declares the entity that every device of a run uses.
fn register(registry: &mut Registry, entity: &EntityName)
    requires
        old(registry).classes.wf(),
    ensures
        final(registry).classes.wf(),
        final(registry).classes@ == old(registry).classes@.insert(
            entity@,
            ConflictClass::OwnerDraft,
        ),
{
    registry.register_entity(entity.clone(), ConflictClass::OwnerDraft);
}

impl World {
    /// Builds a world from a seed. Everything that varies between runs is drawn here from the
    /// seeded generator, so the seed alone determines the whole shape of the run.
    #[must_use]
    pub fn new(seed: u64, rates: FaultRates, trace: Trace) -> (world: Self)
        ensures
            world.wf(),
            world@ == new_world(seed, rates, trace@),
    {
        let mut rng = Rng::new(seed);
        let scope: ScopeId = ScopeId::new("inst:adl:enr:2026-cohort");
        let entity: EntityName = EntityName::new("reflections");
        let count: u32 = rng.range(2, 4);
        let ghost s = rng.state();
        let mut server = Server::new();
        server.register_command("submit_reflection", entity.clone(), scope.clone());
        // The same declaration every device is built with, so that the policy is held against
        // what the host registered.
        let mut registry = Registry::new();
        register(&mut registry, &entity);
        let mut devices: Vec<Device> = Vec::new();
        let mut databases: Vec<Db> = Vec::new();
        assert(device_views(devices@) =~= seq![]);
        let mut i: u32 = 0;
        while i < count
            invariant
                i <= count,
                devices@.len() == i,
                databases@.len() == i,
                all_wf(databases@),
                forall|j: int| 0 <= j < i ==> (#[trigger] databases@[j])@ == empty_db(),
                forall|j: int|
                    0 <= j < i ==> (#[trigger] devices@[j])@.clock.epoch_ms == START_MS
                        && devices@[j]@.clock.now_ms == START_MS,
                (device_views(devices@), rng.state()) == drawn_devices(s, i as nat),
                rng.origin() == seed,
            decreases count - i,
        {
            let ghost before = device_views(devices@);
            let d = Device::draw(&mut rng);
            let ghost one = d@;
            devices.push(d);
            databases.push(Db::new());
            assert(device_views(devices@) =~= before.push(one));
            i = i + 1;
        }
        let world = World {
            devices,
            databases,
            server,
            rng,
            rates,
            now_ms: START_MS,
            in_flight: Vec::new(),
            held: Vec::new(),
            due: Vec::new(),
            due_at: 0,
            batch_at: 0,
            phase: Phase::Idle,
            scope,
            entity,
            quiet: false,
            trace,
            invariants: Invariants::new(),
            registry,
            pressure: Pressure::new(),
        };
        proof {
            let w = world@;
            let v = new_world(seed, rates, trace@);
            trace.counts_the_menu();
            assert(w.devices =~= v.devices);
            assert(w.databases =~= v.databases);
            assert(w.net =~= v.net);
            assert(w.memory =~= v.memory);
            assert(w.found =~= v.found);
            assert(w =~= v);
        }
        world
    }

    /// How many distinct commands the server has recorded an outcome for.
    #[must_use]
    pub fn server_answered_commands(&self) -> (n: usize)
        requires
            self.wf(),
        ensures
            n == self@.net.server.dedupe.dom().len(),
    {
        self.server.answered_commands()
    }

    /// Whether the server recorded an outcome for this command id.
    #[must_use]
    pub fn server_has_answered(&self, id: &CommandId) -> (r: bool)
        requires
            self.wf(),
        ensures
            r == self@.net.server.dedupe.dom().contains(id.raw),
    {
        self.server.has_answered(id)
    }

    /// Every command any device ever enqueued, counted once.
    #[must_use]
    pub fn commands_ever_enqueued(&self) -> (n: usize)
        requires
            self.wf(),
        ensures
            ever_enqueued(self@.databases).finite(),
            n == ever_enqueued(self@.databases).len(),
    {
        let mut ids: OrderedMap<CommandId, ()> = OrderedMap::new();
        let ghost dbs = self@.databases;
        let mut i: usize = 0;
        assert(dbs.take(0) =~= seq![]);
        assert(ids@.dom() =~= ever_enqueued(dbs.take(0)));
        while i < self.databases.len()
            invariant
                self.wf(),
                dbs == self@.databases,
                i <= self.databases@.len(),
                ids.wf(),
                ids@.dom() == ever_enqueued(dbs.take(i as int)),
            decreases self.databases@.len() - i,
        {
            let ghost next = dbs.take(i + 1);
            let ghost before = ids@.dom();
            proof {
                assert(next.drop_last() =~= dbs.take(i as int));
                assert(next.last() == self.databases@[i as int]@);
            }
            let own: Vec<CommandId> = self.databases[i].enqueued_ids();
            let mut k: usize = 0;
            while k < own.len()
                invariant
                    k <= own@.len(),
                    ids.wf(),
                    forall|id: u128| #[trigger]
                        ids@.dom().contains(id) <==> before.contains(id) || is_among(
                            own@,
                            k as int,
                            id,
                        ),
                decreases own@.len() - k,
            {
                let ghost had = ids@.dom();
                let ghost one = own@[k as int].raw;
                ids.insert(own[k], ());
                assert forall|id: u128| #[trigger]
                    ids@.dom().contains(id) <==> before.contains(id) || is_among(
                        own@,
                        k + 1,
                        id,
                    ) by {
                    assert(ids@.dom().contains(id) <==> had.contains(id) || id == one);
                    assert(is_among(own@, k + 1, id) <==> is_among(own@, k as int, id) || id == one)
                        by {
                        assert(own@[k as int].raw == one);
                    }
                }
                k = k + 1;
            }
            proof {
                let all = ever_enqueued(next);
                assert forall|id: u128| #[trigger] ids@.dom().contains(id) <==> all.contains(id) by {
                    assert(is_among(own@, own@.len() as int, id) <==> next.last().enqueued.contains(
                        id,
                    ));
                    assert(all.contains(id) <==> before.contains(id) || next.last().enqueued.contains(
                        id,
                    ));
                }
                assert(ids@.dom() =~= all);
            }
            i = i + 1;
        }
        proof {
            assert(dbs.take(dbs.len() as int) =~= dbs);
            ids.len_is();
        }
        ids.len()
    }

    /// Switches the faults off and lets nobody write, so that everyone can catch up. Gives back
    /// the rates there were.
    pub fn begin_settling(&mut self) -> (hostile: FaultRates)
        requires
            old(self).wf(),
        ensures
            final(self).wf(),
            hostile == old(self).rates,
            final(self)@ == quieted(old(self)@),
    {
        let ghost w = self@;
        let hostile: FaultRates = self.rates;
        self.rates = FaultRates::none();
        self.quiet = true;
        let n: usize = self.devices.len();
        let ghost devices = w.devices;
        let mut i: usize = 0;
        assert(self@ =~= WorldView { rates: quiet_rates(), quiet: true, ..w });
        while i < n
            invariant
                i <= n,
                n == self.devices@.len(),
                n == devices.len(),
                self@ == (WorldView {
                    rates: quiet_rates(),
                    quiet: true,
                    devices: device_views(self.devices@),
                    ..w
                }),
                self.server.wf(),
                self.pressure.wf(),
                self.invariants.wf(),
                all_wf(self.databases@),
                self.registry.classes.wf(),
                forall|j: int|
                    0 <= j < n ==> (#[trigger] self.devices@[j])@ == if j < i {
                        DeviceView { online: true, ..devices[j] }
                    } else {
                        devices[j]
                    },
            decreases n - i,
        {
            self.devices[i].transport.online = true;
            i = i + 1;
        }
        assert(self@.devices =~= quieted(w).devices);
        assert(self@ =~= quieted(w));
        hostile
    }

    /// Ends the quiet, and judges where things have settled. A device that still disagrees after
    /// that is divergent. Every write must have committed: an uncommitted one is a change that no
    /// client could have been given.
    pub fn end_settling<W: Codec>(&mut self, hostile: FaultRates, codec: &W)
        requires
            old(self).wf(),
            old(self)@.net.server.in_flight.len() == 0,
            is_function(codec),
        ensures
            final(self).wf(),
            final(self)@ == settled(old(self)@, hostile, codec),
    {
        let ghost w = self@;
        let ghost n = w.databases.len();
        let ghost dbs = self.databases@;
        let ghost head = (w.net.server.next_seq - 1) as u64;
        let ghost digest = server_digest(w.net.server.log, w.scope, codec);
        let ghost before = self.invariants;
        self.rates = hostile;
        self.quiet = false;
        self.invariants.check_convergence(
            self.now_ms,
            &self.databases,
            &self.server,
            &self.scope,
            codec,
        );
        self.invariants.check_policy(self.now_ms, &self.databases, &self.registry);
        proof {
            over_agrees(
                |i: int|
                    convergence_found(dbs[i]@, w.scope, digest, head, i as usize, w.now_ms),
                |i: int|
                    convergence_found(w.databases[i], w.scope, digest, head, i as usize, w.now_ms),
                n,
            );
            over_agrees(
                |i: int| policy_found(dbs[i]@, w.classes, i as usize, w.now_ms),
                |i: int| policy_found(w.databases[i], w.classes, i as usize, w.now_ms),
                n,
            );
            assert forall|i: int| self@.memory[i] == w.memory[i] by {
                assert(self.invariants.memory_of(i) == before.memory_of(i));
            }
            assert(self@.memory =~= w.memory);
            assert(self@.found =~= settled(w, hostile, codec).found);
            assert(self@ =~= settled(w, hostile, codec));
        }
    }

    /// How many devices this run has.
    #[must_use]
    pub fn device_count(&self) -> (n: usize)
        ensures
            n == self@.devices.len(),
    {
        self.devices.len()
    }

    /// Simulated milliseconds elapsed.
    #[must_use]
    pub fn elapsed_ms(&self) -> (ms: i64)
        requires
            self.wf(),
        ensures
            ms == self.now_ms - START_MS,
    {
        self.now_ms - START_MS
    }

    /// Every device's database.
    #[must_use]
    pub fn databases(&self) -> (dbs: &Vec<Db>)
        ensures
            *dbs == self.databases,
    {
        &self.databases
    }

    /// The server.
    #[must_use]
    pub fn server(&self) -> (server: &Server)
        ensures
            *server == self.server,
    {
        &self.server
    }

    /// The scope every device in this run subscribes to.
    #[must_use]
    pub fn scope(&self) -> (scope: &ScopeId)
        ensures
            *scope == self.scope,
    {
        &self.scope
    }

    /// Turns off the server's commit-order guard, so that it hands over changes whose
    /// predecessors have not committed. For drills: the claims must catch such a server.
    pub fn disable_commit_order_guard(&mut self)
        requires
            old(self).wf(),
        ensures
            final(self).wf(),
            final(self)@ == with_server(
                old(self)@,
                ServerView { guard: false, ..old(self)@.net.server },
            ),
    {
        let ghost w = self@;
        self.server.set_commit_order_guard(false);
        assert(self@ =~= with_server(w, ServerView { guard: false, ..w.net.server }));
    }

    /// What the time is, and what each device believes it is.
    #[must_use]
    pub fn apparent_times_ms(&self) -> (times: (i64, Vec<i64>))
        requires
            self.wf(),
        ensures
            times.0 == self.now_ms,
            times.1@.len() == self@.devices.len(),
            forall|i: int|
                0 <= i < times.1@.len() ==> #[trigger] times.1@[i] == apparent(
                    self@.devices[i].clock,
                ),
    {
        let mut seen: Vec<i64> = Vec::new();
        let mut i: usize = 0;
        while i < self.devices.len()
            invariant
                self.wf(),
                i <= self.devices@.len(),
                seen@.len() == i,
                forall|j: int|
                    0 <= j < i ==> #[trigger] seen@[j] == apparent(self@.devices[j].clock),
            decreases self.devices@.len() - i,
        {
            assert(self@.devices[i as int].clock.epoch_ms == START_MS);
            seen.push(self.devices[i].clock.now());
            i = i + 1;
        }
        (self.now_ms, seen)
    }
}

} // verus!
