//! What holds of every run.
use crate::codec::Codec;
use crate::fault::{quiet_rates, FaultRates};
use crate::network::{
    addressed, carried, carried_all, parting_keeps_addresses, rejoining_keeps_addresses, ripe,
    unripe, FlightView, NetView, OutboundView, STEP_MS,
};
use crate::server::{committed, still_waiting, ServerView};
use crate::turn::{
    advanced, armed, at_hand, batch_word, connected, delivering, due_taken, fits, passed_over,
    pull_sent, turn_of, ActionView, EventView,
};
use crate::world::{
    begun, carried_for, moved_on, network_carried, with_event, world_sound, Phase, WorldView,
};
use vstd::prelude::*;

verus! {

/// Nobody writes, no fault is wanted, and no device is about to die.
pub open spec fn calm(w: WorldView) -> bool {
    &&& w.quiet
    &&& w.rates == quiet_rates()
    &&& forall|i: int| 0 <= i < w.devices.len() ==> !(#[trigger] w.devices[i]).pending_kill
}

proof fn calm_carrying<W: Codec>(
    n: NetView,
    now_ms: i64,
    device: usize,
    sent: u64,
    requests: Seq<OutboundView>,
    codec: &W,
)
    ensures
        carried_all(n, quiet_rates(), now_ms, device, sent, requests, codec).trace == n.trace,
    decreases requests.len(),
{
    if requests.len() > 0 {
        calm_carrying(n, now_ms, device, sent, requests.drop_last(), codec);
        let before = carried_all(
            n,
            quiet_rates(),
            now_ms,
            device,
            sent,
            requests.drop_last(),
            codec,
        );
        let index = (sent + requests.len()) as u64;
        assert(carried(
            before,
            quiet_rates(),
            now_ms,
            device,
            index,
            requests.last().request,
            codec,
        ).trace == before.trace);
    }
}

proof fn calm_carrying_for<W: Codec>(w: WorldView, n: nat, codec: &W)
    requires
        calm(w),
    ensures
        carried_for(w, n, codec).trace == w.net.trace,
    decreases n,
{
    if n > 0 {
        calm_carrying_for(w, (n - 1) as nat, codec);
        let d = w.devices[n - 1];
        calm_carrying(
            carried_for(w, (n - 1) as nat, codec),
            w.now_ms,
            (n - 1) as usize,
            d.requests_sent,
            d.pending,
            codec,
        );
    }
}

/// What a calm world does keeps the counts and stays calm, and asks for nothing to be authored.
spec fn stays_calm(w: WorldView, next: (WorldView, ActionView)) -> bool {
    &&& next.0.net.trace.counts == w.net.trace.counts
    &&& calm(next.0)
    &&& !(next.1 is Enqueue)
    &&& !(next.1 is Restart)
}

proof fn calm_delivering(w: WorldView)
    requires
        calm(w),
        addressed(w.due, w.devices.len()),
    ensures
        stays_calm(w, delivering(w)),
    decreases w.due.len() - w.due_at,
{
    reveal(delivering);
    if w.due_at < w.due.len() {
        assert(w.due[w.due_at as int].device < w.devices.len());
        if at_hand(w) is None {
            calm_delivering(passed_over(w));
        } else {
            let v = armed(w, w.due[w.due_at as int].device);
            assert(forall|j: int|
                0 <= j < v.devices.len() ==> !(#[trigger] v.devices[j]).pending_kill);
        }
    }
}

proof fn calm_turn<W: Codec>(w: WorldView, i: usize, codec: &W)
    requires
        calm(w),
        addressed(w.net.in_flight, w.devices.len()),
        addressed(w.net.held, w.devices.len()),
    ensures
        stays_calm(w, turn_of(w, i, codec)),
{
    if i >= w.devices.len() {
        let n = w.devices.len();
        let c = network_carried(w, codec);
        calm_carrying_for(w, n, codec);
        assert(c.net.trace == w.net.trace);
        assert(forall|j: int| 0 <= j < n ==> !(#[trigger] c.devices[j]).pending_kill);
        carrying_keeps_addresses_for(w, n, codec);
        let m = carried_for(w, n, codec);
        rejoining_keeps_addresses(m.in_flight, m.held, m.rng, w.now_ms, n);
        parting_keeps_addresses(c.net.in_flight, c.now_ms, n);
        calm_delivering(due_taken(c));
    } else {
        let c = connected(w, i);
        assert(forall|j: int| 0 <= j < c.devices.len() ==> !(#[trigger] c.devices[j]).pending_kill);
    }
}

proof fn carrying_keeps_addresses<W: Codec>(
    n: NetView,
    rates: FaultRates,
    now_ms: i64,
    device: usize,
    sent: u64,
    requests: Seq<OutboundView>,
    codec: &W,
    devices: nat,
)
    requires
        device < devices,
        addressed(n.in_flight, devices),
        addressed(n.held, devices),
    ensures
        addressed(
            carried_all(n, rates, now_ms, device, sent, requests, codec).in_flight,
            devices,
        ),
        addressed(carried_all(n, rates, now_ms, device, sent, requests, codec).held, devices),
    decreases requests.len(),
{
    if requests.len() > 0 {
        carrying_keeps_addresses(
            n,
            rates,
            now_ms,
            device,
            sent,
            requests.drop_last(),
            codec,
            devices,
        );
    }
}

proof fn carrying_keeps_addresses_for<W: Codec>(w: WorldView, n: nat, codec: &W)
    requires
        n <= w.devices.len(),
        w.devices.len() <= usize::MAX,
        addressed(w.net.in_flight, w.devices.len()),
        addressed(w.net.held, w.devices.len()),
    ensures
        addressed(carried_for(w, n, codec).in_flight, w.devices.len()),
        addressed(carried_for(w, n, codec).held, w.devices.len()),
    decreases n,
{
    if n > 0 {
        carrying_keeps_addresses_for(w, (n - 1) as nat, codec);
        let d = w.devices[n - 1];
        carrying_keeps_addresses(
            carried_for(w, (n - 1) as nat, codec),
            w.rates,
            w.now_ms,
            (n - 1) as usize,
            d.requests_sent,
            d.pending,
            codec,
            w.devices.len(),
        );
    }
}

/// A calm world has no faults: whatever it is told, no fault is added to the counts, nothing is
/// authored, no device is restarted, and the world stays calm.
pub proof fn a_calm_world_has_no_faults<W: Codec>(w: WorldView, event: EventView, codec: &W)
    requires
        calm(w),
        world_sound(w),
        w.devices.len() <= usize::MAX,
        fits(w.phase, event),
    ensures
        ({
            let (v, action) = advanced(w, event, codec);
            &&& v.net.trace.counts == w.net.trace.counts
            &&& calm(v)
            &&& !(action is Enqueue)
            &&& !(action is Restart)
        }),
{
    match w.phase {
        Phase::Idle => {
            let v = begun(w);
            assert(forall|j: int|
                0 <= j < v.devices.len() ==> !(#[trigger] v.devices[j]).pending_kill);
            calm_turn(v, 0, codec);
        },
        Phase::Pushing { device } => {},
        Phase::Pulling { device } => {
            let v = pull_sent(w, device, event->standing);
            assert(forall|j: int|
                0 <= j < v.devices.len() ==> !(#[trigger] v.devices[j]).pending_kill);
            calm_turn(v, (device + 1) as usize, codec);
        },
        Phase::Applying | Phase::Settling => {
            let f = w.due[w.due_at as int];
            assert(f.device < w.devices.len());
            assert(!w.devices[f.device as int].pending_kill);
            calm_delivering(heard(w, event));
        },
        Phase::Delivering => {
            calm_delivering(w);
        },
        _ => {},
    }
}

/// A device that died with its write on disk is restarted before anything else is asked of it, and
/// the kill is then spent.
pub proof fn a_kill_is_a_restart<W: Codec>(w: WorldView, event: EventView, codec: &W, device: usize)
    requires
        world_sound(w),
        fits(w.phase, event),
        match w.phase {
            Phase::Authoring { device: d } => d == device,
            Phase::Applying | Phase::Settling => w.due[w.due_at as int].device == device,
            _ => false,
        },
        w.devices[device as int].pending_kill,
    ensures
        ({
            let (v, action) = advanced(w, event, codec);
            &&& action matches ActionView::Restart { device: d, .. } && d == device
            &&& !v.devices[device as int].pending_kill
        }),
{
    if w.phase is Applying || w.phase is Settling {
        assert(w.due[w.due_at as int].device < w.devices.len());
    }
}

proof fn delivering_asks_for_deliveries(w: WorldView)
    ensures
        ({
            let (v, action) = delivering(w);
            &&& action is ApplyBatch || action is ApplyResults || action is Rest
            &&& v.now_ms == w.now_ms
        }),
    decreases w.due.len() - w.due_at,
{
    reveal(delivering);
    if w.due_at < w.due.len() && at_hand(w) is None {
        delivering_asks_for_deliveries(passed_over(w));
    }
}

proof fn a_turn_takes_no_time<W: Codec>(w: WorldView, i: usize, codec: &W)
    ensures
        ({
            let (v, action) = turn_of(w, i, codec);
            &&& !(action is FindStanding)
            &&& v.now_ms == w.now_ms
        }),
{
    delivering_asks_for_deliveries(due_taken(network_carried(w, codec)));
}

/// The world once it has heard of a delivery, before it goes on with the next.
spec fn heard(w: WorldView, event: EventView) -> WorldView {
    let device = w.due[w.due_at as int].device;
    match event {
        EventView::BatchApplied { outcome } => WorldView {
            batch_at: w.batch_at + 1,
            phase: Phase::Delivering,
            ..with_event(w, device, batch_word(outcome))
        },
        EventView::ResultsApplied { taken } => WorldView {
            due_at: w.due_at + 1,
            batch_at: 0,
            phase: Phase::Delivering,
            ..with_event(
                w,
                device,
                if taken {
                    "results-applied"@
                } else {
                    "results-refused"@
                },
            )
        },
        _ => w,
    }
}

/// A device hands in what it has before it asks for what is new, in every turn: where it stands is
/// only asked when it has just said what it has to hand in, and then it always is.
pub proof fn push_precedes_pull<W: Codec>(w: WorldView, event: EventView, codec: &W, device: usize)
    requires
        fits(w.phase, event),
    ensures
        (advanced(w, event, codec).1 == ActionView::FindStanding { device }) <==> w.phase
            == (Phase::Pushing { device }),
{
    match w.phase {
        Phase::Idle => a_turn_takes_no_time(begun(w), 0, codec),
        Phase::Pulling { device } => a_turn_takes_no_time(
            pull_sent(w, device, event->standing),
            (device + 1) as usize,
            codec,
        ),
        Phase::Applying | Phase::Settling | Phase::Delivering => delivering_asks_for_deliveries(
            heard(w, event),
        ),
        _ => {},
    }
}

/// True time moves by one step when a step begins, and at no other moment.
pub proof fn time_moves_by_steps<W: Codec>(w: WorldView, event: EventView, codec: &W)
    requires
        fits(w.phase, event),
        w.now_ms + STEP_MS <= i64::MAX,
    ensures
        advanced(w, event, codec).0.now_ms == w.now_ms + if w.phase is Idle {
            STEP_MS as int
        } else {
            0
        },
{
    match w.phase {
        Phase::Idle => {
            assert(begun(w).now_ms == moved_on(w).now_ms);
            a_turn_takes_no_time(begun(w), 0, codec);
        },
        Phase::Pulling { device } => a_turn_takes_no_time(
            pull_sent(w, device, event->standing),
            (device + 1) as usize,
            codec,
        ),
        Phase::Applying | Phase::Settling | Phase::Delivering => delivering_asks_for_deliveries(
            heard(w, event),
        ),
        _ => {},
    }
}

/// A response that is in flight is either due or waits for its time, and none is lost or doubled.
pub proof fn responses_are_due_or_wait(flights: Seq<FlightView>, now_ms: i64)
    ensures
        ripe(flights, now_ms).to_multiset().add(unripe(flights, now_ms).to_multiset())
            =~= flights.to_multiset(),
    decreases flights.len(),
{
    broadcast use vstd::seq_lib::group_to_multiset_ensures;

    reveal(Seq::filter);
    if flights.len() > 0 {
        responses_are_due_or_wait(flights.drop_last(), now_ms);
        assert(flights =~= flights.drop_last().push(flights.last()));
        let a = ripe(flights.drop_last(), now_ms);
        let b = unripe(flights.drop_last(), now_ms);
        let x = flights.last();
        if x.deliver_at_ms <= now_ms {
            assert(ripe(flights, now_ms) == a.push(x));
            assert(unripe(flights, now_ms) == b);
        } else {
            assert(ripe(flights, now_ms) == a);
            assert(unripe(flights, now_ms) == b.push(x));
        }
    } else {
        assert(ripe(flights, now_ms) =~= seq![]);
        assert(unripe(flights, now_ms) =~= seq![]);
    }
}

/// A server some steps later, when nothing is written meanwhile.
pub open spec fn committed_for(v: ServerView, steps: nat) -> ServerView
    decreases steps,
{
    if steps == 0 {
        v
    } else {
        committed(committed_for(v, (steps - 1) as nat))
    }
}

proof fn waits_shrink(flights: Seq<(int, u32)>, most: nat)
    requires
        forall|i: int| 0 <= i < flights.len() ==> (#[trigger] flights[i]).1 <= most,
    ensures
        most <= 1 ==> still_waiting(flights).len() == 0,
        most >= 1 ==> forall|i: int|
            0 <= i < still_waiting(flights).len() ==> (#[trigger] still_waiting(flights)[i]).1
                <= most - 1,
    decreases flights.len(),
{
    if flights.len() > 0 {
        assert(flights.last().1 <= most);
        assert forall|i: int| 0 <= i < flights.len() - 1 implies (
        #[trigger] flights.drop_last()[i]).1 <= most by {
            assert(flights[i].1 <= most);
        }
        waits_shrink(flights.drop_last(), most);
        let before = still_waiting(flights.drop_last());
        assert forall|i: int| most >= 1 && 0 <= i < still_waiting(flights).len() implies (
        #[trigger] still_waiting(flights)[i]).1 <= most - 1 by {
            if i < before.len() {
                assert(before[i].1 <= most - 1);
            }
        }
    }
}

proof fn waits_after(v: ServerView, most: nat, steps: nat)
    requires
        steps <= most,
        forall|i: int| 0 <= i < v.in_flight.len() ==> (#[trigger] v.in_flight[i]).1 <= most,
    ensures
        forall|i: int|
            0 <= i < committed_for(v, steps).in_flight.len() ==> (
            #[trigger] committed_for(v, steps).in_flight[i]).1 <= most - steps,
    decreases steps,
{
    if steps > 0 {
        waits_after(v, most, (steps - 1) as nat);
        let before = committed_for(v, (steps - 1) as nat);
        waits_shrink(before.in_flight, (most - (steps - 1)) as nat);
    }
}

/// Writes that are held open commit: once as many steps have passed as the longest of them was to
/// be held, and at least one, nothing is in flight.
pub proof fn held_writes_commit(v: ServerView, most: nat)
    requires
        most >= 1,
        forall|i: int| 0 <= i < v.in_flight.len() ==> (#[trigger] v.in_flight[i]).1 <= most,
    ensures
        committed_for(v, most).in_flight.len() == 0,
{
    waits_after(v, most, (most - 1) as nat);
    waits_shrink(committed_for(v, (most - 1) as nat).in_flight, 1);
}

} // verus!
