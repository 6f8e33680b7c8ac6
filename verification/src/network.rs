//! Carrying requests and responses, badly: what the network does to each, as a function of the
//! state of the run.
use crate::codec::Codec;
use crate::fault::{response_fault, Fault, FaultRates};
use crate::pressure::{accepted_of, budget_of, Pressure};
use crate::protocol::{
    batch_views, result_views, BatchView, Change, Command, CommandResult, Cursor, ProtocolVersion,
    PullResponse, PushResponse, ResultView,
};
use crate::rng::{chance_of, range_of, Rng};
use crate::server::{answered_all, pulled, scope_cursors, ServerView};
use crate::trace::TraceView;
use crate::transport::{Outbound, TransportError, WireRequest, WireResponse};
use vstd::prelude::*;

verus! {

/// How long one step of simulated time lasts.
pub const STEP_MS: i64 = 60_000;

/// Changes per pull batch, so a device walks forward rather than catching up in one go.
pub const PULL_LIMIT: usize = 4;

/// A response in flight, waiting for its delivery time.
#[derive(Debug)]
pub struct InFlight {
    pub device: usize,
    pub deliver_at_ms: i64,
    pub response: Result<WireResponse, TransportError>,
}

/// What a response says, with its texts as sequences of characters.
pub enum ResponseView {
    Pull { protocol: ProtocolVersion, batches: Seq<BatchView> },
    Push { protocol: ProtocolVersion, results: Seq<ResultView> },
    Unreachable { detail: Seq<char> },
    Malformed { detail: Seq<char> },
}

/// What a response says.
pub open spec fn response_view(r: Result<WireResponse, TransportError>) -> ResponseView {
    match r {
        Ok(WireResponse::Pull(p)) => ResponseView::Pull {
            protocol: p.protocol,
            batches: batch_views(p.batches@),
        },
        Ok(WireResponse::Push(p)) => ResponseView::Push {
            protocol: p.protocol,
            results: result_views(p.results@),
        },
        Err(TransportError::Unreachable { detail }) => ResponseView::Unreachable {
            detail: detail@,
        },
        Err(TransportError::Malformed { detail }) => ResponseView::Malformed { detail: detail@ },
    }
}

/// What a request says.
pub enum RequestView {
    Pull {
        protocol: ProtocolVersion,
        scopes: Seq<(Seq<char>, u64)>,
        limit_bytes: Option<u64>,
    },
    Push { protocol: ProtocolVersion, commands: Seq<Command> },
    Bootstrap { protocol: ProtocolVersion, scope: Seq<char>, after: Cursor },
}

impl View for WireRequest {
    type V = RequestView;

    open spec fn view(&self) -> RequestView {
        match self {
            WireRequest::Pull(r) => RequestView::Pull {
                protocol: r.protocol,
                scopes: scope_cursors(r.scopes@),
                limit_bytes: r.limit_bytes,
            },
            WireRequest::Push(r) => RequestView::Push {
                protocol: r.protocol,
                commands: r.commands@,
            },
            WireRequest::Bootstrap(r) => RequestView::Bootstrap {
                protocol: r.protocol,
                scope: r.scope@,
                after: r.after,
            },
        }
    }
}

/// A request handed to the network.
pub struct OutboundView {
    pub id: u64,
    pub request: RequestView,
}

impl View for Outbound {
    type V = OutboundView;

    open spec fn view(&self) -> OutboundView {
        OutboundView { id: self.id, request: self.request@ }
    }
}

/// Some requests handed to the network.
pub open spec fn outbound_views(pending: Seq<Outbound>) -> Seq<OutboundView> {
    pending.map_values(|o: Outbound| o@)
}

/// A response in flight.
pub struct FlightView {
    pub device: usize,
    pub deliver_at_ms: int,
    pub response: ResponseView,
}

impl View for InFlight {
    type V = FlightView;

    open spec fn view(&self) -> FlightView {
        FlightView {
            device: self.device,
            deliver_at_ms: self.deliver_at_ms as int,
            response: response_view(self.response),
        }
    }
}

/// Some responses in flight.
pub open spec fn flight_views(flights: Seq<InFlight>) -> Seq<FlightView> {
    flights.map_values(|f: InFlight| f@)
}

/// What the carrying of a request can change.
#[verifier::ext_equal]
pub struct NetView {
    pub rng: u64,
    pub server: ServerView,
    pub pressure: Pressure,
    pub trace: TraceView,
    pub in_flight: Seq<FlightView>,
    pub held: Seq<FlightView>,
}

/// The last result of a push repeated, so that one command is answered twice; and whether there
/// was one.
pub open spec fn results_repeated(results: Seq<ResultView>) -> (Seq<ResultView>, bool) {
    if results.len() == 0 {
        (results, false)
    } else {
        (results.push(results.last()), true)
    }
}

/// The last change of a batch repeated, position and all.
pub open spec fn batch_repeated(b: BatchView) -> BatchView {
    BatchView { changes: b.changes.push(b.changes.last()), ..b }
}

/// The first batch that holds a change.
pub open spec fn first_full(batches: Seq<BatchView>) -> int
    decreases batches.len(),
{
    if batches.len() == 0 || batches[0].changes.len() > 0 {
        0
    } else {
        1 + first_full(batches.drop_first())
    }
}

/// The last change of the first batch that holds one repeated; and whether there was one.
pub open spec fn batches_repeated(batches: Seq<BatchView>) -> (Seq<BatchView>, bool) {
    let i = first_full(batches);
    if i >= batches.len() {
        (batches, false)
    } else {
        (batches.update(i, batch_repeated(batches[i])), true)
    }
}

/// What becomes of an answer on its way: it is lost to the client if it was severed or corrupted,
/// and it arrives late, twice, or behind a later one.
pub open spec fn dispatched(
    n: NetView,
    rates: FaultRates,
    now_ms: i64,
    device: usize,
    fault: Option<Fault>,
    response: ResponseView,
) -> NetView {
    let arriving = match fault {
        Some(Fault::Severed) => ResponseView::Malformed { detail: "severed mid-batch"@ },
        Some(Fault::Malformed) => ResponseView::Malformed { detail: "corrupted bytes"@ },
        _ => response,
    };
    let (latency, s) = range_of(n.rng, rates.latency_ms.0, rates.latency_ms.1);
    let flight = FlightView {
        device,
        deliver_at_ms: now_ms + latency,
        response: arriving,
    };
    match fault {
        Some(Fault::Duplicated) => {
            let (extra, t) = range_of(s, 1, 500);
            NetView {
                rng: t,
                in_flight: n.in_flight.push(
                    FlightView { deliver_at_ms: now_ms + latency + extra, ..flight },
                ).push(flight),
                ..n
            }
        },
        Some(Fault::Reordered) => NetView { rng: s, held: n.held.push(flight), ..n },
        _ => NetView { rng: s, in_flight: n.in_flight.push(flight), ..n },
    }
}

/// The trace with a fault on record, if there was one.
pub open spec fn noted(t: TraceView, now_ms: i64, device: usize, fault: Option<Fault>) -> TraceView {
    match fault {
        Some(f) => t.with_fault(now_ms, device, f),
        None => t,
    }
}

/// What answering a request comes to, once it has arrived.
pub open spec fn answered_request<W: Codec>(
    n: NetView,
    rates: FaultRates,
    now_ms: i64,
    device: usize,
    fault: Option<Fault>,
    violate: bool,
    request: RequestView,
    codec: &W,
) -> NetView {
    match request {
        RequestView::Bootstrap { .. } => n,
        RequestView::Pull { protocol, scopes, .. } => {
            let batches = pulled(
                n.server,
                scopes,
                PULL_LIMIT as nat,
                budget_of(n.pressure.load, n.pressure.severity) as usize,
                codec,
            );
            let (sent, broken) = if violate {
                batches_repeated(batches)
            } else {
                (batches, false)
            };
            let trace = if broken {
                n.trace.with_fault(now_ms, device, Fault::ProtocolViolation)
            } else {
                n.trace
            };
            dispatched(
                NetView { trace, ..n },
                rates,
                now_ms,
                device,
                fault,
                ResponseView::Pull { protocol, batches: sent },
            )
        },
        RequestView::Push { protocol, commands } => {
            let offered = commands.len() as int;
            let taken = accepted_of(n.pressure.load, n.pressure.severity, offered);
            let pressure = Pressure {
                deferred_commands: (n.pressure.deferred_commands + (offered - taken)) as u64,
                ..n.pressure
            };
            let (results, server, s) = answered_all(n.server, commands.take(taken), n.rng);
            let (sent, broken) = if violate {
                results_repeated(results)
            } else {
                (results, false)
            };
            let trace = if broken {
                n.trace.with_fault(now_ms, device, Fault::ProtocolViolation)
            } else {
                n.trace
            };
            dispatched(
                NetView { rng: s, server, pressure, trace, ..n },
                rates,
                now_ms,
                device,
                fault,
                ResponseView::Push { protocol, results: sent },
            )
        },
    }
}

/// What carrying request number `index` of a device comes to.
pub open spec fn carried<W: Codec>(
    n: NetView,
    rates: FaultRates,
    now_ms: i64,
    device: usize,
    index: u64,
    request: RequestView,
    codec: &W,
) -> NetView {
    let (fault, s) = response_fault(n.rng, rates, index);
    let arrived = NetView { rng: s, trace: noted(n.trace, now_ms, device, fault), ..n };
    if fault == Some(Fault::Dropped) {
        arrived
    } else {
        let (violate, t) = chance_of(s, rates.protocol_violation);
        answered_request(
            NetView { rng: t, ..arrived },
            rates,
            now_ms,
            device,
            fault,
            violate,
            request,
            codec,
        )
    }
}

/// What carrying some requests of a device comes to, one after the other, the first being number
/// `sent + 1`.
pub open spec fn carried_all<W: Codec>(
    n: NetView,
    rates: FaultRates,
    now_ms: i64,
    device: usize,
    sent: u64,
    requests: Seq<OutboundView>,
    codec: &W,
) -> NetView
    decreases requests.len(),
{
    if requests.len() == 0 {
        n
    } else {
        carried(
            carried_all(n, rates, now_ms, device, sent, requests.drop_last(), codec),
            rates,
            now_ms,
            device,
            (sent + requests.len()) as u64,
            requests.last().request,
            codec,
        )
    }
}

/// The queue with what was held back behind whatever overtook it, and the state of the generator.
pub open spec fn rejoined(
    queue: Seq<FlightView>,
    held: Seq<FlightView>,
    s: u64,
    now_ms: i64,
) -> (Seq<FlightView>, u64)
    decreases held.len(),
{
    if held.len() == 0 {
        (queue, s)
    } else {
        let (before, t) = rejoined(queue, held.drop_last(), s, now_ms);
        let (late, u) = range_of(t, 1, 900);
        (before.push(FlightView { deliver_at_ms: now_ms + STEP_MS + late, ..held.last() }), u)
    }
}

/// What was held back rejoins the queue.
pub open spec fn released(n: NetView, now_ms: i64) -> NetView {
    let (in_flight, s) = rejoined(n.in_flight, n.held, n.rng, now_ms);
    NetView { rng: s, in_flight, held: seq![], ..n }
}

fn rejoin_one(queue: &mut Vec<InFlight>, h: InFlight, rng: &mut Rng, now_ms: i64)
    requires
        now_ms <= 0x7fff_ffff_0000_0000,
    ensures
        ({
            let (late, u) = range_of(old(rng).state(), 1, 900);
            &&& flight_views(final(queue)@) == flight_views(old(queue)@).push(
                FlightView { deliver_at_ms: now_ms + STEP_MS + late, ..h@ },
            )
            &&& final(rng).state() == u
        }),
        final(rng).origin() == old(rng).origin(),
{
    let late: i64 = rng.range(1, 900) as i64;
    let flight = InFlight {
        device: h.device,
        deliver_at_ms: now_ms + STEP_MS + late,
        response: h.response,
    };
    let ghost before = flight_views(queue@);
    let ghost one = flight@;
    queue.push(flight);
    assert(flight_views(queue@) =~= before.push(one));
}

/// Puts what was held back into the queue again.
pub fn rejoin(queue: &mut Vec<InFlight>, held: Vec<InFlight>, rng: &mut Rng, now_ms: i64)
    requires
        now_ms <= 0x7fff_ffff_0000_0000,
    ensures
        (flight_views(final(queue)@), final(rng).state()) == rejoined(
            flight_views(old(queue)@),
            flight_views(held@),
            old(rng).state(),
            now_ms,
        ),
        final(rng).origin() == old(rng).origin(),
{
    let ghost start = flight_views(queue@);
    let ghost views = flight_views(held@);
    let ghost s = rng.state();
    let ghost origin = rng.origin();
    assert(views.take(0) =~= seq![]);
    for h in it: held
        invariant
            flight_views(it.seq()) == views,
            now_ms <= 0x7fff_ffff_0000_0000,
            rng.origin() == origin,
            (flight_views(queue@), rng.state()) == rejoined(
                start,
                views.take(it.index()),
                s,
                now_ms,
            ),
    {
        proof {
            let next = views.take(it.index() + 1);
            assert(next.drop_last() =~= views.take(it.index()));
            assert(next.last() == h@);
        }
        rejoin_one(queue, h, rng, now_ms);
    }
    assert(views.take(views.len() as int) =~= views);
}

/// The responses whose time has come, in the order they were queued.
pub open spec fn ripe(flights: Seq<FlightView>, now_ms: i64) -> Seq<FlightView> {
    flights.filter(|f: FlightView| f.deliver_at_ms <= now_ms)
}

/// The responses whose time has not come, in the order they were queued.
pub open spec fn unripe(flights: Seq<FlightView>, now_ms: i64) -> Seq<FlightView> {
    flights.filter(|f: FlightView| f.deliver_at_ms > now_ms)
}

/// Parts the responses whose time has come from the others.
pub fn part_ripe(flights: Vec<InFlight>, now_ms: i64) -> (r: (Vec<InFlight>, Vec<InFlight>))
    ensures
        flight_views(r.0@) == ripe(flight_views(flights@), now_ms),
        flight_views(r.1@) == unripe(flight_views(flights@), now_ms),
{
    let mut ready: Vec<InFlight> = Vec::new();
    let mut waiting: Vec<InFlight> = Vec::new();
    let ghost views = flight_views(flights@);
    proof {
        reveal(Seq::filter);
        assert(views.take(0) =~= seq![]);
        assert(flight_views(ready@) =~= ripe(views.take(0), now_ms));
        assert(flight_views(waiting@) =~= unripe(views.take(0), now_ms));
    }
    for f in it: flights
        invariant
            flight_views(it.seq()) == views,
            flight_views(ready@) == ripe(views.take(it.index()), now_ms),
            flight_views(waiting@) == unripe(views.take(it.index()), now_ms),
    {
        let ghost next = views.take(it.index() + 1);
        let ghost a = flight_views(ready@);
        let ghost b = flight_views(waiting@);
        let ghost one = f@;
        proof {
            reveal(Seq::filter);
            assert(next.drop_last() =~= views.take(it.index()));
            assert(next.last() == one);
        }
        if f.deliver_at_ms <= now_ms {
            ready.push(f);
            assert(flight_views(ready@) =~= a.push(one));
        } else {
            waiting.push(f);
            assert(flight_views(waiting@) =~= b.push(one));
        }
    }
    assert(views.take(views.len() as int) =~= views);
    (ready, waiting)
}

/// Parting keeps every address.
pub proof fn parting_keeps_addresses(flights: Seq<FlightView>, now_ms: i64, devices: nat)
    requires
        addressed(flights, devices),
    ensures
        addressed(ripe(flights, now_ms), devices),
        addressed(unripe(flights, now_ms), devices),
    decreases flights.len(),
{
    reveal(Seq::filter);
    if flights.len() > 0 {
        assert(flights.last().device < devices);
        assert(addressed(flights.drop_last(), devices));
        parting_keeps_addresses(flights.drop_last(), now_ms, devices);
    }
}

/// Responses that rejoin the queue are those that were held, at another time.
pub proof fn rejoining_keeps_addresses(
    queue: Seq<FlightView>,
    held: Seq<FlightView>,
    s: u64,
    now_ms: i64,
    devices: nat,
)
    requires
        addressed(queue, devices),
        addressed(held, devices),
    ensures
        addressed(rejoined(queue, held, s, now_ms).0, devices),
    decreases held.len(),
{
    if held.len() > 0 {
        assert(held.last().device < devices);
        assert(addressed(held.drop_last(), devices));
        rejoining_keeps_addresses(queue, held.drop_last(), s, now_ms, devices);
    }
}

/// The responses are to devices among the first `devices`.
pub open spec fn addressed(flights: Seq<FlightView>, devices: nat) -> bool {
    forall|i: int| 0 <= i < flights.len() ==> (#[trigger] flights[i]).device < devices
}

/// How much a request can add to a counter: one, and one for each command it carries.
pub open spec fn work_of(request: RequestView) -> nat {
    match request {
        RequestView::Push { commands, .. } => 1 + commands.len(),
        _ => 1,
    }
}

/// How much some requests can add to a counter.
pub open spec fn work_of_all(requests: Seq<OutboundView>) -> nat
    decreases requests.len(),
{
    if requests.len() == 0 {
        0
    } else {
        work_of_all(requests.drop_last()) + work_of(requests.last().request)
    }
}

/// The counts of a trace have room for this many faults of each sort.
pub open spec fn trace_room(t: TraceView, work: nat) -> bool {
    &&& t.counts.len() == 13
    &&& forall|f: Fault| (#[trigger] t.count(f)) + work <= u64::MAX
}

/// The counters of a run have room for this much work.
pub open spec fn has_room(n: NetView, work: nat) -> bool {
    &&& trace_room(n.trace, work)
    &&& n.pressure.deferred_commands + work <= u64::MAX
    &&& n.server.next_seq + work <= u64::MAX
}

/// Repeats the last result in a push response, so one command is answered twice. Says whether
/// there was one, so that the trace never counts a fault that did not happen.
pub fn repeat_last_result(response: &mut PushResponse) -> (hit: bool)
    ensures
        final(response).protocol == old(response).protocol,
        (result_views(final(response).results@), hit) == results_repeated(
            result_views(old(response).results@),
        ),
{
    let n: usize = response.results.len();
    if n == 0 {
        assert(result_views(response.results@) =~= Seq::<ResultView>::empty());
        return false;
    }
    let last: CommandResult = response.results[n - 1].clone();
    let ghost one = last@;
    response.results.push(last);
    assert(result_views(response.results@) =~= result_views(old(response).results@).push(one));
    true
}

proof fn first_full_is(batches: Seq<BatchView>, n: int)
    requires
        0 <= n <= batches.len(),
        n < batches.len() ==> batches[n].changes.len() > 0,
        forall|i: int| 0 <= i < n ==> (#[trigger] batches[i]).changes.len() == 0,
    ensures
        first_full(batches) == n,
    decreases batches.len(),
{
    if n > 0 {
        assert(batches[0].changes.len() == 0);
        let rest = batches.drop_first();
        assert forall|i: int| 0 <= i < n - 1 implies (#[trigger] rest[i]).changes.len() == 0 by {
            assert(batches[i + 1].changes.len() == 0);
        }
        first_full_is(rest, n - 1);
    }
}

/// Repeats the last change of the first batch that holds one: a protocol rule broken in a batch
/// that is otherwise perfectly well-formed. Says whether there was one.
pub fn repeat_last_change(response: &mut PullResponse) -> (hit: bool)
    ensures
        final(response).protocol == old(response).protocol,
        (batch_views(final(response).batches@), hit) == batches_repeated(
            batch_views(old(response).batches@),
        ),
{
    let ghost views = batch_views(response.batches@);
    let mut i: usize = 0;
    while i < response.batches.len()
        invariant
            i <= response.batches@.len(),
            *response == *old(response),
            views == batch_views(response.batches@),
            forall|j: int| 0 <= j < i ==> (#[trigger] views[j]).changes.len() == 0,
        decreases response.batches@.len() - i,
    {
        let n: usize = response.batches[i].changes.len();
        assert(views[i as int] == response.batches@[i as int]@);
        if n > 0 {
            let last: Change = response.batches[i].changes[n - 1].clone();
            let ghost one = last@;
            let ghost before = response.batches@;
            response.batches[i].changes.push(last);
            proof {
                first_full_is(views, i as int);
                let now = response.batches@;
                assert(now[i as int]@.changes =~= before[i as int]@.changes.push(one));
                assert(now[i as int]@ == batch_repeated(views[i as int]));
                assert(batch_views(now) =~= views.update(i as int, batch_repeated(views[i as int])));
            }
            return true;
        }
        i = i + 1;
    }
    proof {
        first_full_is(views, i as int);
    }
    false
}

/// A copy of a response, for the network that delivers it twice.
pub fn clone_response(r: &Result<WireResponse, TransportError>) -> (copy: Result<
    WireResponse,
    TransportError,
>)
    ensures
        response_view(copy) == response_view(*r),
{
    match r {
        Ok(WireResponse::Pull(p)) => Ok(WireResponse::Pull(p.clone())),
        Ok(WireResponse::Push(p)) => Ok(WireResponse::Push(p.clone())),
        Err(TransportError::Unreachable { detail }) => Err(
            TransportError::Unreachable { detail: detail.clone() },
        ),
        Err(TransportError::Malformed { detail }) => Err(
            TransportError::Malformed { detail: detail.clone() },
        ),
    }
}

} // verus!
