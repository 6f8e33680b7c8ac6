//! What the simulated network, storage and devices do, said of what goes in and what comes out.
use crate::clock::apparent;
use crate::codec::{payload_checksum, Codec};
use crate::fault::{
    quiet_rates, response_fault, storage_fault, Fault, FaultRates, SKEW_MAGNITUDE_MS,
};
use crate::invariants::{
    bounds_found, convergence_found, device_checked, effects_found, over, policy_found,
};
use crate::lcg::after;
use crate::network::{
    batches_repeated, carried, carried_all, dispatched, first_full, rejoined, results_repeated,
    ripe, unripe, FlightView, NetView, OutboundView, RequestView, ResponseView, STEP_MS,
};
use crate::pressure::{accepted_of, budget_of};
use crate::protocol::{BatchView, Command, Op, ProtocolVersion, ResultView};
use crate::rng::{below_of, chance_of, draws_end, output, range_of};
use crate::server::{answered_all, committed, pull_batch, server_digest};
use crate::storage::{
    applied, applied_all, empty_db, transacted, DbView, Queued, StorageOp, StorageVerdict,
};
use crate::text::number_within;
use crate::trace::TraceView;
use crate::turn::{
    advanced, armed, at_hand, authored, batch_word, connected, delivering, fits, judged,
    passed_over, pull_sent, restarting, ActionView, EventView, Standing,
};
use crate::world::{
    carried_for, drawn_devices, ever_enqueued, moved_on, network_carried, new_world, quieted,
    settled, with_event, written_elsewhere, DeviceView, Phase, WorldView, START_MS,
};
use vstd::prelude::*;

verus! {

/// A draw below `n` gives a number below `n`, from the first word that is not among the few left
/// over when all words are dealt out in runs of `n`: so no number is favoured, and the generator
/// stands right behind that word.
pub proof fn a_draw_is_fair(s: u64, n: u32)
    requires
        n > 0,
    ensures
        below_of(s, n).0 < n,
        exists|k: nat|
            {
                &&& below_of(s, n).0 == output(#[trigger] after(s, k)) % n
                &&& below_of(s, n).1 == after(s, k + 1)
                &&& output(after(s, k)) >= 0x1_0000_0000int % (n as int)
                &&& forall|j: nat| j < k ==> output(#[trigger] after(s, j)) < 0x1_0000_0000int % (n
                    as int)
            },
{
    let least = crate::rng::threshold(n);
    draws_end(s, least);
    vstd::arithmetic::div_mod::lemma_mod_sub_multiples_vanish(0x1_0000_0000, n as int);
    assert(least == 0x1_0000_0000int % (n as int));
    let k = crate::rng::discarded(s, least);
    assert(below_of(s, n).0 == output(after(s, k)) % n);
}

/// A chance of nought never comes and one of a hundred always does, without a draw; between them one
/// draw decides, and what comes at some chance comes at every greater one.
pub proof fn a_chance_grows_with_its_percent(s: u64, percent: u32, more: u32)
    requires
        percent <= more,
    ensures
        chance_of(s, 0) == (false, s),
        percent >= 100 ==> chance_of(s, percent) == (true, s),
        0 < percent < 100 ==> chance_of(s, percent).1 == below_of(s, 100).1,
        0 < percent < 100 ==> (chance_of(s, percent).0 <==> below_of(s, 100).0 < percent),
        chance_of(s, percent).0 ==> chance_of(s, more).0,
{
}

/// A number drawn from a range lies in it.
pub proof fn a_range_is_kept(s: u64, low: u32, high: u32)
    ensures
        low <= range_of(s, low, high).0,
        low <= high ==> range_of(s, low, high).0 <= high,
        high <= low ==> range_of(s, low, high) == (low, s),
{
    if high > low && high - low < u32::MAX {
        a_draw_is_fair(s, (high - low + 1) as u32);
    }
}

/// Which fault a response meets: the period drops it whatever the draws say; otherwise corruption
/// goes before severing, severing before duplication, and duplication before reordering. Each comes
/// only where its own draw hits, and none where no draw does.
pub proof fn a_response_meets_one_fault(s: u64, rates: FaultRates, index: u64)
    ensures
        ({
            let (fault, t) = response_fault(s, rates, index);
            let (duplicate, s1) = chance_of(s, rates.duplicate_response);
            let (reorder, s2) = chance_of(s1, rates.reorder_response);
            let (sever, s3) = chance_of(s2, rates.sever_mid_batch);
            let (malformed, s4) = chance_of(s3, rates.malformed_bytes);
            let dropped = rates.drop_every_nth > 0 && index % (rates.drop_every_nth as u64) == 0;
            &&& t == s4
            &&& fault == Some(Fault::Dropped) <==> dropped
            &&& fault == Some(Fault::Malformed) <==> malformed && !dropped
            &&& fault == Some(Fault::Severed) <==> sever && !malformed && !dropped
            &&& fault == Some(Fault::Duplicated) <==> duplicate && !sever && !malformed && !dropped
            &&& fault == Some(Fault::Reordered) <==> reorder && !duplicate && !sever && !malformed
                && !dropped
            &&& fault is None <==> !reorder && !duplicate && !sever && !malformed && !dropped
        }),
{
}

/// What a storage fault does to the next transaction: one that fails before its commit leaves no
/// trace of it, one that is killed after the commit keeps it and loses the word of it, and the
/// device is then to be restarted; nothing else is touched but that device's storage.
pub proof fn a_storage_fault_arms_one_transaction(w: WorldView, i: usize)
    requires
        i < w.devices.len(),
        i < w.databases.len(),
    ensures
        ({
            let (fault, s) = storage_fault(w.net.rng, w.rates);
            let (fail, s1) = chance_of(w.net.rng, w.rates.storage_fail_before_commit);
            let (kill, s2) = chance_of(s1, w.rates.storage_commit_then_kill);
            let v = armed(w, i);
            &&& s == s2
            &&& fault == Some(Fault::StorageFailed) <==> fail
            &&& fault == Some(Fault::StorageCommittedThenKilled) <==> kill && !fail
            &&& fault is None <==> !fail && !kill
            &&& v.net.rng == s
            &&& v.databases[i as int].verdict == StorageVerdict::FailBeforeCommit <==> fail
            &&& v.databases[i as int].verdict == StorageVerdict::CommitThenLoseAck <==> kill
                && !fail
            &&& v.databases[i as int] == (DbView {
                verdict: v.databases[i as int].verdict,
                ..w.databases[i as int]
            })
            &&& v.devices[i as int].pending_kill <==> w.devices[i as int].pending_kill || kill
                && !fail
            &&& v.net.server == w.net.server
            &&& v.net.in_flight == w.net.in_flight
            &&& forall|j: int|
                0 <= j < w.databases.len() && j != i ==> #[trigger] v.databases[j] == w.databases[j]
            &&& forall|j: int|
                0 <= j < w.devices.len() && j != i ==> #[trigger] v.devices[j] == w.devices[j]
        }),
{
}

/// What one operation does to a database, and what it leaves alone.
pub proof fn an_operation_does_one_thing(db: DbView, op: StorageOp)
    ensures
        ({
            let next = applied(db, op);
            match op {
                StorageOp::UpsertRow {
                    entity,
                    entity_id,
                    snapshot,
                    row_version,
                    schema_version,
                } => {
                    let key = (entity@, entity_id@);
                    &&& next.rows.dom() == db.rows.dom().insert(key)
                    &&& next.rows[key].snapshot == snapshot
                    &&& next.rows[key].row_version == row_version
                    &&& next.rows[key].schema_version == schema_version
                    &&& forall|k: (Seq<char>, Seq<char>)|
                        k != key && db.rows.dom().contains(k) ==> #[trigger] next.rows[k]
                            == db.rows[k]
                    &&& next == (DbView { rows: next.rows, ..db })
                },
                StorageOp::DeleteRow { entity, entity_id } => {
                    let key = (entity@, entity_id@);
                    &&& next.rows.dom() == db.rows.dom().remove(key)
                    &&& forall|k: (Seq<char>, Seq<char>)|
                        k != key && db.rows.dom().contains(k) ==> #[trigger] next.rows[k]
                            == db.rows[k]
                    &&& next == (DbView { rows: next.rows, ..db })
                },
                StorageOp::SetCursor { scope, cursor } => {
                    &&& next.cursors.dom() == db.cursors.dom().insert(scope@)
                    &&& next.cursors[scope@] == cursor
                    &&& forall|k: Seq<char>|
                        k != scope@ && db.cursors.dom().contains(k) ==> #[trigger] next.cursors[k]
                            == db.cursors[k]
                    &&& next == (DbView { cursors: next.cursors, ..db })
                },
                StorageOp::SetScopeDigest { scope, digest } => {
                    &&& next.digests.dom() == db.digests.dom().insert(scope@)
                    &&& next.digests[scope@] == digest
                    &&& forall|k: Seq<char>|
                        k != scope@ && db.digests.dom().contains(k) ==> #[trigger] next.digests[k]
                            == db.digests[k]
                    &&& next == (DbView { digests: next.digests, ..db })
                },
                StorageOp::EnqueueCommand { command, schema_version } => {
                    &&& next.outbox.len() == db.outbox.len() + 1
                    &&& next.outbox.drop_last() == db.outbox
                    &&& next.outbox.last().command == command
                    &&& next.outbox.last().schema_version == schema_version
                    &&& next.enqueued == db.enqueued.insert(command.id.raw)
                    &&& next == (DbView { outbox: next.outbox, enqueued: next.enqueued, ..db })
                },
                StorageOp::ResolveCommand { id, resolution } => {
                    &&& next.outbox == db.outbox.filter(|q: Queued| q.command.id.raw != id.raw)
                    &&& next.resolved.len() == db.resolved.len() + 1
                    &&& next.resolved.drop_last() == db.resolved
                    &&& next.resolved.last().id == id
                    &&& next.resolved.last().resolution == resolution
                    &&& next == (DbView { outbox: next.outbox, resolved: next.resolved, ..db })
                },
                StorageOp::QuarantineRow { entity, entity_id, snapshot, schema_version, reason } => {
                    &&& next.quarantine.len() == db.quarantine.len() + 1
                    &&& next.quarantine.drop_last() == db.quarantine
                    &&& next.quarantine.last().entity_id == entity_id
                    &&& next.quarantine.last().snapshot == snapshot
                    &&& next.quarantine.last().schema_version == schema_version
                    &&& next.quarantine.last().reason == reason
                    &&& next == (DbView { quarantine: next.quarantine, ..db })
                },
                StorageOp::SaveRecoveredDraft { entity, command_id, payload } => {
                    &&& next.recovered.len() == db.recovered.len() + 1
                    &&& next.recovered.drop_last() == db.recovered
                    &&& next.recovered.last().command_id == command_id
                    &&& next.recovered.last().entity == entity
                    &&& next.recovered.last().payload == payload
                    &&& next == (DbView { recovered: next.recovered, ..db })
                },
            }
        }),
{
    let next = applied(db, op);
    match op {
        StorageOp::UpsertRow { entity, entity_id, .. } => {
            assert(next.rows.dom() =~= db.rows.dom().insert((entity@, entity_id@)));
        },
        StorageOp::DeleteRow { entity, entity_id } => {
            assert(next.rows.dom() =~= db.rows.dom().remove((entity@, entity_id@)));
        },
        StorageOp::SetCursor { scope, .. } => {
            assert(next.cursors.dom() =~= db.cursors.dom().insert(scope@));
        },
        StorageOp::SetScopeDigest { scope, .. } => {
            assert(next.digests.dom() =~= db.digests.dom().insert(scope@));
        },
        StorageOp::EnqueueCommand { .. } => {
            assert(next.outbox.drop_last() =~= db.outbox);
        },
        StorageOp::ResolveCommand { .. } => {
            assert(next.resolved.drop_last() =~= db.resolved);
        },
        StorageOp::QuarantineRow { .. } => {
            assert(next.quarantine.drop_last() =~= db.quarantine);
        },
        StorageOp::SaveRecoveredDraft { .. } => {
            assert(next.recovered.drop_last() =~= db.recovered);
        },
    }
}

proof fn operations_add_up(db: DbView, a: Seq<StorageOp>, b: Seq<StorageOp>)
    ensures
        applied_all(db, a + b) == applied_all(applied_all(db, a), b),
    decreases b.len(),
{
    if b.len() == 0 {
        assert(a + b =~= a);
    } else {
        assert((a + b).drop_last() =~= a + b.drop_last());
        assert((a + b).last() == b.last());
        operations_add_up(db, a, b.drop_last());
    }
}

proof fn the_verdict_is_no_content(db: DbView, ops: Seq<StorageOp>, commits: u64)
    ensures
        applied_all(DbView { commits, ..db }, ops) == (DbView { commits, ..applied_all(db, ops) }),
        applied_all(db, ops).verdict == db.verdict,
        applied_all(db, ops).commits == db.commits,
    decreases ops.len(),
{
    if ops.len() > 0 {
        the_verdict_is_no_content(db, ops.drop_last(), commits);
    }
}

/// What a transaction comes to. Where it is told to fail before the commit the contents are what
/// they were; otherwise every operation is in effect, in order, and one more commit is counted. The
/// instruction to misbehave is spent either way. Two transactions in a row leave what one does that
/// carries the operations of both, and a transaction of one operation is that operation.
pub proof fn a_transaction_is_its_operations(
    db: DbView,
    first: Seq<StorageOp>,
    second: Seq<StorageOp>,
    op: StorageOp,
)
    requires
        db.commits + 2 <= u64::MAX,
    ensures
        transacted(db, first).verdict == StorageVerdict::Commit,
        db.verdict == StorageVerdict::FailBeforeCommit ==> transacted(db, first) == (DbView {
            verdict: StorageVerdict::Commit,
            ..db
        }),
        db.verdict != StorageVerdict::FailBeforeCommit ==> {
            let one = transacted(db, first);
            let both = transacted(db, first + second);
            let two = transacted(one, second);
            &&& one.commits == db.commits + 1
            &&& two == (DbView { commits: (both.commits + 1) as u64, ..both })
            &&& transacted(db, seq![op]) == (DbView {
                commits: (db.commits + 1) as u64,
                verdict: StorageVerdict::Commit,
                ..applied(DbView { verdict: StorageVerdict::Commit, ..db }, op)
            })
            &&& transacted(db, Seq::empty()) == (DbView {
                commits: (db.commits + 1) as u64,
                verdict: StorageVerdict::Commit,
                ..db
            })
        },
{
    let ready = DbView { verdict: StorageVerdict::Commit, ..db };
    operations_add_up(ready, first, second);
    let x = applied_all(ready, first);
    the_verdict_is_no_content(ready, first, 0);
    the_verdict_is_no_content(x, second, (db.commits + 1) as u64);
    the_verdict_is_no_content(ready, first + second, 0);
    reveal_with_fuel(applied_all, 2);
    assert(seq![op].drop_last() =~= Seq::<StorageOp>::empty());
    assert(seq![op].last() == op);
}

/// How an answer travels. It goes to the device that asked, after a delay within the bounds; a
/// severed or corrupted one arrives as bytes that do not decode; a duplicated one arrives twice, the
/// copy later; a reordered one is held back; any other arrives once and as it is. Nothing that is
/// already under way is touched, and the server does not change.
pub proof fn an_answer_travels(
    n: NetView,
    rates: FaultRates,
    now_ms: i64,
    device: usize,
    fault: Option<Fault>,
    response: ResponseView,
)
    requires
        rates.latency_ms.0 <= rates.latency_ms.1,
    ensures
        ({
            let after = dispatched(n, rates, now_ms, device, fault, response);
            let lost = fault == Some(Fault::Severed) || fault == Some(Fault::Malformed);
            let twice = fault == Some(Fault::Duplicated);
            let held = fault == Some(Fault::Reordered);
            let more = after.in_flight.skip(n.in_flight.len() as int);
            let back = after.held.skip(n.held.len() as int);
            &&& after.in_flight.len() >= n.in_flight.len()
            &&& after.held.len() >= n.held.len()
            &&& after.in_flight.take(n.in_flight.len() as int) == n.in_flight
            &&& after.held.take(n.held.len() as int) == n.held
            &&& more.len() == if held {
                0
            } else if twice {
                2
            } else {
                1int
            }
            &&& back.len() == if held {
                1int
            } else {
                0
            }
            &&& forall|k: int|
                0 <= k < more.len() ==> {
                    let f = #[trigger] more[k];
                    &&& f.device == device
                    &&& now_ms + rates.latency_ms.0 <= f.deliver_at_ms
                    &&& !twice ==> f.deliver_at_ms <= now_ms + rates.latency_ms.1
                    &&& lost ==> f.response is Malformed
                    &&& !lost ==> f.response == response
                }
            &&& twice ==> more[0].deliver_at_ms > more[1].deliver_at_ms && more[1].deliver_at_ms
                <= now_ms + rates.latency_ms.1
            &&& held ==> back[0].device == device && back[0].response == response
            &&& after.server == n.server
            &&& after.pressure == n.pressure
            &&& after.trace == n.trace
        }),
{
    let after = dispatched(n, rates, now_ms, device, fault, response);
    let (latency, s) = range_of(n.rng, rates.latency_ms.0, rates.latency_ms.1);
    a_range_is_kept(n.rng, rates.latency_ms.0, rates.latency_ms.1);
    a_range_is_kept(s, 1, 500);
    let more = after.in_flight.skip(n.in_flight.len() as int);
    assert(after.in_flight.take(n.in_flight.len() as int) =~= n.in_flight);
    assert(after.held.take(n.held.len() as int) =~= n.held);
    assert(forall|k: int|
        0 <= k < more.len() ==> #[trigger] more[k] == after.in_flight[n.in_flight.len() + k]);
    assert(after.held.skip(n.held.len() as int).len() > 0 ==> after.held.skip(
        n.held.len() as int,
    )[0] == after.held[n.held.len() as int]);
}

/// What carrying a request does. One that the period drops never reaches the server, and nothing
/// comes back. A push that arrives is applied, as many of its commands as the load lets through and
/// at least one, whatever then becomes of the answer; a pull changes nothing on the server.
pub proof fn a_request_arrives_unless_it_is_dropped<W: Codec>(
    n: NetView,
    rates: FaultRates,
    now_ms: i64,
    device: usize,
    index: u64,
    request: RequestView,
    codec: &W,
)
    requires
        n.pressure.wf(),
    ensures
        ({
            let after = carried(n, rates, now_ms, device, index, request, codec);
            let (fault, s) = response_fault(n.rng, rates, index);
            let (violate, t) = chance_of(s, rates.protocol_violation);
            &&& fault == Some(Fault::Dropped) ==> {
                &&& after.server == n.server
                &&& after.in_flight == n.in_flight
                &&& after.held == n.held
                &&& after.pressure == n.pressure
                &&& after.rng == s
            }
            &&& fault != Some(Fault::Dropped) && request is Pull ==> {
                &&& after.server == n.server
                &&& after.pressure == n.pressure
                &&& after.in_flight.len() + after.held.len() > n.in_flight.len() + n.held.len()
            }
            &&& fault != Some(Fault::Dropped) && (request matches RequestView::Push { commands, .. }
                && commands.len() > 0) ==> {
                let commands = request->commands;
                let taken = accepted_of(
                    n.pressure.load,
                    n.pressure.severity,
                    commands.len() as int,
                );
                &&& 1 <= taken <= commands.len()
                &&& n.pressure.load is Normal ==> taken == commands.len()
                &&& after.server == answered_all(n.server, commands.take(taken), t).1
                &&& after.in_flight.len() + after.held.len() > n.in_flight.len() + n.held.len()
            }
        }),
{
    if let RequestView::Push { commands, .. } = request {
        crate::pressure::accepting_is_within(
            n.pressure.load,
            n.pressure.severity,
            commands.len() as int,
        );
    }
}

/// What was held back rejoins the queue behind what is there, none lost and in its order, to the
/// device it is for and with what it says, at a moment after the step at hand.
pub proof fn what_was_held_back_comes_later(
    queue: Seq<FlightView>,
    held: Seq<FlightView>,
    s: u64,
    now_ms: i64,
)
    ensures
        ({
            let all = rejoined(queue, held, s, now_ms).0;
            &&& all.len() == queue.len() + held.len()
            &&& forall|i: int| 0 <= i < queue.len() ==> #[trigger] all[i] == queue[i]
            &&& forall|i: int|
                0 <= i < held.len() ==> {
                    let f = all[queue.len() + i];
                    &&& f.device == (#[trigger] held[i]).device
                    &&& f.response == held[i].response
                    &&& f.deliver_at_ms > now_ms + STEP_MS
                }
        }),
    decreases held.len(),
{
    if held.len() > 0 {
        let rest = held.drop_last();
        what_was_held_back_comes_later(queue, rest, s, now_ms);
        let (before, t) = rejoined(queue, rest, s, now_ms);
        a_range_is_kept(t, 1, 900);
        let all = rejoined(queue, held, s, now_ms).0;
        assert forall|i: int| 0 <= i < held.len() implies {
            let f = all[queue.len() + i];
            &&& f.device == (#[trigger] held[i]).device
            &&& f.response == held[i].response
            &&& f.deliver_at_ms > now_ms + STEP_MS
        } by {
            if i < rest.len() {
                assert(rest[i] == held[i]);
                assert(all[queue.len() + i] == before[queue.len() + i]);
            }
        }
    }
}

/// What is taken off the network is what is due, and what stays is what is not.
pub proof fn only_what_is_due_is_delivered(flights: Seq<FlightView>, now_ms: i64)
    ensures
        forall|i: int|
            0 <= i < ripe(flights, now_ms).len() ==> (#[trigger] ripe(
                flights,
                now_ms,
            )[i]).deliver_at_ms <= now_ms,
        forall|i: int|
            0 <= i < unripe(flights, now_ms).len() ==> (#[trigger] unripe(
                flights,
                now_ms,
            )[i]).deliver_at_ms > now_ms,
        ripe(flights, now_ms).len() + unripe(flights, now_ms).len() == flights.len(),
        forall|i: int|
            0 <= i < flights.len() ==> if (#[trigger] flights[i]).deliver_at_ms <= now_ms {
                ripe(flights, now_ms).contains(flights[i])
            } else {
                unripe(flights, now_ms).contains(flights[i])
            },
    decreases flights.len(),
{
    reveal(Seq::filter);
    if flights.len() > 0 {
        let rest = flights.drop_last();
        only_what_is_due_is_delivered(rest, now_ms);
        let r = ripe(flights, now_ms);
        let u = unripe(flights, now_ms);
        let r0 = ripe(rest, now_ms);
        let u0 = unripe(rest, now_ms);
        let last = flights.last();
        assert(r == if last.deliver_at_ms <= now_ms {
            r0.push(last)
        } else {
            r0
        });
        assert(u == if last.deliver_at_ms > now_ms {
            u0.push(last)
        } else {
            u0
        });
        assert forall|i: int| 0 <= i < flights.len() implies if (
        #[trigger] flights[i]).deliver_at_ms <= now_ms {
            r.contains(flights[i])
        } else {
            u.contains(flights[i])
        } by {
            if i < rest.len() {
                assert(rest[i] == flights[i]);
                if flights[i].deliver_at_ms <= now_ms {
                    let k = choose|k: int| 0 <= k < r0.len() && r0[k] == flights[i];
                    assert(r[k] == flights[i]);
                } else {
                    let k = choose|k: int| 0 <= k < u0.len() && u0[k] == flights[i];
                    assert(u[k] == flights[i]);
                }
            } else if last.deliver_at_ms <= now_ms {
                assert(r[r0.len() as int] == last);
            } else {
                assert(u[u0.len() as int] == last);
            }
        }
    }
}

/// Response `k` of those that are due has nothing left for an engine, when `batch` batches of
/// response `at` have been handed over.
pub open spec fn is_spent(due: Seq<FlightView>, k: int, at: int, batch: int) -> bool {
    match due[k].response {
        ResponseView::Pull { batches, .. } => if k == at {
            batch >= batches.len()
        } else {
            batches.len() == 0
        },
        ResponseView::Push { .. } => false,
        _ => true,
    }
}

/// Nothing that is due is skipped: the next thing handed to an engine is the next batch of the
/// response at hand, or the first thing of a later one when every response before it has nothing to
/// hand over; it goes to the device that the response is for, and it is what the response says. The
/// world rests only when there is nothing left.
pub proof fn nothing_due_is_skipped(w: WorldView)
    requires
        0 <= w.due_at <= w.due.len(),
        w.batch_at >= 0,
    ensures
        ({
            let (v, action) = delivering(w);
            let k = v.due_at as int;
            let from = if k == w.due_at {
                w.batch_at as int
            } else {
                0
            };
            &&& v.due == w.due
            &&& w.due_at <= k <= w.due.len()
            &&& forall|j: int|
                w.due_at <= j < k ==> #[trigger] is_spent(
                    w.due,
                    j,
                    w.due_at as int,
                    w.batch_at as int,
                )
            &&& action is Rest <==> k == w.due.len()
            &&& k < w.due.len() ==> match w.due[k].response {
                ResponseView::Pull { batches, .. } => {
                    &&& v.batch_at == from
                    &&& from < batches.len()
                    &&& action == (ActionView::ApplyBatch {
                        device: w.due[k].device,
                        batch: batches[from],
                    })
                    &&& v.phase is Applying
                },
                ResponseView::Push { protocol, results } => {
                    &&& action == (ActionView::ApplyResults {
                        device: w.due[k].device,
                        protocol,
                        results,
                    })
                    &&& v.phase is Settling
                },
                _ => false,
            }
            &&& k == w.due.len() ==> v.phase is Idle
        }),
    decreases w.due.len() - w.due_at,
{
    reveal(delivering);
    if w.due_at < w.due.len() && at_hand(w) is None {
        assert(is_spent(w.due, w.due_at as int, w.due_at as int, w.batch_at as int));
        nothing_due_is_skipped(passed_over(w));
        let k = delivering(w).0.due_at as int;
        assert forall|j: int| w.due_at <= j < k implies #[trigger] is_spent(
            w.due,
            j,
            w.due_at as int,
            w.batch_at as int,
        ) by {
            if j > w.due_at {
                assert(is_spent(w.due, j, w.due_at as int + 1, 0));
            }
        }
    }
}

/// At the end of every step every claim is held against every device: what was found before stays,
/// and nothing is added exactly when no claim fails on any device.
pub proof fn every_step_judges_every_device(w: WorldView)
    ensures
        ({
            let v = judged(w);
            let head = (w.net.server.next_seq - 1) as u64;
            &&& v.found.len() >= w.found.len()
            &&& v.found.take(w.found.len() as int) == w.found
            &&& v.found.len() == w.found.len() <==> forall|i: int|
                0 <= i < w.databases.len() ==> {
                    let db = #[trigger] w.databases[i];
                    &&& device_checked(w.memory[i], db, w.scope, i as usize, w.now_ms).1.len() == 0
                    &&& bounds_found(db, w.scope, head, i as usize, w.now_ms).len() == 0
                    &&& effects_found(db, w.net.server, w.scope, i as usize, w.now_ms).len() == 0
                }
            &&& v.databases == w.databases && v.net == w.net && v.devices == w.devices
        }),
{
    let n = w.databases.len();
    let head = (w.net.server.next_seq - 1) as u64;
    let f = |i: int|
        device_checked(w.memory[i], w.databases[i], w.scope, i as usize, w.now_ms).1;
    let g = |i: int| bounds_found(w.databases[i], w.scope, head, i as usize, w.now_ms);
    let h = |i: int| effects_found(w.databases[i], w.net.server, w.scope, i as usize, w.now_ms);
    crate::check_laws::silence_is_silence_everywhere(f, n);
    crate::check_laws::silence_is_silence_everywhere(g, n);
    crate::check_laws::silence_is_silence_everywhere(h, n);
    let v = judged(w);
    assert(v.found == w.found + over(f, n) + over(g, n) + over(h, n));
    assert(v.found.take(w.found.len() as int) =~= w.found);
    if v.found.len() == w.found.len() {
        assert forall|i: int| 0 <= i < n implies {
            let db = #[trigger] w.databases[i];
            &&& device_checked(w.memory[i], db, w.scope, i as usize, w.now_ms).1.len() == 0
            &&& bounds_found(db, w.scope, head, i as usize, w.now_ms).len() == 0
            &&& effects_found(db, w.net.server, w.scope, i as usize, w.now_ms).len() == 0
        } by {
            assert(f(i).len() == 0 && g(i).len() == 0 && h(i).len() == 0);
        }
    }
    if forall|i: int|
        0 <= i < w.databases.len() ==> {
            let db = #[trigger] w.databases[i];
            &&& device_checked(w.memory[i], db, w.scope, i as usize, w.now_ms).1.len() == 0
            &&& bounds_found(db, w.scope, head, i as usize, w.now_ms).len() == 0
            &&& effects_found(db, w.net.server, w.scope, i as usize, w.now_ms).len() == 0
        } {
        assert forall|i: int| 0 <= i < n implies (#[trigger] f(i)).len() == 0 by {
            let db = w.databases[i];
        }
        assert forall|i: int| 0 <= i < n implies (#[trigger] g(i)).len() == 0 by {
            let db = w.databases[i];
        }
        assert forall|i: int| 0 <= i < n implies (#[trigger] h(i)).len() == 0 by {
            let db = w.databases[i];
        }
    }
}

/// The action is asked of this device, at the start of its turn.
pub open spec fn opens_turn_of(action: ActionView, device: usize) -> bool {
    ||| action matches ActionView::Restart { device: d, .. } && d == device
    ||| action matches ActionView::Enqueue { device: d, .. } && d == device
    ||| action matches ActionView::BuildPush { device: d, .. } && d == device
}

/// Every device has its turn in every step, one after the other: a step begins with the first, and
/// when one has said where it stands the next has its turn, until there is none.
pub proof fn every_device_has_its_turn<W: Codec>(w: WorldView, event: EventView, codec: &W)
    requires
        fits(w.phase, event),
        w.devices.len() <= usize::MAX,
    ensures
        w.phase is Idle && w.devices.len() > 0 ==> opens_turn_of(advanced(w, event, codec).1, 0),
        w.phase matches Phase::Pulling { device } ==> device + 1 < w.devices.len()
            ==> opens_turn_of(advanced(w, event, codec).1, (device + 1) as usize),
        w.phase matches Phase::Restarting { device } ==> opens_turn_of(
            advanced(w, event, codec).1,
            device,
        ),
        w.phase matches Phase::Killed { device } ==> (advanced(
            w,
            event,
            codec,
        ).1 matches ActionView::BuildPush { device: d, .. } && d == device),
{
}

/// A device asks for what comes after the position it stands at, and from the start where it has
/// none, as long as it is online and its position can be read; nothing else changes.
pub proof fn a_device_asks_from_where_it_stands(w: WorldView, i: usize, standing: Standing)
    requires
        i < w.devices.len(),
        w.devices[i as int].next_id < u64::MAX,
    ensures
        ({
            let v = pull_sent(w, i, standing);
            let before = w.devices[i as int];
            let d = v.devices[i as int];
            let asks = before.online && !(standing is Unreadable);
            &&& !asks ==> v == w
            &&& asks ==> {
                &&& d.pending.len() == before.pending.len() + 1
                &&& d.pending.drop_last() == before.pending
                &&& d.pending.last().id == before.next_id + 1
                &&& d.pending.last().request matches RequestView::Pull { scopes, .. }
                &&& scopes.len() == 1
                &&& scopes[0].0 == w.scope
                &&& scopes[0].1 == match standing {
                    Standing::At { cursor } => cursor.position,
                    _ => 0,
                }
                &&& v.net == w.net
            }
        }),
{
    let v = pull_sent(w, i, standing);
    assert(v.devices[i as int].pending.len() > 0 ==> v.devices[i as int].online
        ==> v.devices[i as int].pending.drop_last() =~= w.devices[i as int].pending || standing
        is Unreadable);
}

/// A device that restarts is handed everything that its database holds: where the scope stands, if
/// it ever stood anywhere, and every command that is still queued. What it kept in memory is gone,
/// and the database is left as it is.
pub proof fn a_restart_hands_over_what_is_stored(w: WorldView, i: usize, phase: Phase)
    requires
        i < w.devices.len(),
        i < w.databases.len(),
    ensures
        ({
            let (v, action) = restarting(w, i, phase);
            let db = w.databases[i as int];
            &&& action matches ActionView::Restart { device, restored, outbox }
            &&& device == i
            &&& outbox == db.outbox
            &&& restored is Some <==> db.cursors.dom().contains(w.scope)
            &&& restored matches Some(r) ==> r.0 == db.cursors[w.scope]
            &&& restored matches Some(r) ==> r.1 is Some ==> db.digests.dom().contains(w.scope)
                && number_within(db.digests[w.scope]@, 16, u128::MAX as nat) == r.1
            &&& restored matches Some(r) ==> r.1 is None ==> !db.digests.dom().contains(w.scope)
                || number_within(db.digests[w.scope]@, 16, u128::MAX as nat) is None
            &&& v.databases == w.databases
            &&& v.phase == phase
            &&& v.devices.len() == w.devices.len()
            &&& v.devices[i as int].pending.len() == 0
            &&& v.devices[i as int].online
            &&& !v.devices[i as int].pending_kill
            &&& v.devices[i as int].clock == w.devices[i as int].clock
            &&& v.devices[i as int].commands_authored == w.devices[i as int].commands_authored
            &&& v.net.server == w.net.server
            &&& v.net.in_flight == w.net.in_flight
            &&& forall|j: int|
                0 <= j < w.devices.len() && j != i ==> #[trigger] v.devices[j] == w.devices[j]
        }),
{
}

/// What a device has to hand in is sent as it is, in one request, if there is anything in it and the
/// device is online; either way it is then asked where it stands.
pub proof fn what_is_built_is_pushed<W: Codec>(
    w: WorldView,
    device: usize,
    request: Option<(ProtocolVersion, Seq<Command>)>,
    codec: &W,
)
    requires
        device < w.devices.len(),
        w.devices[device as int].next_id < u64::MAX,
        w.phase == (Phase::Pushing { device }),
    ensures
        ({
            let (v, action) = advanced(w, EventView::PushBuilt { request }, codec);
            let before = w.devices[device as int];
            let d = v.devices[device as int];
            let sends = before.online && (request matches Some(r) && r.1.len() > 0);
            &&& action == (ActionView::FindStanding { device })
            &&& v.net == w.net
            &&& v.databases == w.databases
            &&& !sends ==> v.devices == w.devices
            &&& sends ==> {
                &&& d.pending.len() == before.pending.len() + 1
                &&& d.pending.drop_last() == before.pending
                &&& d.pending.last().request == (RequestView::Push {
                    protocol: (request->0).0,
                    commands: (request->0).1,
                })
                &&& d.pending.last().id == before.next_id + 1
                &&& d.next_id == before.next_id + 1
            }
        }),
{
    let (v, action) = advanced(w, EventView::PushBuilt { request }, codec);
    let before = w.devices[device as int];
    if before.online && (request matches Some(r) && r.1.len() > 0) {
        assert(v.devices[device as int].pending.drop_last() =~= before.pending);
    }
}

/// Connectivity: a device that is offline is back once its time has come and not before; one that is
/// online goes off when the draw says so, for as long as a flap lasts, and that is put on record.
pub proof fn a_flap_lasts_its_time(w: WorldView, i: usize)
    requires
        i < w.devices.len(),
        0 <= w.now_ms <= i64::MAX - 1_000_000_000,
    ensures
        ({
            let v = connected(w, i);
            let before = w.devices[i as int];
            let d = v.devices[i as int];
            let (flap, s) = chance_of(w.net.rng, w.rates.connectivity_flap);
            &&& before.offline_until_ms > 0 && w.now_ms >= before.offline_until_ms ==> d.online
                && d.offline_until_ms == 0 && v.net == w.net
            &&& before.offline_until_ms > 0 && w.now_ms < before.offline_until_ms ==> v == w
            &&& before.offline_until_ms == 0 && flap ==> {
                &&& !d.online
                &&& d.offline_until_ms == w.now_ms + 90_000
                &&& v.net.rng == s
                &&& v.net.trace == w.net.trace.with_fault(w.now_ms, i, Fault::Flap)
            }
            &&& before.offline_until_ms == 0 && !flap ==> d == before && v.net.trace == w.net.trace
            &&& d.pending == before.pending
            &&& v.databases == w.databases
            &&& v.net.server == w.net.server
            &&& forall|j: int|
                0 <= j < w.devices.len() && j != i ==> #[trigger] v.devices[j] == w.devices[j]
        }),
{
}

/// A world at its start, whatever the seed: two to four devices, all online, with nothing stored and
/// nothing authored, each with a clock that is off by no more than the bounds; a server with an
/// empty log that knows the one command; and nothing found.
pub proof fn a_world_starts_empty(seed: u64, rates: FaultRates, trace: TraceView, i: int)
    ensures
        ({
            let w = new_world(seed, rates, trace);
            let d = w.devices[i];
            &&& 2 <= w.devices.len() <= 4
            &&& w.databases.len() == w.devices.len()
            &&& 0 <= i < w.devices.len() ==> {
                &&& w.databases[i] == empty_db()
                &&& d.online && d.pending.len() == 0 && !d.pending_kill
                &&& d.commands_authored == 0 && d.requests_sent == 0
                &&& d.clock.now_ms == w.now_ms && d.clock.epoch_ms == w.now_ms
                &&& -259_200_000 <= d.clock.skew_ms <= 259_200_000
                &&& -200 <= d.clock.drift_ppm <= 200
                &&& 1 <= d.ratio <= 8
            }
            &&& w.net.server.log.len() == 0
            &&& w.net.server.dedupe.dom() == Set::<u128>::empty()
            &&& w.net.server.guard
            &&& w.net.server.targets.dom() == Set::empty().insert("submit_reflection"@)
            &&& w.net.server.targets["submit_reflection"@] == (w.entity, w.scope)
            &&& w.net.in_flight.len() == 0 && w.net.held.len() == 0
            &&& w.found.len() == 0
            &&& w.phase is Idle && !w.quiet && w.rates == rates && w.seed == seed
        }),
{
    let (count, s) = range_of(crate::rng::start(seed), 2, 4);
    a_range_is_kept(crate::rng::start(seed), 2, 4);
    devices_are_drawn(s, count as nat);
    let w = new_world(seed, rates, trace);
    assert(w.net.server.targets.dom() =~= Set::empty().insert("submit_reflection"@));
    assert(w.net.server.dedupe.dom() =~= Set::<u128>::empty());
}

proof fn devices_are_drawn(s: u64, n: nat)
    ensures
        drawn_devices(s, n).0.len() == n,
        forall|i: int|
            0 <= i < n ==> {
                let d = #[trigger] drawn_devices(s, n).0[i];
                &&& d.online && d.pending.len() == 0 && !d.pending_kill
                &&& d.commands_authored == 0 && d.requests_sent == 0
                &&& d.clock.now_ms == START_MS && d.clock.epoch_ms == START_MS
                &&& -259_200_000 <= d.clock.skew_ms <= 259_200_000
                &&& -200 <= d.clock.drift_ppm <= 200
                &&& 1 <= d.ratio <= 8
            },
    decreases n,
{
    if n > 0 {
        devices_are_drawn(s, (n - 1) as nat);
        let (before, t) = drawn_devices(s, (n - 1) as nat);
        let (skew_ms, s1) = crate::rng::signed_of(t, SKEW_MAGNITUDE_MS);
        crate::rng::a_signed_offset_is_within(t, SKEW_MAGNITUDE_MS);
        a_range_is_kept(s1, 0, 400);
        let (drift, s2) = range_of(s1, 0, 400);
        let (x, s3) = crate::rng::u64_of(s2);
        a_range_is_kept(s3, 1, 8);
        let all = drawn_devices(s, n).0;
        assert forall|i: int| 0 <= i < n implies {
            let d = #[trigger] all[i];
            &&& d.online && d.pending.len() == 0 && !d.pending_kill
            &&& d.commands_authored == 0 && d.requests_sent == 0
            &&& d.clock.now_ms == START_MS && d.clock.epoch_ms == START_MS
            &&& -259_200_000 <= d.clock.skew_ms <= 259_200_000
            &&& -200 <= d.clock.drift_ppm <= 200
            &&& 1 <= d.ratio <= 8
        } by {
            if i < n - 1 {
                assert(all[i] == before[i]);
            }
        }
    }
}

/// Settling begins with every fault switched off and every device online, and nobody writing; the
/// server, the databases and what is under way are as they were.
pub proof fn quiet_means_no_faults_and_no_writers(w: WorldView, i: int)
    requires
        0 <= i < w.devices.len(),
    ensures
        ({
            let v = quieted(w);
            &&& v.quiet
            &&& v.devices.len() == w.devices.len()
            &&& v.devices[i].online
            &&& v.devices[i] == (DeviceView { online: true, ..w.devices[i] })
            &&& v.databases == w.databases && v.net == w.net && v.now_ms == w.now_ms
            &&& forall|s: u64, index: u64| #[trigger]
                response_fault(s, v.rates, index) == (None::<Fault>, s)
            &&& forall|s: u64| #[trigger] storage_fault(s, v.rates) == (None::<Fault>, s)
            &&& chance_of(w.net.rng, v.rates.server_restart).0 == false
            &&& chance_of(w.net.rng, v.rates.device_restart).0 == false
            &&& chance_of(w.net.rng, v.rates.connectivity_flap).0 == false
            &&& chance_of(w.net.rng, v.rates.protocol_violation).0 == false
        }),
{
}

/// A settled world is judged on every device: what was found before stays, and nothing is added
/// exactly when every device has converged with the server and kept to its declared policy. The
/// rates are the hostile ones again.
pub proof fn settling_ends_with_a_judgement<W: Codec>(w: WorldView, hostile: FaultRates, codec: &W)
    ensures
        ({
            let v = settled(w, hostile, codec);
            let head = (w.net.server.next_seq - 1) as u64;
            let digest = server_digest(w.net.server.log, w.scope, codec);
            &&& v.rates == hostile && !v.quiet
            &&& v.found.len() >= w.found.len()
            &&& v.found.take(w.found.len() as int) == w.found
            &&& v.found.len() == w.found.len() <==> forall|i: int|
                0 <= i < w.databases.len() ==> {
                    let db = #[trigger] w.databases[i];
                    &&& convergence_found(db, w.scope, digest, head, i as usize, w.now_ms).len() == 0
                    &&& policy_found(db, w.classes, i as usize, w.now_ms).len() == 0
                }
            &&& v.databases == w.databases && v.net == w.net
        }),
{
    let n = w.databases.len();
    let head = (w.net.server.next_seq - 1) as u64;
    let digest = server_digest(w.net.server.log, w.scope, codec);
    let f = |i: int|
        convergence_found(w.databases[i], w.scope, digest, head, i as usize, w.now_ms);
    let g = |i: int| policy_found(w.databases[i], w.classes, i as usize, w.now_ms);
    crate::check_laws::silence_is_silence_everywhere(f, n);
    crate::check_laws::silence_is_silence_everywhere(g, n);
    let v = settled(w, hostile, codec);
    assert(v.found == w.found + over(f, n) + over(g, n));
    assert(v.found.take(w.found.len() as int) =~= w.found);
    if v.found.len() == w.found.len() {
        assert forall|i: int| 0 <= i < n implies {
            let db = #[trigger] w.databases[i];
            &&& convergence_found(db, w.scope, digest, head, i as usize, w.now_ms).len() == 0
            &&& policy_found(db, w.classes, i as usize, w.now_ms).len() == 0
        } by {
            assert(f(i).len() == 0 && g(i).len() == 0);
        }
    }
    if forall|i: int|
        0 <= i < w.databases.len() ==> {
            let db = #[trigger] w.databases[i];
            &&& convergence_found(db, w.scope, digest, head, i as usize, w.now_ms).len() == 0
            &&& policy_found(db, w.classes, i as usize, w.now_ms).len() == 0
        } {
        assert forall|i: int| 0 <= i < n implies (#[trigger] f(i)).len() == 0 by {
            let db = w.databases[i];
        }
        assert forall|i: int| 0 <= i < n implies (#[trigger] g(i)).len() == 0 by {
            let db = w.databases[i];
        }
    }
}

/// How many of some requests get an answer when nothing goes wrong.
pub open spec fn answerable(requests: Seq<OutboundView>) -> nat
    decreases requests.len(),
{
    if requests.len() == 0 {
        0
    } else {
        answerable(requests.drop_last()) + if requests.last().request is Bootstrap {
            0nat
        } else {
            1nat
        }
    }
}

proof fn answers_of_a_device<W: Codec>(
    n: NetView,
    now_ms: i64,
    device: usize,
    sent: u64,
    requests: Seq<OutboundView>,
    codec: &W,
)
    ensures
        ({
            let after = carried_all(n, quiet_rates(), now_ms, device, sent, requests, codec);
            &&& after.in_flight.len() == n.in_flight.len() + answerable(requests)
            &&& after.held == n.held
            &&& after.in_flight.take(n.in_flight.len() as int) == n.in_flight
            &&& forall|k: int|
                n.in_flight.len() <= k < after.in_flight.len() ==> (
                #[trigger] after.in_flight[k]).device == device
        }),
    decreases requests.len(),
{
    if requests.len() > 0 {
        let rest = requests.drop_last();
        answers_of_a_device(n, now_ms, device, sent, rest, codec);
        let before = carried_all(n, quiet_rates(), now_ms, device, sent, rest, codec);
        let after = carried_all(n, quiet_rates(), now_ms, device, sent, requests, codec);
        let index = (sent + requests.len()) as u64;
        assert(response_fault(before.rng, quiet_rates(), index).0 is None);
        assert(after.in_flight.take(n.in_flight.len() as int) =~= n.in_flight) by {
            assert forall|k: int| 0 <= k < n.in_flight.len() implies #[trigger] after.in_flight[k]
                == n.in_flight[k] by {
                assert(before.in_flight.take(n.in_flight.len() as int)[k] == before.in_flight[k]);
            }
        }
        assert forall|k: int| n.in_flight.len() <= k < after.in_flight.len() implies (
        #[trigger] after.in_flight[k]).device == device by {
            if k < before.in_flight.len() {
                assert(after.in_flight[k] == before.in_flight[k]);
            }
        }
    } else {
        assert(n.in_flight.take(n.in_flight.len() as int) =~= n.in_flight);
    }
}

/// How many requests of some devices get an answer when nothing goes wrong.
pub open spec fn answerable_of(devices: Seq<DeviceView>, n: nat) -> nat
    decreases n,
{
    if n == 0 {
        0
    } else {
        answerable_of(devices, (n - 1) as nat) + answerable(devices[n - 1].pending)
    }
}

proof fn answers_of_some_devices<W: Codec>(w: WorldView, n: nat, codec: &W)
    requires
        w.rates == quiet_rates(),
        n <= w.devices.len(),
    ensures
        carried_for(w, n, codec).in_flight.len() == w.net.in_flight.len() + answerable_of(
            w.devices,
            n,
        ),
        carried_for(w, n, codec).held == w.net.held,
    decreases n,
{
    if n > 0 {
        let m = (n - 1) as nat;
        answers_of_some_devices(w, m, codec);
        let d = w.devices[m as int];
        answers_of_a_device(
            carried_for(w, m, codec),
            w.now_ms,
            m as usize,
            d.requests_sent,
            d.pending,
            codec,
        );
    }
}

/// In a world without faults every pull and every push of every device is answered, once: as many
/// answers are on their way afterwards as there were before and requests that were sent. Every
/// device's requests have been taken, and are counted; what was held back has rejoined the others.
pub proof fn every_request_is_answered_in_a_quiet_world<W: Codec>(w: WorldView, codec: &W)
    requires
        w.rates == quiet_rates(),
    ensures
        ({
            let v = network_carried(w, codec);
            &&& v.net.in_flight.len() == w.net.in_flight.len() + answerable_of(
                w.devices,
                w.devices.len(),
            ) + w.net.held.len()
            &&& v.net.held.len() == 0
            &&& v.devices.len() == w.devices.len()
            &&& forall|i: int|
                0 <= i < w.devices.len() ==> {
                    let d = #[trigger] v.devices[i];
                    &&& d.pending.len() == 0
                    &&& d.requests_sent == (w.devices[i].requests_sent
                        + w.devices[i].pending.len()) as u64
                }
            &&& v.databases == w.databases
        }),
{
    answers_of_some_devices(w, w.devices.len(), codec);
    let n = carried_for(w, w.devices.len(), codec);
    what_was_held_back_comes_later(n.in_flight, n.held, n.rng, w.now_ms);
}

/// When a step begins, true time and every device's idea of it have moved on by one step, and
/// nothing else of a device has changed.
pub proof fn clocks_move_with_the_world(w: WorldView, i: int)
    requires
        0 <= i < w.devices.len(),
        w.now_ms + STEP_MS <= i64::MAX,
    ensures
        moved_on(w).now_ms == w.now_ms + 60_000,
        moved_on(w).devices[i].clock.now_ms == w.now_ms + 60_000,
        moved_on(w).devices[i].clock.skew_ms == w.devices[i].clock.skew_ms,
        moved_on(w).devices[i].clock.drift_ppm == w.devices[i].clock.drift_ppm,
        moved_on(w).devices[i].clock.epoch_ms == w.devices[i].clock.epoch_ms,
        moved_on(w).devices[i].pending == w.devices[i].pending,
        moved_on(w).databases == w.databases,
        moved_on(w).net.server == committed(w.net.server),
{
}

/// Somebody else writes only while the world is not quiet and the draw says so; then the log has one
/// entry more, a write into the run's scope and entity.
pub proof fn others_write_one_change_at_a_time(w: WorldView)
    requires
        w.net.server.next_seq < u64::MAX,
    ensures
        ({
            let v = written_elsewhere(w);
            let (hit, s) = chance_of(w.net.rng, 2);
            let a = w.net.server.log;
            let b = v.net.server.log;
            &&& w.quiet ==> v == w
            &&& !w.quiet && !hit ==> v.net.server == w.net.server
            &&& !w.quiet && hit ==> {
                &&& b.len() == a.len() + 1
                &&& b.drop_last() == a
                &&& b.last().scope == w.scope
                &&& b.last().change.row.0 == w.entity
                &&& b.last().change.op == Op::Upsert
                &&& b.last().change.seq == w.net.server.next_seq
            }
            &&& v.databases == w.databases && v.devices == w.devices
        }),
{
    let v = written_elsewhere(w);
    if v.net.server.log.len() > w.net.server.log.len() {
        assert(v.net.server.log.drop_last() =~= w.net.server.log);
    }
}

/// What a user of a device writes: a command of the run's scope, under an id that no other command
/// of that device or of another has as long as none authors more than 256, with the checksum of its
/// own text and the time that the device's clock shows.
pub proof fn what_is_authored<W: Codec>(w: WorldView, i: usize, codec: &W)
    requires
        i < w.devices.len(),
        i < 256,
        i < w.databases.len(),
    ensures
        ({
            let (v, action) = authored(w, i, codec);
            let d = w.devices[i as int];
            &&& action matches ActionView::Enqueue {
                device,
                id,
                name,
                scope,
                json,
                sum,
                client_ts,
                ..
            }
            &&& device == i
            &&& id == 0x0191_0000_0000_7000_0000_0000_0000_0000 + i * 256 + d.commands_authored
            &&& name == "submit_reflection"@
            &&& scope == w.scope
            &&& sum == payload_checksum(codec, json)
            &&& client_ts == apparent(d.clock)
            &&& v.devices[i as int].commands_authored == (d.commands_authored + 1) % 256
        }),
{
}

/// A protocol violation repeats something and alters nothing else: the last result of a push, or the
/// last change of the first batch that holds one; and where there is nothing to repeat it does not
/// happen.
pub proof fn a_violation_repeats_one_thing(results: Seq<ResultView>, batches: Seq<BatchView>)
    ensures
        ({
            let (sent, broken) = results_repeated(results);
            &&& broken <==> results.len() > 0
            &&& !broken ==> sent == results
            &&& broken ==> sent.len() == results.len() + 1 && sent.drop_last() == results
                && sent.last() == results.last()
        }),
        ({
            let (sent, broken) = batches_repeated(batches);
            &&& broken <==> exists|i: int|
                0 <= i < batches.len() && (#[trigger] batches[i]).changes.len() > 0
            &&& !broken ==> sent == batches
            &&& sent.len() == batches.len()
            &&& broken ==> exists|i: int|
                {
                    &&& 0 <= i < batches.len()
                    &&& (#[trigger] batches[i]).changes.len() > 0
                    &&& sent[i].changes.len() == batches[i].changes.len() + 1
                    &&& sent[i].changes.drop_last() == batches[i].changes
                    &&& sent[i].changes.last() == batches[i].changes.last()
                    &&& sent[i].next_cursor == batches[i].next_cursor
                    &&& forall|j: int|
                        0 <= j < batches.len() && j != i ==> #[trigger] sent[j] == batches[j]
                }
        }),
{
    if results.len() > 0 {
        assert(results_repeated(results).0.drop_last() =~= results);
    }
    first_full_is_full(batches);
    let i = first_full(batches);
    if i < batches.len() {
        let sent = batches_repeated(batches).0;
        assert(sent[i].changes.drop_last() =~= batches[i].changes);
        assert(batches[i].changes.len() > 0);
    }
}

proof fn first_full_is_full(batches: Seq<BatchView>)
    ensures
        0 <= first_full(batches) <= batches.len(),
        first_full(batches) < batches.len() ==> batches[first_full(batches)].changes.len() > 0,
        forall|j: int| 0 <= j < first_full(batches) ==> (#[trigger] batches[j]).changes.len() == 0,
    decreases batches.len(),
{
    if batches.len() > 0 && batches[0].changes.len() == 0 {
        let rest = batches.drop_first();
        first_full_is_full(rest);
        assert forall|j: int| 0 <= j < first_full(batches) implies (
        #[trigger] batches[j]).changes.len() == 0 by {
            if j > 0 {
                assert(rest[j - 1] == batches[j]);
            }
        }
    }
}

/// Deliveries go on where they were: when a batch has been applied the next batch of the same
/// response is at hand, as long as there is one; when results have been taken in, or the batches are
/// used up, nothing more of that response is handed over. A device that died over a delivery is
/// restarted first, and what is at hand does not change for that.
pub proof fn deliveries_go_on<W: Codec>(w: WorldView, event: EventView, codec: &W)
    requires
        fits(w.phase, event),
        w.phase is Applying || w.phase is Settling || w.phase is Delivering,
        0 <= w.due_at < w.due.len(),
        w.batch_at >= 0,
        w.due[w.due_at as int].device < w.devices.len(),
    ensures
        ({
            let (v, action) = advanced(w, event, codec);
            let f = w.due[w.due_at as int];
            let dies = !(w.phase is Delivering) && w.devices[f.device as int].pending_kill;
            let at = if w.phase is Delivering {
                w.batch_at as int
            } else {
                w.batch_at as int + 1
            };
            &&& v.due == w.due
            &&& dies ==> {
                &&& action matches ActionView::Restart { device, .. }
                &&& device == f.device
                &&& v.phase is Delivering
                &&& w.phase is Applying ==> v.due_at == w.due_at && v.batch_at == w.batch_at + 1
                &&& w.phase is Settling ==> v.due_at == w.due_at + 1 && v.batch_at == 0
            }
            &&& !dies && !(w.phase is Settling) && (f.response matches ResponseView::Pull {
                batches,
                ..
            } && at < batches.len()) ==> action == (ActionView::ApplyBatch {
                device: f.device,
                batch: f.response->batches[at],
            }) && v.due_at == w.due_at && v.batch_at == at
            &&& !dies && w.phase is Settling ==> v.due_at > w.due_at
            &&& !dies && w.phase is Applying && (f.response matches ResponseView::Pull {
                batches,
                ..
            } && at >= batches.len()) ==> v.due_at > w.due_at
        }),
{
    let f = w.due[w.due_at as int];
    match event {
        EventView::BatchApplied { outcome } => {
            let told = WorldView {
                batch_at: w.batch_at + 1,
                phase: Phase::Delivering,
                ..with_event(w, f.device, batch_word(outcome))
            };
            nothing_due_is_skipped(told);
            is_next(told);
        },
        EventView::ResultsApplied { taken } => {
            let told = WorldView {
                due_at: w.due_at + 1,
                batch_at: 0,
                phase: Phase::Delivering,
                ..with_event(
                    w,
                    f.device,
                    if taken {
                        "results-applied"@
                    } else {
                        "results-refused"@
                    },
                )
            };
            nothing_due_is_skipped(told);
        },
        _ => {
            nothing_due_is_skipped(w);
            is_next(w);
        },
    }
}

proof fn is_next(w: WorldView)
    requires
        0 <= w.due_at < w.due.len(),
        w.batch_at >= 0,
    ensures
        is_spent(w.due, w.due_at as int, w.due_at as int, w.batch_at as int)
            || delivering(w).0.due_at == w.due_at,
        w.due[w.due_at as int].response is Pull && is_spent(
            w.due,
            w.due_at as int,
            w.due_at as int,
            w.batch_at as int,
        ) ==> delivering(w).0.due_at > w.due_at,
{
    nothing_due_is_skipped(w);
    if delivering(w).0.due_at > w.due_at {
        assert(is_spent(w.due, w.due_at as int, w.due_at as int, w.batch_at as int));
    }
}

/// What a device is answered when nothing goes wrong on the way is what the server says: a pull with
/// one batch for each scope it asked for, from where it asked and under the budget of the load, and
/// a push with the results of the commands that were looked at, in their order.
pub proof fn an_answer_is_what_the_server_says<W: Codec>(
    n: NetView,
    rates: FaultRates,
    now_ms: i64,
    device: usize,
    index: u64,
    request: RequestView,
    codec: &W,
)
    requires
        n.pressure.wf(),
        response_fault(n.rng, rates, index).0 is None,
        !chance_of(response_fault(n.rng, rates, index).1, rates.protocol_violation).0,
    ensures
        ({
            let after = carried(n, rates, now_ms, device, index, request, codec);
            let last = after.in_flight.last();
            let t = chance_of(response_fault(n.rng, rates, index).1, rates.protocol_violation).1;
            match request {
                RequestView::Pull { protocol, scopes, .. } => {
                    &&& after.in_flight.len() == n.in_flight.len() + 1
                    &&& last.device == device
                    &&& last.response matches ResponseView::Pull { protocol: spoken, batches }
                    &&& spoken == protocol
                    &&& batches.len() == scopes.len()
                    &&& forall|k: int|
                        0 <= k < scopes.len() ==> #[trigger] batches[k] == pull_batch(
                            n.server,
                            scopes[k].0,
                            scopes[k].1,
                            4,
                            budget_of(n.pressure.load, n.pressure.severity) as usize,
                            codec,
                        )
                },
                RequestView::Push { protocol, commands } => {
                    let taken = accepted_of(
                        n.pressure.load,
                        n.pressure.severity,
                        commands.len() as int,
                    );
                    &&& after.in_flight.len() == n.in_flight.len() + 1
                    &&& last.device == device
                    &&& last.response matches ResponseView::Push { protocol: spoken, results }
                    &&& spoken == protocol
                    &&& results == answered_all(n.server, commands.take(taken), t).0
                    &&& after.pressure.deferred_commands == (n.pressure.deferred_commands + (
                    commands.len() - taken)) as u64
                },
                RequestView::Bootstrap { .. } => after.in_flight == n.in_flight && after.server
                    == n.server,
            }
        }),
{
}

/// A command was ever enqueued by some devices exactly when one of them ever enqueued it.
pub proof fn what_any_device_enqueued_counts(dbs: Seq<DbView>, id: u128)
    ensures
        ever_enqueued(dbs).contains(id) <==> exists|i: int|
            0 <= i < dbs.len() && (#[trigger] dbs[i]).enqueued.contains(id),
    decreases dbs.len(),
{
    if dbs.len() > 0 {
        let rest = dbs.drop_last();
        what_any_device_enqueued_counts(rest, id);
        if ever_enqueued(rest).contains(id) {
            let i = choose|i: int| 0 <= i < rest.len() && (#[trigger] rest[i]).enqueued.contains(id);
            assert(dbs[i].enqueued.contains(id));
        }
        if exists|i: int| 0 <= i < dbs.len() && (#[trigger] dbs[i]).enqueued.contains(id) {
            let i = choose|i: int| 0 <= i < dbs.len() && (#[trigger] dbs[i]).enqueued.contains(id);
            if i < rest.len() {
                assert(rest[i].enqueued.contains(id));
            }
        }
        if dbs.last().enqueued.contains(id) {
            assert(dbs[dbs.len() - 1].enqueued.contains(id));
        }
    }
}

} // verus!
