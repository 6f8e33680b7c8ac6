//! What holds of the simulated server whatever is asked of it.
use crate::dedupe::{body_checksum, mutated_sentence};
use crate::protocol::{Command, Op, RowVersion, SeqNo, Status};
use crate::pull::ascending_past;
use crate::rng::below_of;
use crate::server::{
    answered, answered_all, appended, committed, log_ordered, past, performed, positions,
    positions_in_order, readable, refused, scope_log, scope_log_is_the_scope, server_sound, upto,
    version_at, EntryView, ServerView,
};
use crate::text::decimal;
use vstd::prelude::*;

verus! {

/// Entries are in the order of their positions.
pub open spec fn entries_ascend(entries: Seq<EntryView>) -> bool {
    forall|j: int, k: int|
        0 <= j < k < entries.len() ==> (#[trigger] entries[j]).change.seq < (
        #[trigger] entries[k]).change.seq
}

/// The entries at or below a cursor come before the others.
pub proof fn upto_splits(entries: Seq<EntryView>, cursor: u64)
    requires
        entries_ascend(entries),
    ensures
        upto(entries, cursor) <= entries.len(),
        forall|k: int|
            0 <= k < entries.len() ==> ((#[trigger] entries[k]).change.seq <= cursor <==> k < upto(
                entries,
                cursor,
            )),
    decreases entries.len(),
{
    if entries.len() > 0 {
        let rest = entries.drop_last();
        upto_splits(rest, cursor);
        let last = entries.len() - 1;
        assert forall|k: int| 0 <= k < entries.len() implies ((
        #[trigger] entries[k]).change.seq <= cursor <==> k < upto(entries, cursor)) by {
            if k < last {
                assert(rest[k] == entries[k]);
                assert(entries[k].change.seq < entries[last].change.seq);
            }
        }
    }
}

/// What lies past a cursor is exactly what the log holds of the scope at higher positions, in
/// order.
pub proof fn past_is_past(log: Seq<EntryView>, scope: Seq<char>, cursor: u64, next_seq: u64)
    requires
        log_ordered(log, next_seq),
    ensures
        forall|k: int|
            0 <= k < past(log, scope, cursor).len() ==> (#[trigger] past(
                log,
                scope,
                cursor,
            )[k]).change.seq > cursor && past(log, scope, cursor)[k].scope == scope,
        forall|j: int, k: int|
            0 <= j < k < past(log, scope, cursor).len() ==> (#[trigger] past(
                log,
                scope,
                cursor,
            )[j]).change.seq < (#[trigger] past(log, scope, cursor)[k]).change.seq,
        forall|e: EntryView|
            log.contains(e) && e.scope == scope && e.change.seq > cursor ==> #[trigger] past(
                log,
                scope,
                cursor,
            ).contains(e),
{
    scope_log_is_the_scope(log, scope, next_seq);
    let entries = scope_log(log, scope);
    upto_splits(entries, cursor);
    let n = upto(entries, cursor) as int;
    let rest = past(log, scope, cursor);
    assert forall|k: int| 0 <= k < rest.len() implies (#[trigger] rest[k]).change.seq > cursor
        && rest[k].scope == scope by {
        assert(rest[k] == entries[k + n]);
    }
    assert forall|j: int, k: int| 0 <= j < k < rest.len() implies (#[trigger] rest[j]).change.seq
        < (#[trigger] rest[k]).change.seq by {
        assert(rest[j] == entries[j + n]);
        assert(rest[k] == entries[k + n]);
    }
    assert forall|e: EntryView|
        log.contains(e) && e.scope == scope && e.change.seq
            > cursor implies #[trigger] rest.contains(e) by {
        assert(entries.contains(e));
        let k = choose|k: int| 0 <= k < entries.len() && entries[k] == e;
        assert(rest[k - n] == e);
    }
}

/// What lies past a cursor stands in the log.
pub proof fn past_is_in_the_log(log: Seq<EntryView>, scope: Seq<char>, cursor: u64, next_seq: u64)
    requires
        log_ordered(log, next_seq),
    ensures
        forall|k: int|
            0 <= k < past(log, scope, cursor).len() ==> log.contains(
                #[trigger] past(log, scope, cursor)[k],
            ),
{
    scope_log_is_the_scope(log, scope, next_seq);
    let entries = scope_log(log, scope);
    upto_splits(entries, cursor);
    let n = upto(entries, cursor) as int;
    assert forall|k: int| 0 <= k < past(log, scope, cursor).len() implies log.contains(
        #[trigger] past(log, scope, cursor)[k],
    ) by {
        assert(past(log, scope, cursor)[k] == entries[k + n]);
    }
}

/// With the guard on, a reader is handed the first entries, as long as they are visible.
pub proof fn guarded_reading(entries: Seq<EntryView>, limit: nat)
    ensures
        readable(entries, true, limit).len() <= entries.len(),
        readable(entries, true, limit).len() <= limit,
        forall|i: int|
            0 <= i < readable(entries, true, limit).len() ==> #[trigger] readable(
                entries,
                true,
                limit,
            )[i] == entries[i].change && entries[i].visible,
        readable(entries, true, limit).len() < limit && readable(entries, true, limit).len()
            < entries.len() ==> !entries[readable(entries, true, limit).len() as int].visible,
    decreases entries.len(),
{
    if entries.len() > 0 && limit > 0 && entries[0].visible {
        let rest = entries.drop_first();
        guarded_reading(rest, (limit - 1) as nat);
        let tail = readable(rest, true, (limit - 1) as nat);
        let all = readable(entries, true, limit);
        assert(all == seq![entries[0].change] + tail);
        assert forall|i: int| 0 <= i < all.len() implies #[trigger] all[i] == entries[i].change
            && entries[i].visible by {
            if i > 0 {
                assert(tail[i - 1] == rest[i - 1].change);
            }
        }
    }
}

/// With the guard on, a pull never leaves a hole: it hands over, in order, the first entries past
/// the cursor, all of them visible, and stops at the row limit, at the first write that has not
/// committed, or at the end. So no change of the scope between the cursor and the last change
/// handed over is withheld.
pub proof fn a_guarded_pull_never_skips(
    log: Seq<EntryView>,
    scope: Seq<char>,
    cursor: u64,
    limit: nat,
    next_seq: u64,
    e: EntryView,
)
    requires
        log_ordered(log, next_seq),
        log.contains(e),
        e.scope == scope,
        e.change.seq > cursor,
        readable(past(log, scope, cursor), true, limit).len() > 0,
        e.change.seq <= readable(past(log, scope, cursor), true, limit).last().seq,
    ensures
        e.visible,
        readable(past(log, scope, cursor), true, limit).contains(e.change),
{
    past_is_past(log, scope, cursor, next_seq);
    let rest = past(log, scope, cursor);
    guarded_reading(rest, limit);
    let cs = readable(rest, true, limit);
    assert(rest.contains(e));
    let k = choose|k: int| 0 <= k < rest.len() && rest[k] == e;
    let last = cs.len() - 1;
    assert(cs[last] == rest[last].change);
    if k > last {
        assert(rest[last].change.seq < rest[k].change.seq);
    }
    assert(cs[k] == e.change);
}

proof fn reading_keeps_order(entries: Seq<EntryView>, guard: bool, limit: nat)
    requires
        entries_ascend(entries),
    ensures
        forall|i: int|
            0 <= i < readable(entries, guard, limit).len() ==> exists|k: int|
                0 <= k < entries.len() && (#[trigger] entries[k]).visible && entries[k].change == (
                #[trigger] readable(entries, guard, limit)[i]),
        forall|i: int, j: int|
            0 <= i < j < readable(entries, guard, limit).len() ==> (#[trigger] readable(
                entries,
                guard,
                limit,
            )[i]).seq < (#[trigger] readable(entries, guard, limit)[j]).seq,
    decreases entries.len(),
{
    if entries.len() > 0 && limit > 0 && (entries[0].visible || !guard) {
        let rest = entries.drop_first();
        assert(entries_ascend(rest)) by {
            assert forall|j: int, k: int| 0 <= j < k < rest.len() implies (
            #[trigger] rest[j]).change.seq < (#[trigger] rest[k]).change.seq by {
                assert(entries[j + 1].change.seq < entries[k + 1].change.seq);
            }
        }
        let m = if entries[0].visible {
            (limit - 1) as nat
        } else {
            limit
        };
        reading_keeps_order(rest, guard, m);
        let tail = readable(rest, guard, m);
        let all = readable(entries, guard, limit);
        let shift: int = if entries[0].visible {
            1
        } else {
            0
        };
        assert(entries[0].visible ==> all == seq![entries[0].change] + tail);
        assert(!entries[0].visible ==> all == tail);
        assert forall|i: int| 0 <= i < all.len() implies exists|k: int|
            0 <= k < entries.len() && (#[trigger] entries[k]).visible && entries[k].change == (
            #[trigger] all[i]) by {
            if i < shift {
                assert(entries[0].change == all[0]);
            } else {
                assert(all[i] == tail[i - shift]);
                let k = choose|k: int|
                    0 <= k < rest.len() && (#[trigger] rest[k]).visible && rest[k].change
                        == tail[i - shift];
                assert(entries[k + 1].change == all[i]);
            }
        }
        assert forall|i: int, j: int| 0 <= i < j < all.len() implies (#[trigger] all[i]).seq < (
        #[trigger] all[j]).seq by {
            assert(all[j] == tail[j - shift]);
            if i < shift {
                let k = choose|k: int|
                    0 <= k < rest.len() && (#[trigger] rest[k]).visible && rest[k].change
                        == tail[j - shift];
                assert(entries[0].change.seq < entries[k + 1].change.seq);
            } else {
                assert(all[i] == tail[i - shift]);
            }
        }
    }
}

/// What a pull hands over is of its scope, committed, past the cursor and in order, whatever
/// cursor the client sends and whether or not the guard is on.
pub proof fn a_pull_stays_in_its_scope(
    log: Seq<EntryView>,
    scope: Seq<char>,
    cursor: u64,
    guard: bool,
    limit: nat,
    next_seq: u64,
)
    requires
        log_ordered(log, next_seq),
    ensures
        ascending_past(cursor, readable(past(log, scope, cursor), guard, limit)),
        forall|i: int|
            0 <= i < readable(past(log, scope, cursor), guard, limit).len() ==> exists|
                e: EntryView,
            |
                log.contains(e) && e.scope == scope && e.visible && #[trigger] e.change == (
                #[trigger] readable(past(log, scope, cursor), guard, limit)[i]),
{
    past_is_past(log, scope, cursor, next_seq);
    scope_log_is_the_scope(log, scope, next_seq);
    let entries = scope_log(log, scope);
    let rest = past(log, scope, cursor);
    upto_splits(entries, cursor);
    reading_keeps_order(rest, guard, limit);
    let cs = readable(rest, guard, limit);
    let n = upto(entries, cursor) as int;
    assert forall|i: int| 0 <= i < cs.len() implies exists|e: EntryView|
        log.contains(e) && e.scope == scope && e.visible && #[trigger] e.change == (
        #[trigger] cs[i]) by {
        let k = choose|k: int|
            0 <= k < rest.len() && (#[trigger] rest[k]).visible && rest[k].change == cs[i];
        assert(rest[k] == entries[k + n]);
        assert(log.contains(entries[k + n]));
        assert(rest[k].change == cs[i]);
    }
    assert forall|i: int| 0 <= i < cs.len() implies cursor < (#[trigger] cs[i]).seq by {
        let k = choose|k: int|
            0 <= k < rest.len() && (#[trigger] rest[k]).visible && rest[k].change == cs[i];
        assert(rest[k].change.seq > cursor);
    }
}

/// A command that has been answered is answered the same again, whatever the generator would
/// say, and nothing else happens: no second effect, no second position in the log.
pub proof fn an_answer_is_given_once(v: ServerView, command: Command, s: u64, later: u64)
    requires
        body_checksum(command) is Some,
    ensures
        ({
            let (result, w, t) = answered(v, command, s);
            answered(w, command, later) == (result, w, later)
        }),
{
}

/// A tampered replay changes nothing: a command that reuses the id of another with a different
/// body is refused, writes nothing, draws nothing and leaves the record, so the honest command is
/// answered afterwards as it was before.
pub proof fn a_tampered_replay_damages_nothing(
    v: ServerView,
    honest: Command,
    tampered: Command,
    s: u64,
    later: u64,
    latest: u64,
)
    requires
        !v.dedupe.dom().contains(honest.id.raw),
        tampered.id == honest.id,
        body_checksum(honest) is Some,
        body_checksum(tampered) is Some,
        body_checksum(honest) != body_checksum(tampered),
    ensures
        ({
            let (result, before, t) = answered(v, honest, s);
            let (refusal, w, u) = answered(before, tampered, later);
            &&& refusal == refused(honest.id.raw, mutated_sentence())
            &&& w == before
            &&& u == later
            &&& answered(w, honest, latest) == (result, w, latest)
        }),
{
}

/// A record is final: whatever commands are answered after it, the record of an id stays as it is,
/// as long as the bodies that come under that id can be encoded.
pub proof fn records_stay(v: ServerView, commands: Seq<Command>, s: u64, id: u128)
    requires
        v.dedupe.dom().contains(id),
        forall|i: int|
            0 <= i < commands.len() && (#[trigger] commands[i]).id.raw == id ==> body_checksum(
                commands[i],
            ) is Some,
    ensures
        answered_all(v, commands, s).1.dedupe.dom().contains(id),
        answered_all(v, commands, s).1.dedupe[id] == v.dedupe[id],
    decreases commands.len(),
{
    if commands.len() > 0 {
        let rest = commands.drop_last();
        let last = commands.len() - 1;
        assert forall|i: int|
            0 <= i < rest.len() && (#[trigger] rest[i]).id.raw == id implies body_checksum(
            rest[i],
        ) is Some by {
            assert(rest[i] == commands[i]);
        }
        records_stay(v, rest, s, id);
        assert(commands[last] == commands.last());
    }
}

/// A command that has been answered is answered the same whenever it comes again: whatever was
/// answered in between, it gets the recorded outcome, and nothing else happens.
pub proof fn a_replay_gets_the_record(
    v: ServerView,
    command: Command,
    s: u64,
    between: Seq<Command>,
    later: u64,
    latest: u64,
)
    requires
        body_checksum(command) is Some,
        !v.dedupe.dom().contains(command.id.raw),
        forall|i: int|
            0 <= i < between.len() && (#[trigger] between[i]).id == command.id ==> body_checksum(
                between[i],
            ) is Some,
    ensures
        ({
            let (result, w, t) = answered(v, command, s);
            let u = answered_all(w, between, later).1;
            answered(u, command, latest) == (result, u, latest)
        }),
{
    let (result, w, t) = answered(v, command, s);
    assert forall|i: int|
        0 <= i < between.len() && (#[trigger] between[i]).id.raw
            == command.id.raw implies body_checksum(between[i]) is Some by {
        assert(between[i].id == command.id);
    }
    records_stay(w, between, later, command.id.raw);
}

/// Answers name the commands they answer, and a server stays sound.
pub proof fn answers_keep_the_server_sound(v: ServerView, command: Command, s: u64)
    requires
        server_sound(v),
        v.next_seq < u64::MAX,
    ensures
        answered(v, command, s).0.id == command.id.raw,
        server_sound(answered(v, command, s).1),
{
    let (result, w, t) = performed(v, command, s);
    if v.targets.dom().contains(command.name@) {
        let (entity, scope) = v.targets[command.name@];
        let row = (entity, crate::server::row_name(((command.id.raw % 256) % 8) as nat));
        an_append_keeps_the_server_sound(v, scope, row, Op::Upsert);
    }
}

/// A write keeps a server sound.
pub proof fn an_append_keeps_the_server_sound(
    v: ServerView,
    scope: Seq<char>,
    row: (Seq<char>, Seq<char>),
    op: Op,
)
    requires
        server_sound(v),
        v.next_seq < u64::MAX,
    ensures
        server_sound(appended(v, scope, row, op)),
{
    let w = appended(v, scope, row, op);
    assert forall|i: int| 0 <= i < w.log.len() && !(#[trigger] w.log[i]).visible implies exists|
        k: int,
    |
        0 <= k < w.in_flight.len() && (#[trigger] w.in_flight[k]).0 == i by {
        if i < v.log.len() {
            assert(!v.log[i].visible);
            let k = choose|k: int|
                0 <= k < v.in_flight.len() && (#[trigger] v.in_flight[k]).0 == i;
            assert(w.in_flight[k].0 == i);
        } else {
            assert(w.in_flight[v.in_flight.len() as int].0 == i);
        }
    }
}

/// Shedding load is silence, never an answer: a push answers the commands it takes, in order, and
/// records an outcome for those and for no others.
pub proof fn only_processed_commands_are_answered(v: ServerView, commands: Seq<Command>, s: u64)
    requires
        server_sound(v),
        v.next_seq + commands.len() <= u64::MAX,
    ensures
        answered_all(v, commands, s).0.len() == commands.len(),
        forall|i: int|
            0 <= i < commands.len() ==> (#[trigger] answered_all(v, commands, s).0[i]).id
                == commands[i].id.raw,
        forall|id: u128| #[trigger]
            answered_all(v, commands, s).1.dedupe.dom().contains(id) <==> v.dedupe.dom().contains(
                id,
            ) || exists|i: int| 0 <= i < commands.len() && (#[trigger] commands[i]).id.raw == id,
        server_sound(answered_all(v, commands, s).1),
        answered_all(v, commands, s).1.next_seq <= v.next_seq + commands.len(),
    decreases commands.len(),
{
    if commands.len() > 0 {
        let rest = commands.drop_last();
        only_processed_commands_are_answered(v, rest, s);
        let (results, w, t) = answered_all(v, rest, s);
        let last = commands.last();
        answers_keep_the_server_sound(w, last, t);
        let (result, w2, t2) = answered(w, last, t);
        let all = answered_all(v, commands, s);
        assert forall|i: int| 0 <= i < commands.len() implies (#[trigger] all.0[i]).id
            == commands[i].id.raw by {
            if i < rest.len() {
                assert(results[i].id == rest[i].id.raw);
            }
        }
        assert forall|id: u128| #[trigger] all.1.dedupe.dom().contains(id) <==> v.dedupe.dom().contains(
            id,
        ) || exists|i: int| 0 <= i < commands.len() && (#[trigger] commands[i]).id.raw == id by {
            assert(w2.dedupe.dom().contains(id) <==> w.dedupe.dom().contains(id) || id
                == last.id.raw);
            if exists|i: int| 0 <= i < rest.len() && (#[trigger] rest[i]).id.raw == id {
                let i = choose|i: int| 0 <= i < rest.len() && (#[trigger] rest[i]).id.raw == id;
                assert(commands[i].id.raw == id);
            }
            if exists|i: int| 0 <= i < commands.len() && (#[trigger] commands[i]).id.raw == id {
                let i = choose|i: int|
                    0 <= i < commands.len() && (#[trigger] commands[i]).id.raw == id;
                if i < rest.len() {
                    assert(rest[i].id.raw == id);
                } else {
                    assert(last.id.raw == id);
                }
            }
            if id == last.id.raw {
                assert(commands[commands.len() - 1].id.raw == id);
            }
        }
    }
}

/// The log is append-only: answering commands leaves every earlier entry as it was.
pub proof fn the_log_only_grows(v: ServerView, commands: Seq<Command>, s: u64)
    ensures
        v.log.len() <= answered_all(v, commands, s).1.log.len(),
        answered_all(v, commands, s).1.log.take(v.log.len() as int) == v.log,
    decreases commands.len(),
{
    if commands.len() == 0 {
        assert(v.log.take(v.log.len() as int) =~= v.log);
    } else {
        the_log_only_grows(v, commands.drop_last(), s);
        let (results, w, t) = answered_all(v, commands.drop_last(), s);
        let (result, w2, t2) = answered(w, commands.last(), t);
        assert(w.log.len() <= w2.log.len() && w2.log.take(w.log.len() as int) =~= w.log);
        assert(w2.log.take(v.log.len() as int) =~= w.log.take(v.log.len() as int));
    }
}

/// A step of commits only reveals: no change is altered, nothing visible is hidden, and no more
/// writes are in flight than before.
pub proof fn commits_only_reveal(v: ServerView, i: int)
    requires
        server_sound(v),
        0 <= i < v.log.len(),
    ensures
        committed(v).log.len() == v.log.len(),
        committed(v).log[i].change == v.log[i].change,
        committed(v).log[i].scope == v.log[i].scope,
        v.log[i].visible ==> committed(v).log[i].visible,
        committed(v).in_flight.len() <= v.in_flight.len(),
{
    fewer_wait(v.in_flight);
}

proof fn fewer_wait(in_flight: Seq<(int, u32)>)
    ensures
        crate::server::still_waiting(in_flight).len() <= in_flight.len(),
    decreases in_flight.len(),
{
    if in_flight.len() > 0 {
        fewer_wait(in_flight.drop_last());
    }
}

/// Once nothing is in flight, every write can be seen.
pub proof fn nothing_in_flight_means_all_visible(v: ServerView, i: int)
    requires
        server_sound(v),
        v.in_flight.len() == 0,
        0 <= i < v.log.len(),
    ensures
        v.log[i].visible,
{
}

/// The last write to a row is what a client past it holds: a write is at its own position, and a
/// removal leaves nothing.
pub proof fn the_last_write_wins(
    v: ServerView,
    scope: Seq<char>,
    row: (Seq<char>, Seq<char>),
    op: Op,
    cursor: u64,
)
    requires
        cursor >= v.next_seq,
    ensures
        version_at(appended(v, scope, row, op).log, scope, row, cursor) == if op == Op::Upsert {
            Some(RowVersion { value: v.next_seq })
        } else {
            None
        },
{
    let w = appended(v, scope, row, op);
    assert(w.log.drop_last() =~= v.log);
}

/// The last entry of the log is the last of its scope.
pub proof fn scope_log_unfolds(log: Seq<EntryView>, scope: Seq<char>)
    requires
        log.len() > 0,
    ensures
        scope_log(log, scope) == if log.last().scope == scope {
            scope_log(log.drop_last(), scope).push(log.last())
        } else {
            scope_log(log.drop_last(), scope)
        },
{
    let rest = log.drop_last();
    positions_in_order(rest, scope);
    let a = scope_log(log, scope);
    let b = scope_log(rest, scope);
    assert forall|k: int| 0 <= k < b.len() implies a[k] == b[k] by {
        assert(positions(log, scope)[k] == positions(rest, scope)[k]);
        assert(0 <= positions(rest, scope)[k] < rest.len());
    }
    if log.last().scope == scope {
        assert(a =~= b.push(log.last()));
    } else {
        assert(a =~= b);
    }
}

/// An acknowledged write is in the log. Of a command that has no record: when it is answered as
/// applied, the log has grown by exactly one entry, at the position that the answer names, and that
/// entry writes a row of the entity and into the scope that are registered for the command's name;
/// when it is answered in any other way, the log is what it was. Only the command's own record is
/// made, and it holds the answer.
pub proof fn an_applied_command_is_in_the_log(v: ServerView, command: Command, s: u64)
    requires
        !v.dedupe.dom().contains(command.id.raw),
        v.next_seq < u64::MAX,
    ensures
        ({
            let (result, w, t) = answered(v, command, s);
            let id = command.id.raw;
            let entry = w.log.last();
            &&& result.id == id
            &&& result.status == Status::Applied ==> {
                &&& v.targets.dom().contains(command.name@)
                &&& result.server_seq == Some(SeqNo { value: v.next_seq })
                &&& result.reason is None
                &&& w.log.len() == v.log.len() + 1
                &&& w.log.drop_last() == v.log
                &&& entry.scope == v.targets[command.name@].1
                &&& entry.change.row.0 == v.targets[command.name@].0
                &&& entry.change.row.1 == "row:"@ + decimal(((id % 256) % 8) as nat)
                &&& entry.change.op == Op::Upsert
                &&& entry.change.snapshot is Some
                &&& entry.change.seq == v.next_seq
                &&& entry.change.row_version == v.next_seq
                &&& entry.visible <==> v.hold_next == 0
                &&& w.next_seq == v.next_seq + 1
                &&& w.hold_next == 0
            }
            &&& result.status != Status::Applied ==> {
                &&& result.server_seq is None
                &&& w.log == v.log
                &&& w.next_seq == v.next_seq
                &&& w.in_flight == v.in_flight
                &&& w.hold_next == v.hold_next
            }
            &&& result.status == Status::Rejected <==> result.reason is Some
            &&& w.dedupe.dom() == v.dedupe.dom().insert(id)
            &&& w.dedupe[id].result == result
            &&& body_checksum(command) is Some ==> w.dedupe[id].checksum == body_checksum(
                command,
            )->0
            &&& forall|other: u128|
                other != id && #[trigger] v.dedupe.dom().contains(other) ==> w.dedupe[other]
                    == v.dedupe[other]
            &&& w.targets == v.targets
            &&& w.guard == v.guard
            &&& w.warm == v.warm
        }),
{
    let (result, w, t) = answered(v, command, s);
    assert(w.log.len() == v.log.len() + 1 ==> w.log.drop_last() =~= v.log);
    assert(w.dedupe.dom() =~= v.dedupe.dom().insert(command.id.raw));
}

/// When a command that has no record is applied: exactly when its name is registered and the draw
/// from a hundred comes out below eighty. From eighty to eighty-nine it is superseded, and above
/// that refused. A name that is not registered is refused and costs no draw.
pub proof fn the_draw_decides_a_fresh_command(v: ServerView, command: Command, s: u64)
    requires
        !v.dedupe.dom().contains(command.id.raw),
    ensures
        ({
            let (result, w, t) = answered(v, command, s);
            let known = v.targets.dom().contains(command.name@);
            let (roll, later) = below_of(s, 100);
            &&& result.status == Status::Applied <==> known && roll < 80
            &&& result.status == Status::Superseded <==> known && 80 <= roll < 90
            &&& result.status == Status::Rejected <==> !known || roll >= 90
            &&& !known ==> result.reason == Some("Unknown command."@)
            &&& known && roll >= 90 ==> result.reason == Some("Submission deadline passed."@)
            &&& t == if known {
                later
            } else {
                s
            }
        }),
{
}

/// An acknowledged write is never lost: whatever is pushed and committed afterwards, the entry that
/// the answer named is still in the log at that position, and writes what it wrote.
pub proof fn an_acknowledged_write_stays(
    v: ServerView,
    command: Command,
    s: u64,
    later: Seq<Command>,
    t: u64,
)
    requires
        server_sound(v),
        !v.dedupe.dom().contains(command.id.raw),
        v.next_seq < u64::MAX,
        answered(v, command, s).0.status == Status::Applied,
    ensures
        ({
            let (result, w, _) = answered(v, command, s);
            let u = answered_all(w, later, t).1;
            let at = v.log.len() as int;
            &&& at < u.log.len()
            &&& u.log[at].change.seq == result.server_seq->0.value
            &&& u.log[at].scope == v.targets[command.name@].1
            &&& u.log[at].change == w.log[at].change
            &&& committed(u).log[at].change == w.log[at].change
            &&& committed(u).log[at].scope == w.log[at].scope
        }),
{
    let (result, w, x) = answered(v, command, s);
    an_applied_command_is_in_the_log(v, command, s);
    the_log_only_grows(w, later, t);
    let u = answered_all(w, later, t).1;
    let at = v.log.len() as int;
    assert(w.log[at] == w.log.last());
    assert(u.log.take(w.log.len() as int)[at] == u.log[at]);
}

/// A write takes the next position, at the end of the log, for everybody: it is of the scope and the
/// row that it was made for, carries a snapshot exactly when it is no removal, and its version is its
/// position. It can be seen at once unless it was to be held open, and then it waits as long as that
/// was to be; the order to hold is spent. What was recorded of commands is left alone.
pub proof fn a_write_takes_the_next_position(
    v: ServerView,
    scope: Seq<char>,
    row: (Seq<char>, Seq<char>),
    op: Op,
)
    requires
        v.next_seq < u64::MAX,
    ensures
        ({
            let w = appended(v, scope, row, op);
            let e = w.log.last();
            &&& w.log.len() == v.log.len() + 1
            &&& w.log.drop_last() == v.log
            &&& e.scope == scope
            &&& e.change.row == row
            &&& e.change.op == op
            &&& e.change.seq == v.next_seq
            &&& e.change.row_version == v.next_seq
            &&& e.change.snapshot is Some <==> op == Op::Upsert
            &&& op == Op::Upsert ==> e.change.snapshot == Some(
                "{\"v\":"@ + decimal(v.next_seq as nat) + "}"@,
            )
            &&& e.change.schema_version == 1
            &&& w.next_seq == v.next_seq + 1
            &&& e.visible <==> v.hold_next == 0
            &&& v.hold_next == 0 ==> w.in_flight == v.in_flight
            &&& v.hold_next > 0 ==> w.in_flight == v.in_flight.push(
                (v.log.len() as int, v.hold_next),
            )
            &&& w.hold_next == 0
            &&& w.dedupe == v.dedupe
            &&& w.targets == v.targets
            &&& w.guard == v.guard
        }),
{
    assert(appended(v, scope, row, op).log.drop_last() =~= v.log);
}

proof fn who_still_waits(in_flight: Seq<(int, u32)>)
    ensures
        forall|k: int|
            0 <= k < in_flight.len() && (#[trigger] in_flight[k]).1 > 1
                ==> crate::server::still_waiting(in_flight).contains(
                (in_flight[k].0, (in_flight[k].1 - 1) as u32),
            ),
        forall|j: int|
            0 <= j < crate::server::still_waiting(in_flight).len() ==> exists|k: int|
                {
                    let f = #[trigger] crate::server::still_waiting(in_flight)[j];
                    &&& 0 <= k < in_flight.len()
                    &&& (#[trigger] in_flight[k]).0 == f.0
                    &&& in_flight[k].1 == f.1 + 1
                    &&& f.1 >= 1
                },
    decreases in_flight.len(),
{
    if in_flight.len() > 0 {
        let rest = in_flight.drop_last();
        who_still_waits(rest);
        let before = crate::server::still_waiting(rest);
        let all = crate::server::still_waiting(in_flight);
        let last = in_flight.len() - 1;
        assert forall|k: int| 0 <= k < in_flight.len() && (#[trigger] in_flight[k]).1 > 1 implies
            all.contains((in_flight[k].0, (in_flight[k].1 - 1) as u32)) by {
            let f = (in_flight[k].0, (in_flight[k].1 - 1) as u32);
            if k < last {
                assert(rest[k] == in_flight[k]);
                let j = choose|j: int| 0 <= j < before.len() && before[j] == f;
                assert(all[j] == f);
            } else {
                assert(all[before.len() as int] == f);
            }
        }
        assert forall|j: int| 0 <= j < all.len() implies exists|k: int|
            {
                let f = #[trigger] all[j];
                &&& 0 <= k < in_flight.len()
                &&& (#[trigger] in_flight[k]).0 == f.0
                &&& in_flight[k].1 == f.1 + 1
                &&& f.1 >= 1
            } by {
            if j < before.len() {
                assert(all[j] == before[j]);
                let k = choose|k: int|
                    {
                        let f = before[j];
                        &&& 0 <= k < rest.len()
                        &&& (#[trigger] rest[k]).0 == f.0
                        &&& rest[k].1 == f.1 + 1
                        &&& f.1 >= 1
                    };
                assert(in_flight[k] == rest[k]);
            } else {
                assert(in_flight[last].0 == all[j].0);
            }
        }
    }
}

/// A write that is held open commits when its time is up and not before: one that has one step left
/// can be seen after the step, and one that has more is out of sight still, with one step less to
/// wait. What could be seen can be seen, and nothing else of the server changes.
pub proof fn a_held_write_commits_on_time(v: ServerView, k: int)
    requires
        server_sound(v),
        0 <= k < v.in_flight.len(),
    ensures
        ({
            let w = committed(v);
            let (i, left) = v.in_flight[k];
            &&& w.log[i].visible <==> left <= 1
            &&& left > 1 ==> w.in_flight.contains((i, (left - 1) as u32))
            &&& forall|j: int|
                0 <= j < v.log.len() && (#[trigger] v.log[j]).visible ==> w.log[j] == v.log[j]
            &&& w.next_seq == v.next_seq && w.dedupe == v.dedupe && w.targets == v.targets
        }),
{
    who_still_waits(v.in_flight);
    let (i, left) = v.in_flight[k];
    assert(v.in_flight[k].0 == i);
    assert(!v.log[i].visible);
    if crate::server::due(v.in_flight, i) {
        let j = choose|j: int|
            0 <= j < v.in_flight.len() && (#[trigger] v.in_flight[j]).0 == i && v.in_flight[j].1
                <= 1;
        if j < k {
            assert(v.in_flight[j].0 != v.in_flight[k].0);
        } else if k < j {
            assert(v.in_flight[k].0 != v.in_flight[j].0);
        }
    }
}

/// A push that is taken in part is answered as its beginning would be: the results are the first
/// results of the whole, and what was not looked at leaves no trace.
pub proof fn a_part_is_answered_like_the_whole(
    v: ServerView,
    commands: Seq<Command>,
    s: u64,
    n: int,
)
    requires
        0 <= n <= commands.len(),
    ensures
        answered_all(v, commands, s).0.len() == commands.len(),
        answered_all(v, commands.take(n), s).0 == answered_all(v, commands, s).0.take(n),
        n < commands.len() ==> {
            let (results, w, t) = answered_all(v, commands.take(n), s);
            answered_all(v, commands.take(n + 1), s) == (
                results.push(answered(w, commands[n], t).0),
                answered(w, commands[n], t).1,
                answered(w, commands[n], t).2,
            )
        },
    decreases commands.len(),
{
    if n < commands.len() {
        let next = commands.take(n + 1);
        assert(next.drop_last() =~= commands.take(n));
        assert(next.last() == commands[n]);
        let rest = commands.drop_last();
        a_part_is_answered_like_the_whole(v, rest, s, n);
        assert(rest.take(n) =~= commands.take(n));
        let all = answered_all(v, commands, s).0;
        let some = answered_all(v, rest, s).0;
        assert(all.take(n) =~= some.take(n));
    } else {
        assert(commands.take(n) =~= commands);
        counting_answers(v, commands, s);
        assert(answered_all(v, commands, s).0.take(n) =~= answered_all(v, commands, s).0);
    }
}

proof fn counting_answers(v: ServerView, commands: Seq<Command>, s: u64)
    ensures
        answered_all(v, commands, s).0.len() == commands.len(),
    decreases commands.len(),
{
    if commands.len() > 0 {
        counting_answers(v, commands.drop_last(), s);
    }
}

} // verus!
