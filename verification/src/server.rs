//! A simulated server: the change log, the dedupe table, and the rules the protocol gives them.
//!
//! What it models faithfully, because the client's correctness depends on it:
//!
//! - One sequence numbers the changes of every scope, so one scope's positions are sparse.
//! - A position is allocated when a write starts and becomes visible when it commits, and those
//!   two orders differ.
//! - Outcomes are recorded by command id. A replay returns the recorded result without
//!   re-applying anything, and a replay whose body was changed is refused.
//! - The server's row version decides which write is the last one.
//!
//! Batching and the dedupe rule are not modelled: they are [`fill_batch`] and [`decide`].
use crate::codec::{digest_of, digest_with, is_function, row_views, Codec, RowState, RowStateView};
use crate::dedupe::{
    body_checksum, decide, decision, mutated_reason, mutated_sentence, Decision, DecisionView,
    Recorded, RecordedView,
};
use crate::error::ServerErrorView;
use crate::ordered::{Key, OrderedMap};
use crate::protocol::{
    batch_views, change_views, result_views, Batch, BatchView, BootstrapRequest, Change, ChangeView,
    Command, CommandId, CommandName, CommandResult, Cursor, EntityId, EntityName, HexString, Op,
    ProtocolVersion, PullRequest, PullResponse, PushRequest, PushResponse, Reason, ResultView,
    RowKey, RowVersion, SchemaVersion, ScopeCursor, ScopeId, SeqNo, Snapshot, Status,
};
use crate::pull::{batch_result, fill_batch, filled, filling_is_determined};
use crate::rng::{below_of, Rng};
use crate::text::{decimal, push_decimal};
use crate::transport::{same_ratio_same_compressor, SimCompressor};
use vstd::prelude::*;
use vstd::string::*;

verus! {

/// One entry in the append-only change log.
#[derive(Debug)]
pub struct LogEntry {
    pub scope: ScopeId,
    pub change: Change,
    /// Whether a reader can see this entry yet.
    pub visible: bool,
}

/// An entry of the log, with its texts as sequences of characters.
pub struct EntryView {
    pub scope: Seq<char>,
    pub change: ChangeView,
    pub visible: bool,
}

impl View for LogEntry {
    type V = EntryView;

    open spec fn view(&self) -> EntryView {
        EntryView { scope: self.scope@, change: self.change@, visible: self.visible }
    }
}

/// One version that a row has held.
#[derive(Debug, Clone, Copy, PartialEq, Eq, Structural)]
pub struct Version {
    pub seq: u64,
    pub row_version: RowVersion,
    pub op: Op,
}

/// Which entity and scope a command writes.
#[derive(Debug)]
pub struct Target {
    pub entity: EntityName,
    pub scope: ScopeId,
}

/// The simulated server.
#[derive(Debug)]
pub struct Server {
    log: Vec<LogEntry>,
    /// The places in the log of each scope's entries, in order, so that a pull can search for its
    /// cursor instead of scanning the log.
    by_scope: OrderedMap<ScopeId, Vec<usize>>,
    /// Per scope and row, every version the row has held, in order.
    row_history: OrderedMap<ScopeId, OrderedMap<RowKey, Vec<Version>>>,
    dedupe: OrderedMap<CommandId, Recorded>,
    next_seq: u64,
    /// Which entity each command name writes.
    command_targets: OrderedMap<CommandName, Target>,
    warm: bool,
    /// Entries that have taken a position and not committed yet, with how many steps remain.
    in_flight: Vec<(usize, u32)>,
    /// How long the next write should stay uncommitted. Consumed by the next append.
    hold_next: u32,
    /// Whether pull stops at the first uncommitted entry. With it off, a pull hands over every
    /// visible entry even when an earlier one is still in flight, and a client advances past a
    /// change that it will never be given.
    commit_order_guard: bool,
}

/// What the server holds.
#[verifier::ext_equal]
pub struct ServerView {
    pub log: Seq<EntryView>,
    pub dedupe: Map<u128, RecordedView>,
    pub next_seq: u64,
    pub targets: Map<Seq<char>, (Seq<char>, Seq<char>)>,
    pub warm: bool,
    pub in_flight: Seq<(int, u32)>,
    pub hold_next: u32,
    pub guard: bool,
}

/// The places in the log of a scope's entries.
pub open spec fn positions(log: Seq<EntryView>, scope: Seq<char>) -> Seq<int>
    decreases log.len(),
{
    if log.len() == 0 {
        seq![]
    } else {
        let before = positions(log.drop_last(), scope);
        if log.last().scope == scope {
            before.push(log.len() - 1)
        } else {
            before
        }
    }
}

/// A scope's entries, in the order of the log.
pub open spec fn scope_log(log: Seq<EntryView>, scope: Seq<char>) -> Seq<EntryView> {
    positions(log, scope).map_values(|i: int| log[i])
}

/// Every version a row of a scope has held, in order.
pub open spec fn history(
    log: Seq<EntryView>,
    scope: Seq<char>,
    row: (Seq<char>, Seq<char>),
) -> Seq<Version>
    decreases log.len(),
{
    if log.len() == 0 {
        seq![]
    } else {
        let before = history(log.drop_last(), scope, row);
        let e = log.last();
        if e.scope == scope && e.change.row == row {
            before.push(
                Version {
                    seq: e.change.seq,
                    row_version: RowVersion { value: e.change.row_version },
                    op: e.change.op,
                },
            )
        } else {
            before
        }
    }
}

/// The last version at or below `cursor`.
pub open spec fn last_at(versions: Seq<Version>, cursor: u64) -> Option<Version>
    decreases versions.len(),
{
    if versions.len() == 0 {
        None
    } else if versions.last().seq <= cursor {
        Some(versions.last())
    } else {
        last_at(versions.drop_last(), cursor)
    }
}

/// The version a row should hold on a client whose cursor is at `cursor`: that of the last change
/// to it at or below the cursor, unless that change removed it.
pub open spec fn version_at(
    log: Seq<EntryView>,
    scope: Seq<char>,
    row: (Seq<char>, Seq<char>),
    cursor: u64,
) -> Option<RowVersion> {
    match last_at(history(log, scope, row), cursor) {
        Some(v) => if v.op == Op::Upsert {
            Some(v.row_version)
        } else {
            None
        },
        None => None,
    }
}

/// The log is in the order of its positions, which are below the next one.
pub open spec fn log_ordered(log: Seq<EntryView>, next_seq: u64) -> bool {
    &&& next_seq >= 1
    &&& forall|i: int| 0 <= i < log.len() ==> 1 <= (#[trigger] log[i]).change.seq < next_seq
    &&& forall|i: int, j: int|
        0 <= i < j < log.len() ==> (#[trigger] log[i]).change.seq < (#[trigger] log[j]).change.seq
}

/// What is in flight is exactly what is not visible, each entry once.
pub open spec fn flights_match(log: Seq<EntryView>, in_flight: Seq<(int, u32)>) -> bool {
    &&& forall|k: int|
        0 <= k < in_flight.len() ==> 0 <= (#[trigger] in_flight[k]).0 < log.len()
            && !log[in_flight[k].0].visible
    &&& forall|j: int, k: int|
        0 <= j < k < in_flight.len() ==> (#[trigger] in_flight[j]).0 != (#[trigger] in_flight[k]).0
    &&& forall|i: int|
        0 <= i < log.len() && !(#[trigger] log[i]).visible ==> exists|k: int|
            0 <= k < in_flight.len() && (#[trigger] in_flight[k]).0 == i
}

/// What a sound server holds.
pub open spec fn server_sound(v: ServerView) -> bool {
    &&& log_ordered(v.log, v.next_seq)
    &&& flights_match(v.log, v.in_flight)
    &&& forall|id: u128| #[trigger] v.dedupe.dom().contains(id) ==> v.dedupe[id].result.id == id
}

/// The places of a scope's entries are places of the log, in ascending order.
pub proof fn positions_in_order(log: Seq<EntryView>, scope: Seq<char>)
    ensures
        forall|k: int|
            0 <= k < positions(log, scope).len() ==> 0 <= (#[trigger] positions(log, scope)[k])
                < log.len() && log[positions(log, scope)[k]].scope == scope,
        forall|j: int, k: int|
            0 <= j < k < positions(log, scope).len() ==> (#[trigger] positions(log, scope)[j]) < (
            #[trigger] positions(log, scope)[k]),
    decreases log.len(),
{
    if log.len() > 0 {
        positions_in_order(log.drop_last(), scope);
    }
}

proof fn positions_complete(log: Seq<EntryView>, scope: Seq<char>, i: int) -> (k: int)
    requires
        0 <= i < log.len(),
        log[i].scope == scope,
    ensures
        0 <= k < positions(log, scope).len(),
        positions(log, scope)[k] == i,
    decreases log.len(),
{
    let before = positions(log.drop_last(), scope);
    if i == log.len() - 1 {
        before.len() as int
    } else {
        positions_complete(log.drop_last(), scope, i)
    }
}

/// The entries of a scope are those of the log that belong to it, in order and none left out.
pub proof fn scope_log_is_the_scope(log: Seq<EntryView>, scope: Seq<char>, next_seq: u64)
    requires
        log_ordered(log, next_seq),
    ensures
        forall|k: int|
            0 <= k < scope_log(log, scope).len() ==> (#[trigger] scope_log(log, scope)[k]).scope
                == scope && log.contains(scope_log(log, scope)[k]),
        forall|e: EntryView|
            log.contains(e) && e.scope == scope ==> #[trigger] scope_log(log, scope).contains(e),
        forall|j: int, k: int|
            0 <= j < k < scope_log(log, scope).len() ==> (#[trigger] scope_log(
                log,
                scope,
            )[j]).change.seq < (#[trigger] scope_log(log, scope)[k]).change.seq,
{
    positions_in_order(log, scope);
    let entries = scope_log(log, scope);
    assert forall|k: int| 0 <= k < entries.len() implies (#[trigger] entries[k]).scope == scope
        && log.contains(entries[k]) by {
        assert(entries[k] == log[positions(log, scope)[k]]);
    }
    assert forall|e: EntryView| log.contains(e) && e.scope == scope implies #[trigger] entries.contains(
        e,
    ) by {
        let i = choose|i: int| 0 <= i < log.len() && log[i] == e;
        let k = positions_complete(log, scope, i);
        assert(entries[k] == e);
    }
}

proof fn history_in_order(
    log: Seq<EntryView>,
    scope: Seq<char>,
    row: (Seq<char>, Seq<char>),
    next_seq: u64,
)
    requires
        log_ordered(log, next_seq),
    ensures
        forall|j: int, k: int|
            0 <= j < k < history(log, scope, row).len() ==> (#[trigger] history(
                log,
                scope,
                row,
            )[j]).seq < (#[trigger] history(log, scope, row)[k]).seq,
        forall|k: int|
            0 <= k < history(log, scope, row).len() ==> exists|i: int|
                0 <= i < log.len() && (#[trigger] log[i]).change.seq == (#[trigger] history(
                    log,
                    scope,
                    row,
                )[k]).seq,
    decreases log.len(),
{
    if log.len() > 0 {
        let rest = log.drop_last();
        assert(log_ordered(rest, next_seq));
        history_in_order(rest, scope, row, next_seq);
        let before = history(rest, scope, row);
        let h = history(log, scope, row);
        assert forall|k: int| 0 <= k < h.len() implies exists|i: int|
            0 <= i < log.len() && (#[trigger] log[i]).change.seq == (#[trigger] h[k]).seq by {
            if k < before.len() {
                let i = choose|i: int|
                    0 <= i < rest.len() && (#[trigger] rest[i]).change.seq == before[k].seq;
                assert(log[i].change.seq == h[k].seq);
            } else {
                assert(log[log.len() - 1].change.seq == h[k].seq);
            }
        }
        assert forall|j: int, k: int| 0 <= j < k < h.len() implies (#[trigger] h[j]).seq < (
        #[trigger] h[k]).seq by {
            if k == before.len() {
                let i = choose|i: int|
                    0 <= i < rest.len() && (#[trigger] rest[i]).change.seq == before[j].seq;
                assert(log[i].change.seq < log[log.len() - 1].change.seq);
            }
        }
    }
}

proof fn last_at_is(versions: Seq<Version>, cursor: u64, n: int)
    requires
        0 <= n <= versions.len(),
        n > 0 ==> versions[n - 1].seq <= cursor,
        forall|j: int| n <= j < versions.len() ==> (#[trigger] versions[j]).seq > cursor,
    ensures
        last_at(versions, cursor) == if n > 0 {
            Some(versions[n - 1])
        } else {
            None
        },
    decreases versions.len(),
{
    if n < versions.len() {
        assert(versions[versions.len() - 1].seq > cursor);
        last_at_is(versions.drop_last(), cursor, n);
    }
}

/// How many of the versions are at or below `cursor`, by binary search.
fn versions_upto(versions: &Vec<Version>, cursor: u64) -> (n: usize)
    requires
        forall|j: int, k: int|
            0 <= j < k < versions@.len() ==> (#[trigger] versions@[j]).seq < (
            #[trigger] versions@[k]).seq,
    ensures
        n <= versions@.len(),
        last_at(versions@, cursor) == if n > 0 {
            Some(versions@[n - 1])
        } else {
            None
        },
{
    let mut low: usize = 0;
    let mut high: usize = versions.len();
    while low < high
        invariant
            low <= high <= versions@.len(),
            forall|j: int, k: int|
                0 <= j < k < versions@.len() ==> (#[trigger] versions@[j]).seq < (
                #[trigger] versions@[k]).seq,
            low > 0 ==> versions@[low - 1].seq <= cursor,
            forall|j: int| high <= j < versions@.len() ==> (#[trigger] versions@[j]).seq > cursor,
        decreases high - low,
    {
        let mid: usize = low + (high - low) / 2;
        if versions[mid].seq <= cursor {
            low = mid + 1;
        } else {
            high = mid;
        }
    }
    proof {
        last_at_is(versions@, cursor, low as int);
    }
    low
}

/// The rows of a scope at a cursor, and the version each is at: every row that has one, in the
/// order of their keys.
pub open spec fn is_rows_at(
    log: Seq<EntryView>,
    scope: Seq<char>,
    cursor: u64,
    rows: Seq<RowStateView>,
) -> bool {
    &&& forall|j: int, k: int|
        0 <= j < k < rows.len() ==> RowKey::below((#[trigger] rows[j]).row, (#[trigger] rows[k]).row)
    &&& forall|k: int|
        0 <= k < rows.len() ==> version_at(log, scope, (#[trigger] rows[k]).row, cursor) == Some(
            RowVersion { value: rows[k].row_version },
        )
    &&& forall|row: (Seq<char>, Seq<char>)|
        #[trigger] version_at(log, scope, row, cursor) is Some ==> exists|k: int|
            0 <= k < rows.len() && (#[trigger] rows[k]).row == row
}

/// The rows of a scope at a cursor.
pub open spec fn rows_of(log: Seq<EntryView>, scope: Seq<char>, cursor: u64) -> Seq<RowStateView> {
    choose|rows: Seq<RowStateView>| is_rows_at(log, scope, cursor, rows)
}

proof fn row_is_there(
    log: Seq<EntryView>,
    scope: Seq<char>,
    cursor: u64,
    a: Seq<RowStateView>,
    b: Seq<RowStateView>,
    k: int,
) -> (j: int)
    requires
        is_rows_at(log, scope, cursor, a),
        is_rows_at(log, scope, cursor, b),
        0 <= k < a.len(),
    ensures
        0 <= j < b.len(),
        b[j] == a[k],
{
    assert(version_at(log, scope, a[k].row, cursor) is Some);
    let j = choose|j: int| 0 <= j < b.len() && (#[trigger] b[j]).row == a[k].row;
    assert(version_at(log, scope, b[j].row, cursor) == Some(RowVersion { value: b[j].row_version }));
    j
}

proof fn rows_agree_upto(
    log: Seq<EntryView>,
    scope: Seq<char>,
    cursor: u64,
    a: Seq<RowStateView>,
    b: Seq<RowStateView>,
    n: int,
)
    requires
        is_rows_at(log, scope, cursor, a),
        is_rows_at(log, scope, cursor, b),
        0 <= n <= a.len(),
    ensures
        n <= b.len(),
        a.take(n) == b.take(n),
    decreases n,
{
    if n > 0 {
        rows_agree_upto(log, scope, cursor, a, b, n - 1);
        let m = n - 1;
        // The row at `m` stands somewhere in `b`, not before `m`, since those are other rows.
        let j = row_is_there(log, scope, cursor, a, b, m);
        RowKey::irreflexive(a[m].row);
        if j < m {
            assert(b.take(m)[j] == a.take(m)[j]);
            assert(RowKey::below(a[j].row, a[m].row));
        }
        // And what stands at `m` in `b` stands in `a`, not before `m` either.
        let i = row_is_there(log, scope, cursor, b, a, m);
        RowKey::irreflexive(b[m].row);
        if i < m {
            assert(b.take(m)[i] == a.take(m)[i]);
            assert(RowKey::below(b[i].row, b[m].row));
        }
        if j > m && i > m {
            assert(RowKey::below(b[m].row, b[j].row));
            assert(RowKey::below(a[m].row, a[i].row));
            RowKey::transitive(b[m].row, a[m].row, b[m].row);
        }
        assert(a[m] == b[m]);
        assert(a.take(n) =~= a.take(m).push(a[m]));
        assert(b.take(n) =~= b.take(m).push(b[m]));
    }
}

/// The rows of a scope at a cursor are determined.
pub proof fn rows_are_determined(
    log: Seq<EntryView>,
    scope: Seq<char>,
    cursor: u64,
    a: Seq<RowStateView>,
    b: Seq<RowStateView>,
)
    requires
        is_rows_at(log, scope, cursor, a),
        is_rows_at(log, scope, cursor, b),
    ensures
        a == b,
{
    rows_agree_upto(log, scope, cursor, a, b, a.len() as int);
    rows_agree_upto(log, scope, cursor, b, a, b.len() as int);
    assert(a.take(a.len() as int) =~= a);
    assert(b.take(b.len() as int) =~= b);
}

/// How many of a scope's entries are at or below `cursor`.
pub open spec fn upto(entries: Seq<EntryView>, cursor: u64) -> nat
    decreases entries.len(),
{
    if entries.len() == 0 {
        0
    } else if entries.last().change.seq <= cursor {
        entries.len()
    } else {
        upto(entries.drop_last(), cursor)
    }
}

proof fn upto_is(entries: Seq<EntryView>, cursor: u64, n: int)
    requires
        0 <= n <= entries.len(),
        n > 0 ==> entries[n - 1].change.seq <= cursor,
        forall|j: int| n <= j < entries.len() ==> (#[trigger] entries[j]).change.seq > cursor,
    ensures
        upto(entries, cursor) == n,
    decreases entries.len(),
{
    if n < entries.len() {
        assert(entries[entries.len() - 1].change.seq > cursor);
        upto_is(entries.drop_last(), cursor, n);
    }
}

/// What a reader is handed of some entries, at most `limit` changes: those that are visible; with
/// the guard on, nothing from the first on that is not.
pub open spec fn readable(entries: Seq<EntryView>, guard: bool, limit: nat) -> Seq<ChangeView>
    decreases entries.len(),
{
    if entries.len() == 0 || limit == 0 {
        seq![]
    } else if entries[0].visible {
        seq![entries[0].change] + readable(entries.drop_first(), guard, (limit - 1) as nat)
    } else if guard {
        seq![]
    } else {
        readable(entries.drop_first(), guard, limit)
    }
}

/// The entries of a scope past a cursor.
pub open spec fn past(log: Seq<EntryView>, scope: Seq<char>, cursor: u64) -> Seq<EntryView> {
    scope_log(log, scope).skip(upto(scope_log(log, scope), cursor) as int)
}

/// How many of some entries are visible before the first that is not.
pub open spec fn visible_run(entries: Seq<EntryView>) -> nat
    decreases entries.len(),
{
    if entries.len() == 0 || !entries[0].visible {
        0
    } else {
        1 + visible_run(entries.drop_first())
    }
}

/// The highest position of some entries with every earlier one visible.
pub open spec fn visible_end(entries: Seq<EntryView>) -> u64 {
    let n = visible_run(entries);
    if n == 0 || n > entries.len() {
        0
    } else {
        entries[n - 1].change.seq
    }
}

proof fn visible_run_is(entries: Seq<EntryView>, n: int)
    requires
        0 <= n <= entries.len(),
        forall|j: int| 0 <= j < n ==> (#[trigger] entries[j]).visible,
        n < entries.len() ==> !entries[n].visible,
    ensures
        visible_run(entries) == n,
    decreases entries.len(),
{
    if n > 0 {
        assert(entries[0].visible);
        let rest = entries.drop_first();
        assert forall|j: int| 0 <= j < n - 1 implies (#[trigger] rest[j]).visible by {
            assert(entries[j + 1].visible);
        }
        visible_run_is(rest, n - 1);
    }
}

/// The places of a scope's entries are as the index has them.
pub open spec fn places_match(ix: Seq<usize>, places: Seq<int>) -> bool {
    &&& ix.len() == places.len()
    &&& forall|k: int| 0 <= k < ix.len() ==> (#[trigger] ix[k]) as int == places[k]
}

/// Entry `k` of a scope is the one that the index points at.
spec fn stands_at(log: Seq<LogEntry>, ix: Seq<usize>, entries: Seq<EntryView>, k: int) -> bool {
    ix[k] < log.len() && entries[k] == log[ix[k] as int]@
}

/// The text of a snapshot that holds one number.
pub open spec fn snapshot_of(seq: u64) -> Seq<char> {
    "{\"v\":"@ + decimal(seq as nat) + "}"@
}

/// The log after one more write: it takes the next position, and is visible at once unless it is
/// held open.
pub open spec fn appended(
    v: ServerView,
    scope: Seq<char>,
    row: (Seq<char>, Seq<char>),
    op: Op,
) -> ServerView {
    let change = ChangeView {
        seq: v.next_seq,
        row,
        op,
        snapshot: if op == Op::Upsert {
            Some(snapshot_of(v.next_seq))
        } else {
            None
        },
        row_version: v.next_seq,
        schema_version: 1,
    };
    ServerView {
        log: v.log.push(EntryView { scope, change, visible: v.hold_next == 0 }),
        next_seq: (v.next_seq + 1) as u64,
        in_flight: if v.hold_next > 0 {
            v.in_flight.push((v.log.len() as int, v.hold_next))
        } else {
            v.in_flight
        },
        hold_next: 0,
        ..v
    }
}

/// What stays in flight after a step.
pub open spec fn still_waiting(in_flight: Seq<(int, u32)>) -> Seq<(int, u32)>
    decreases in_flight.len(),
{
    if in_flight.len() == 0 {
        seq![]
    } else {
        let before = still_waiting(in_flight.drop_last());
        let (i, remaining) = in_flight.last();
        if remaining <= 1 {
            before
        } else {
            before.push((i, (remaining - 1) as u32))
        }
    }
}

/// An entry in flight commits in this step.
pub open spec fn due(in_flight: Seq<(int, u32)>, i: int) -> bool {
    exists|k: int| 0 <= k < in_flight.len() && (#[trigger] in_flight[k]).0 == i && in_flight[k].1
        <= 1
}

/// The server after one step of its commits.
pub open spec fn committed(v: ServerView) -> ServerView {
    ServerView {
        log: Seq::new(
            v.log.len(),
            |i: int| EntryView { visible: v.log[i].visible || due(v.in_flight, i), ..v.log[i] },
        ),
        in_flight: still_waiting(v.in_flight),
        ..v
    }
}

/// A server with an empty log.
pub open spec fn empty_server() -> ServerView {
    ServerView {
        log: Seq::empty(),
        dedupe: Map::empty(),
        next_seq: 1,
        targets: Map::empty(),
        warm: true,
        in_flight: Seq::empty(),
        hold_next: 0,
        guard: true,
    }
}

impl View for Server {
    type V = ServerView;

    closed spec fn view(&self) -> ServerView {
        ServerView {
            log: self.log@.map_values(|e: LogEntry| e@),
            dedupe: Map::new(
                |id: u128| self.dedupe@.dom().contains(id),
                |id: u128| self.dedupe@[id]@,
            ),
            next_seq: self.next_seq,
            targets: Map::new(
                |name: Seq<char>| self.command_targets@.dom().contains(name),
                |name: Seq<char>|
                    (
                        self.command_targets@[name].entity@,
                        self.command_targets@[name].scope@,
                    ),
            ),
            warm: self.warm,
            in_flight: self.in_flight@.map_values(|f: (usize, u32)| (f.0 as int, f.1)),
            hold_next: self.hold_next,
            guard: self.commit_order_guard,
        }
    }
}

impl Server {
    spec fn index_ok(&self) -> bool {
        forall|scope: Seq<char>|
            if #[trigger] self.by_scope@.dom().contains(scope) {
                places_match(self.by_scope@[scope]@, positions(self@.log, scope))
            } else {
                positions(self@.log, scope).len() == 0
            }
    }

    spec fn history_ok(&self) -> bool {
        &&& forall|scope: Seq<char>| #[trigger]
            self.row_history@.dom().contains(scope) ==> self.row_history@[scope].wf()
        &&& forall|scope: Seq<char>, row: (Seq<char>, Seq<char>)|
            #![trigger history(self@.log, scope, row)]
            if self.row_history@.dom().contains(scope)
                && self.row_history@[scope]@.dom().contains(row) {
                self.row_history@[scope]@[row]@ == history(self@.log, scope, row)
            } else {
                history(self@.log, scope, row).len() == 0
            }
    }

    /// The maps are in order, the indexes say what the log says, and what the server holds is
    /// sound.
    pub closed spec fn wf(&self) -> bool {
        &&& self.by_scope.wf()
        &&& self.row_history.wf()
        &&& self.dedupe.wf()
        &&& self.command_targets.wf()
        &&& self.index_ok()
        &&& self.history_ok()
        &&& server_sound(self@)
    }

    /// What a server holds is sound.
    pub proof fn soundness(&self)
        requires
            self.wf(),
        ensures
            server_sound(self@),
    {
    }

    /// A server with an empty log.
    #[must_use]
    pub fn new() -> (server: Self)
        ensures
            server.wf(),
            server@ == empty_server(),
    {
        let server = Server {
            log: Vec::new(),
            by_scope: OrderedMap::new(),
            row_history: OrderedMap::new(),
            dedupe: OrderedMap::new(),
            next_seq: 1,
            command_targets: OrderedMap::new(),
            warm: true,
            in_flight: Vec::new(),
            hold_next: 0,
            commit_order_guard: true,
        };
        assert(server@ =~= empty_server());
        server
    }

    /// Declares which entity and scope a command name writes.
    pub fn register_command(&mut self, name: &str, entity: EntityName, scope: ScopeId)
        requires
            old(self).wf(),
        ensures
            final(self).wf(),
            final(self)@ == (ServerView {
                targets: old(self)@.targets.insert(name@, (entity@, scope@)),
                ..old(self)@
            }),
    {
        let ghost before = self@;
        let ghost pair = (entity@, scope@);
        self.command_targets.insert(CommandName::new(name), Target { entity, scope });
        assert(self@ =~= ServerView { targets: before.targets.insert(name@, pair), ..before });
    }

    /// Makes the next write take its position now and commit `delay` steps later, at least one.
    pub fn hold_next_write(&mut self, delay: u32)
        requires
            old(self).wf(),
        ensures
            final(self).wf(),
            final(self)@ == (ServerView {
                hold_next: if delay == 0 {
                    1
                } else {
                    delay
                },
                ..old(self)@
            }),
    {
        self.hold_next = if delay == 0 {
            1
        } else {
            delay
        };
    }

    /// Restarts with a cold cache. The log and the dedupe table survive, because they are durable.
    pub fn restart_cold(&mut self)
        requires
            old(self).wf(),
        ensures
            final(self).wf(),
            final(self)@ == (ServerView { warm: false, ..old(self)@ }),
    {
        self.warm = false;
    }

    /// Whether the cache is warm: whether there was no restart.
    pub fn is_warm(&self) -> (r: bool)
        ensures
            r == self@.warm,
    {
        self.warm
    }

    /// Turns the commit-order guard on or off.
    pub fn set_commit_order_guard(&mut self, on: bool)
        requires
            old(self).wf(),
        ensures
            final(self).wf(),
            final(self)@ == (ServerView { guard: on, ..old(self)@ }),
    {
        self.commit_order_guard = on;
    }

    /// How many writes have taken a position and not yet committed.
    #[must_use]
    pub fn in_flight_writes(&self) -> (n: usize)
        ensures
            n == self@.in_flight.len(),
    {
        self.in_flight.len()
    }

    /// How many distinct commands the server has recorded an outcome for.
    #[must_use]
    pub fn answered_commands(&self) -> (n: usize)
        requires
            self.wf(),
        ensures
            self@.dedupe.dom().finite(),
            n == self@.dedupe.dom().len(),
    {
        proof {
            self.dedupe.len_is();
            assert(self@.dedupe.dom() =~= self.dedupe@.dom());
        }
        self.dedupe.len()
    }

    /// Whether the server has recorded an outcome for this command id.
    #[must_use]
    pub fn has_answered(&self, id: &CommandId) -> (r: bool)
        requires
            self.wf(),
        ensures
            r == self@.dedupe.dom().contains(id.raw),
    {
        self.dedupe.contains_key(id)
    }

    /// The highest position in the log.
    #[must_use]
    pub fn head(&self) -> (seq: u64)
        requires
            self.wf(),
        ensures
            seq == self@.next_seq - 1,
    {
        self.next_seq - 1
    }

    /// The protocol version this server speaks.
    #[must_use]
    pub fn protocol() -> (v: ProtocolVersion)
        ensures
            v.value == 1,
    {
        ProtocolVersion { value: 1 }
    }
}

impl Default for Server {
    fn default() -> (server: Self)
        ensures
            server.wf(),
            server@ == empty_server(),
    {
        Server::new()
    }
}

proof fn flights_after_append(v: ServerView, e: EntryView)
    requires
        flights_match(v.log, v.in_flight),
        e.visible == (v.hold_next == 0),
    ensures
        flights_match(
            v.log.push(e),
            if v.hold_next > 0 {
                v.in_flight.push((v.log.len() as int, v.hold_next))
            } else {
                v.in_flight
            },
        ),
{
    let log = v.log.push(e);
    let flights = if v.hold_next > 0 {
        v.in_flight.push((v.log.len() as int, v.hold_next))
    } else {
        v.in_flight
    };
    assert forall|i: int| 0 <= i < log.len() && !(#[trigger] log[i]).visible implies exists|k: int|
        0 <= k < flights.len() && (#[trigger] flights[k]).0 == i by {
        if i < v.log.len() {
            assert(!v.log[i].visible);
            let k = choose|k: int| 0 <= k < v.in_flight.len() && (#[trigger] v.in_flight[k]).0 == i;
            assert(flights[k].0 == i);
        } else {
            assert(flights[v.in_flight.len() as int].0 == i);
        }
    }
}

impl Server {
    /// Appends one entry to the log and to its indexes.
    fn push_entry(&mut self, scope: &ScopeId, row: RowKey, op: Op) -> (seq: SeqNo)
        requires
            old(self).wf(),
            old(self)@.next_seq < u64::MAX,
        ensures
            final(self).wf(),
            final(self)@ == appended(old(self)@, scope@, row@, op),
            seq.value == old(self)@.next_seq,
    {
        let ghost v = self@;
        let seq = SeqNo { value: self.next_seq };
        let row_version = RowVersion { value: self.next_seq };
        let snapshot: Option<Snapshot> = match op {
            Op::Upsert => {
                let mut text: String = "{\"v\":".to_owned();
                push_decimal(&mut text, seq.value);
                text.append("}");
                Some(Snapshot { text })
            },
            Op::Delete => None,
        };
        let held: u32 = self.hold_next;
        let place: usize = self.log.len();
        let entry = LogEntry {
            scope: scope.clone(),
            change: Change {
                seq,
                entity: row.entity.clone(),
                entity_id: row.entity_id.clone(),
                op,
                snapshot,
                row_version,
                schema_version: SchemaVersion { value: 1 },
            },
            visible: held == 0,
        };
        let ghost e = entry@;
        let ghost w = appended(v, scope@, row@, op);
        proof {
            assert(w.log =~= v.log.push(e));
            assert(w.log.drop_last() =~= v.log);
            flights_after_append(v, e);
        }
        let mut places: Vec<usize> = match self.by_scope.remove(scope) {
            Some(p) => p,
            None => Vec::new(),
        };
        let ghost old_places = places@;
        places.push(place);
        let ghost new_places = places;
        self.by_scope.insert(scope.clone(), places);
        let mut rows: OrderedMap<RowKey, Vec<Version>> = match self.row_history.remove(scope) {
            Some(r) => r,
            None => OrderedMap::new(),
        };
        let ghost old_rows = rows@;
        let mut versions: Vec<Version> = match rows.remove(&row) {
            Some(list) => list,
            None => Vec::new(),
        };
        let ghost old_versions = versions@;
        versions.push(Version { seq: seq.value, row_version, op });
        let ghost new_versions = versions;
        let ghost key = row@;
        rows.insert(row, versions);
        let ghost new_rows = rows;
        self.row_history.insert(scope.clone(), rows);
        if held > 0 {
            self.in_flight.push((place, held));
        }
        self.hold_next = 0;
        self.next_seq = self.next_seq + 1;
        self.log.push(entry);
        proof {
            assert(self@ =~= w);
            // The index of scopes.
            assert(self.by_scope@ =~= old(self).by_scope@.insert(scope@, new_places));
            assert(places_match(old_places, positions(v.log, scope@)));
            assert forall|x: Seq<char>|
                if #[trigger] self.by_scope@.dom().contains(x) {
                    places_match(self.by_scope@[x]@, positions(w.log, x))
                } else {
                    positions(w.log, x).len() == 0
                } by {
                let known = old(self).by_scope@.dom().contains(x);
                if x == scope@ {
                    assert(positions(w.log, x) == positions(v.log, x).push(v.log.len() as int));
                    assert(places_match(new_places@, positions(w.log, x)));
                } else {
                    assert(positions(w.log, x) == positions(v.log, x));
                }
            }
            // The histories of rows.
            assert(self.row_history@ =~= old(self).row_history@.insert(scope@, new_rows));
            assert(new_rows@ =~= old_rows.insert(key, new_versions));
            assert(old_versions =~= history(v.log, scope@, key));
            assert forall|x: Seq<char>, r: (Seq<char>, Seq<char>)|
                #![trigger history(w.log, x, r)]
                if self.row_history@.dom().contains(x) && self.row_history@[x]@.dom().contains(r) {
                    self.row_history@[x]@[r]@ == history(w.log, x, r)
                } else {
                    history(w.log, x, r).len() == 0
                } by {
                let before = history(v.log, x, r);
                if x == scope@ && r == key {
                    assert(history(w.log, x, r) == before.push(
                        Version { seq: seq.value, row_version, op },
                    ));
                } else {
                    assert(history(w.log, x, r) == before);
                }
            }
            assert(log_ordered(w.log, w.next_seq));
        }
        seq
    }
}

proof fn positions_of_same_scopes(a: Seq<EntryView>, b: Seq<EntryView>, scope: Seq<char>)
    requires
        a.len() == b.len(),
        forall|i: int| 0 <= i < a.len() ==> (#[trigger] a[i]).scope == b[i].scope,
    ensures
        positions(a, scope) == positions(b, scope),
    decreases a.len(),
{
    if a.len() > 0 {
        assert forall|i: int| 0 <= i < a.len() - 1 implies (#[trigger] a.drop_last()[i]).scope
            == b.drop_last()[i].scope by {
            assert(a[i].scope == b[i].scope);
        }
        positions_of_same_scopes(a.drop_last(), b.drop_last(), scope);
        assert(a[a.len() - 1].scope == b[b.len() - 1].scope);
    }
}

proof fn history_of_same_changes(
    a: Seq<EntryView>,
    b: Seq<EntryView>,
    scope: Seq<char>,
    row: (Seq<char>, Seq<char>),
)
    requires
        a.len() == b.len(),
        forall|i: int|
            0 <= i < a.len() ==> (#[trigger] a[i]).scope == b[i].scope && a[i].change
                == b[i].change,
    ensures
        history(a, scope, row) == history(b, scope, row),
    decreases a.len(),
{
    if a.len() > 0 {
        assert forall|i: int| 0 <= i < a.len() - 1 implies (#[trigger] a.drop_last()[i]).scope
            == b.drop_last()[i].scope && a.drop_last()[i].change == b.drop_last()[i].change by {
            assert(a[i].scope == b[i].scope);
        }
        history_of_same_changes(a.drop_last(), b.drop_last(), scope, row);
        assert(a[a.len() - 1].scope == b[b.len() - 1].scope);
    }
}

proof fn waiting_comes_from(in_flight: Seq<(int, u32)>)
    ensures
        forall|k: int|
            0 <= k < still_waiting(in_flight).len() ==> exists|j: int|
                0 <= j < in_flight.len() && (#[trigger] in_flight[j]).0 == (
                #[trigger] still_waiting(in_flight)[k]).0 && in_flight[j].1 > 1,
        forall|j: int|
            0 <= j < in_flight.len() && (#[trigger] in_flight[j]).1 > 1 ==> exists|k: int|
                0 <= k < still_waiting(in_flight).len() && (#[trigger] still_waiting(
                    in_flight,
                )[k]).0 == in_flight[j].0,
    decreases in_flight.len(),
{
    if in_flight.len() > 0 {
        let rest = in_flight.drop_last();
        waiting_comes_from(rest);
        let before = still_waiting(rest);
        let now = still_waiting(in_flight);
        assert forall|k: int| 0 <= k < now.len() implies exists|j: int|
            0 <= j < in_flight.len() && (#[trigger] in_flight[j]).0 == (#[trigger] now[k]).0
                && in_flight[j].1 > 1 by {
            if k < before.len() {
                let j = choose|j: int|
                    0 <= j < rest.len() && (#[trigger] rest[j]).0 == before[k].0 && rest[j].1 > 1;
                assert(in_flight[j].0 == now[k].0);
            } else {
                assert(in_flight[in_flight.len() - 1].0 == now[k].0);
            }
        }
        assert forall|j: int| 0 <= j < in_flight.len() && (#[trigger] in_flight[j]).1
            > 1 implies exists|k: int|
            0 <= k < now.len() && (#[trigger] now[k]).0 == in_flight[j].0 by {
            if j < rest.len() {
                assert(rest[j].1 > 1);
                let k = choose|k: int| 0 <= k < before.len() && (#[trigger] before[k]).0 == rest[j].0;
                assert(now[k].0 == in_flight[j].0);
            } else {
                assert(now[before.len() as int].0 == in_flight[j].0);
            }
        }
    }
}

proof fn waiting_is_distinct(in_flight: Seq<(int, u32)>)
    requires
        forall|j: int, k: int|
            0 <= j < k < in_flight.len() ==> (#[trigger] in_flight[j]).0 != (
            #[trigger] in_flight[k]).0,
    ensures
        forall|j: int, k: int|
            0 <= j < k < still_waiting(in_flight).len() ==> (#[trigger] still_waiting(
                in_flight,
            )[j]).0 != (#[trigger] still_waiting(in_flight)[k]).0,
    decreases in_flight.len(),
{
    if in_flight.len() > 0 {
        let rest = in_flight.drop_last();
        waiting_is_distinct(rest);
        waiting_comes_from(rest);
        let before = still_waiting(rest);
        let now = still_waiting(in_flight);
        assert forall|j: int, k: int| 0 <= j < k < now.len() implies (#[trigger] now[j]).0 != (
        #[trigger] now[k]).0 by {
            if k == before.len() {
                let m = choose|m: int|
                    0 <= m < rest.len() && (#[trigger] rest[m]).0 == before[j].0 && rest[m].1 > 1;
                assert(in_flight[m].0 != in_flight[in_flight.len() - 1].0);
            }
        }
    }
}

proof fn flights_after_commits(v: ServerView)
    requires
        flights_match(v.log, v.in_flight),
    ensures
        flights_match(committed(v).log, committed(v).in_flight),
{
    let w = committed(v);
    waiting_comes_from(v.in_flight);
    waiting_is_distinct(v.in_flight);
    assert forall|k: int| 0 <= k < w.in_flight.len() implies 0 <= (#[trigger] w.in_flight[k]).0
        < w.log.len() && !w.log[w.in_flight[k].0].visible by {
        let j = choose|j: int|
            0 <= j < v.in_flight.len() && (#[trigger] v.in_flight[j]).0 == w.in_flight[k].0
                && v.in_flight[j].1 > 1;
        let i = w.in_flight[k].0;
        assert(!v.log[i].visible);
        if due(v.in_flight, i) {
            let m = choose|m: int|
                0 <= m < v.in_flight.len() && (#[trigger] v.in_flight[m]).0 == i
                    && v.in_flight[m].1 <= 1;
            if m < j {
                assert(v.in_flight[m].0 != v.in_flight[j].0);
            } else if j < m {
                assert(v.in_flight[j].0 != v.in_flight[m].0);
            }
        }
    }
    assert forall|i: int| 0 <= i < w.log.len() && !(#[trigger] w.log[i]).visible implies exists|
        k: int,
    |
        0 <= k < w.in_flight.len() && (#[trigger] w.in_flight[k]).0 == i by {
        assert(!v.log[i].visible);
        let j = choose|j: int| 0 <= j < v.in_flight.len() && (#[trigger] v.in_flight[j]).0 == i;
        assert(v.in_flight[j].1 > 1);
    }
}

impl Server {
    /// Advances every in-flight write, committing those whose delay has run out. Commits happen in
    /// the order of the delays, so a later position can become visible before an earlier one.
    pub fn advance_commits(&mut self)
        requires
            old(self).wf(),
        ensures
            final(self).wf(),
            final(self)@ == committed(old(self)@),
    {
        let ghost v = self@;
        let mut flights: Vec<(usize, u32)> = Vec::new();
        core::mem::swap(&mut flights, &mut self.in_flight);
        let ghost all = flights@.map_values(|f: (usize, u32)| (f.0 as int, f.1));
        assert(all == v.in_flight);
        let mut waiting: Vec<(usize, u32)> = Vec::new();
        let mut k: usize = 0;
        let ghost log0 = self.log@;
        assert(waiting@.map_values(|f: (usize, u32)| (f.0 as int, f.1)) =~= still_waiting(
            all.take(0),
        ));
        assert forall|i: int| !due(all.take(0), i) by {}
        while k < flights.len()
            invariant
                k <= flights@.len(),
                all == flights@.map_values(|f: (usize, u32)| (f.0 as int, f.1)),
                all == v.in_flight,
                flights_match(v.log, v.in_flight),
                self.log@.len() == log0.len(),
                v.log.len() == log0.len(),
                forall|i: int| 0 <= i < log0.len() ==> v.log[i] == (#[trigger] log0[i])@,
                forall|i: int|
                    0 <= i < log0.len() ==> (#[trigger] self.log@[i])@ == (EntryView {
                        visible: v.log[i].visible || due(all.take(k as int), i),
                        ..v.log[i]
                    }),
                waiting@.map_values(|f: (usize, u32)| (f.0 as int, f.1)) == still_waiting(
                    all.take(k as int),
                ),
                self.by_scope == old(self).by_scope,
                self.row_history == old(self).row_history,
                self.dedupe == old(self).dedupe,
                self.command_targets == old(self).command_targets,
                self.next_seq == old(self).next_seq,
                self.warm == old(self).warm,
                self.hold_next == old(self).hold_next,
                self.commit_order_guard == old(self).commit_order_guard,
            decreases flights@.len() - k,
        {
            let (index, remaining) = flights[k];
            let ghost now = all.take(k as int);
            let ghost next = all.take(k + 1);
            proof {
                assert(next.drop_last() =~= now);
                assert(next.last() == (index as int, remaining));
                assert(all[k as int] == (index as int, remaining));
                assert(0 <= v.in_flight[k as int].0 < v.log.len());
                assert forall|i: int| due(next, i) == (due(now, i) || (i == index && remaining
                    <= 1)) by {
                    if due(next, i) {
                        let m = choose|m: int|
                            0 <= m < next.len() && (#[trigger] next[m]).0 == i && next[m].1 <= 1;
                        if m < k {
                            assert(now[m] == next[m]);
                        }
                    }
                    if due(now, i) {
                        let m = choose|m: int|
                            0 <= m < now.len() && (#[trigger] now[m]).0 == i && now[m].1 <= 1;
                        assert(next[m] == now[m]);
                    }
                    if i == index && remaining <= 1 {
                        assert(next[k as int].0 == i);
                    }
                }
            }
            if remaining <= 1 {
                let ghost before = self.log@;
                self.log[index].visible = true;
                assert forall|i: int| 0 <= i < log0.len() implies (#[trigger] self.log@[i])@ == (
                EntryView { visible: v.log[i].visible || due(next, i), ..v.log[i] }) by {
                    assert(before[i]@ == (EntryView {
                        visible: v.log[i].visible || due(now, i),
                        ..v.log[i]
                    }));
                }
            } else {
                let ghost before = waiting@;
                waiting.push((index, remaining - 1));
                assert(waiting@.map_values(|f: (usize, u32)| (f.0 as int, f.1))
                    =~= before.map_values(|f: (usize, u32)| (f.0 as int, f.1)).push(
                    (index as int, (remaining - 1) as u32),
                ));
            }
            k = k + 1;
        }
        assert(all.take(k as int) =~= all);
        self.in_flight = waiting;
        proof {
            let w = committed(v);
            assert(self@.log =~= w.log);
            assert(self@ =~= w);
            flights_after_commits(v);
            assert forall|i: int| 0 <= i < v.log.len() implies (#[trigger] v.log[i]).scope
                == w.log[i].scope && v.log[i].change == w.log[i].change by {}
            assert forall|x: Seq<char>| positions(w.log, x) == positions(v.log, x) by {
                positions_of_same_scopes(w.log, v.log, x);
            }
            assert forall|x: Seq<char>, r: (Seq<char>, Seq<char>)| #[trigger]
                history(w.log, x, r) == history(v.log, x, r) by {
                history_of_same_changes(w.log, v.log, x, r);
            }
            assert(self.index_ok());
            assert(self.history_ok());
            assert(log_ordered(w.log, w.next_seq));
        }
    }

    /// The places of a scope's entries in the log.
    fn places(&self, scope: &ScopeId) -> (p: Option<&Vec<usize>>)
        requires
            self.wf(),
        ensures
            match p {
                Some(ix) => places_match(ix@, positions(self@.log, scope@)),
                None => positions(self@.log, scope@).len() == 0,
            },
    {
        self.by_scope.get(scope)
    }

    /// The highest position in a scope with every earlier entry committed: where a correct
    /// client's cursor can reach.
    #[must_use]
    pub fn visible_head(&self, scope: &ScopeId) -> (seq: u64)
        requires
            self.wf(),
        ensures
            seq == visible_end(scope_log(self@.log, scope@)),
    {
        let ghost entries = scope_log(self@.log, scope@);
        proof {
            positions_in_order(self@.log, scope@);
        }
        let indices: &Vec<usize> = match self.places(scope) {
            Some(ix) => ix,
            None => {
                assert(visible_run(entries) == 0);
                return 0;
            },
        };
        let mut head: u64 = 0;
        let mut k: usize = 0;
        while k < indices.len()
            invariant
                k <= indices@.len(),
                self.log@.len() == self@.log.len(),
                places_match(indices@, positions(self@.log, scope@)),
                entries == scope_log(self@.log, scope@),
                forall|j: int|
                    0 <= j < indices@.len() ==> 0 <= (#[trigger] indices@[j]) < self@.log.len(),
                forall|j: int| 0 <= j < k ==> (#[trigger] entries[j]).visible,
                head == if k == 0 {
                    0
                } else {
                    entries[k - 1].change.seq
                },
            decreases indices@.len() - k,
        {
            let place: usize = indices[k];
            let entry: &LogEntry = &self.log[place];
            assert(entries[k as int] == entry@);
            if !entry.visible {
                proof {
                    visible_run_is(entries, k as int);
                }
                return head;
            }
            head = entry.change.seq.get();
            k = k + 1;
        }
        proof {
            visible_run_is(entries, k as int);
        }
        head
    }

    /// What a reader may be handed of a scope past a cursor, and whether there is more.
    fn candidates(&self, scope: &ScopeId, after: u64, row_limit: usize) -> (r: (Vec<Change>, bool))
        requires
            self.wf(),
        ensures
            change_views(r.0@) == readable(
                past(self@.log, scope@, after),
                self@.guard,
                row_limit as nat,
            ),
            r.1 == (past(self@.log, scope@, after).len() > r.0@.len()),
    {
        let ghost log = self@.log;
        let ghost entries = scope_log(log, scope@);
        proof {
            positions_in_order(log, scope@);
        }
        let mut changes: Vec<Change> = Vec::new();
        let indices: &Vec<usize> = match self.places(scope) {
            Some(ix) => ix,
            None => {
                assert(past(log, scope@, after).len() == 0);
                assert(change_views(changes@) =~= Seq::<ChangeView>::empty());
                return (changes, false);
            },
        };
        // Binary search: the index is in the order of positions, so the first entry past the
        // cursor is found in log time no matter how long the log gets.
        let mut low: usize = 0;
        let mut high: usize = indices.len();
        assert forall|k: int| 0 <= k < indices@.len() implies #[trigger] stands_at(
            self.log@,
            indices@,
            entries,
            k,
        ) by {
            assert(indices@[k] as int == positions(log, scope@)[k]);
        }
        assert forall|j: int, k: int| 0 <= j < k < entries.len() implies (
        #[trigger] entries[j]).change.seq < (#[trigger] entries[k]).change.seq by {
            assert(positions(log, scope@)[j] < positions(log, scope@)[k]);
            assert(log[positions(log, scope@)[j]].change.seq < log[positions(
                log,
                scope@,
            )[k]].change.seq);
        }
        while low < high
            invariant
                low <= high <= indices@.len(),
                entries.len() == indices@.len(),
                forall|k: int|
                    0 <= k < indices@.len() ==> #[trigger] stands_at(
                        self.log@,
                        indices@,
                        entries,
                        k,
                    ),
                forall|j: int, k: int|
                    0 <= j < k < entries.len() ==> (#[trigger] entries[j]).change.seq < (
                    #[trigger] entries[k]).change.seq,
                low > 0 ==> entries[low - 1].change.seq <= after,
                forall|j: int|
                    high <= j < entries.len() ==> (#[trigger] entries[j]).change.seq > after,
            decreases high - low,
        {
            let mid: usize = low + (high - low) / 2;
            assert(stands_at(self.log@, indices@, entries, mid as int));
            if self.log[indices[mid]].change.seq.get() <= after {
                low = mid + 1;
            } else {
                high = mid;
            }
        }
        let begin: usize = low;
        let ghost rest = past(log, scope@, after);
        proof {
            upto_is(entries, after, low as int);
            assert(rest == entries.skip(begin as int));
            assert(rest.skip(0) =~= rest);
            assert(change_views(changes@) =~= Seq::<ChangeView>::empty());
        }
        let mut k: usize = begin;
        while k < indices.len() && changes.len() < row_limit
            invariant
                begin <= k <= indices@.len(),
                entries.len() == indices@.len(),
                rest == entries.skip(begin as int),
                changes@.len() <= row_limit,
                changes@.len() <= k - begin,
                forall|k: int|
                    0 <= k < indices@.len() ==> #[trigger] stands_at(
                        self.log@,
                        indices@,
                        entries,
                        k,
                    ),
                self.commit_order_guard == self@.guard,
                readable(rest, self@.guard, row_limit as nat) == change_views(changes@) + readable(
                    rest.skip(k - begin),
                    self@.guard,
                    (row_limit - changes@.len()) as nat,
                ),
            ensures
                changes@.len() <= indices@.len() - begin,
                readable(rest, self@.guard, row_limit as nat) == change_views(changes@),
            decreases indices@.len() - k,
        {
            let ghost ahead = rest.skip(k - begin);
            assert(stands_at(self.log@, indices@, entries, k as int));
            assert(ahead[0] == entries[k as int]);
            assert(ahead.drop_first() =~= rest.skip(k + 1 - begin));
            let entry: &LogEntry = &self.log[indices[k]];
            if entry.visible {
                let ghost before = changes@;
                changes.push(entry.change.clone());
                assert(change_views(changes@) =~= change_views(before).push(entry.change@));
                assert(change_views(before) + (seq![entry.change@] + readable(
                    rest.skip(k + 1 - begin),
                    self@.guard,
                    (row_limit - changes@.len()) as nat,
                )) =~= change_views(changes@) + readable(
                    rest.skip(k + 1 - begin),
                    self@.guard,
                    (row_limit - changes@.len()) as nat,
                ));
            } else if self.commit_order_guard {
                assert(change_views(changes@) + Seq::<ChangeView>::empty() =~= change_views(
                    changes@,
                ));
                break;
            }
            k = k + 1;
        }
        let more: bool = indices.len() - begin > changes.len();
        (changes, more)
    }
}

/// 32 zeros: a well-formed checksum where there is none.
pub open spec fn no_checksum() -> Seq<char> {
    "00000000000000000000000000000000"@
}

fn hex_placeholder() -> (h: HexString)
    ensures
        h@ == no_checksum(),
{
    HexString::new("00000000000000000000000000000000")
}

/// The batch that answers for one scope, `cs` being what may be sent: as [`fill_batch`] fills it
/// under a compressor of ratio 3; empty where that fails.
pub open spec fn served<W: Codec>(
    scope: Seq<char>,
    after: u64,
    cs: Seq<ChangeView>,
    more: bool,
    budget: usize,
    digest: Seq<char>,
    codec: &W,
    b: BatchView,
) -> bool {
    exists|c: SimCompressor, r: Result<BatchView, ServerErrorView>|
        {
            &&& c.ratio() == 3
            &&& #[trigger] filled(scope, after, cs, more, budget, &c, digest, codec, r)
            &&& b == match r {
                Ok(x) => x,
                Err(_) => BatchView {
                    scope,
                    changes: seq![],
                    next_cursor: after,
                    has_more: more,
                    checksum: no_checksum(),
                    digest,
                },
            }
        }
}

/// The server's digest of a scope: over the rows that a reader can see.
pub open spec fn server_digest<W: Codec>(
    log: Seq<EntryView>,
    scope: Seq<char>,
    codec: &W,
) -> Seq<char> {
    digest_of(codec, rows_of(log, scope, visible_end(scope_log(log, scope))))
}

/// The batch that a pull of one scope is answered with.
pub open spec fn pull_answer<W: Codec>(
    v: ServerView,
    scope: Seq<char>,
    after: u64,
    row_limit: nat,
    budget: usize,
    codec: &W,
    b: BatchView,
) -> bool {
    let ahead = past(v.log, scope, after);
    let cs = readable(ahead, v.guard, row_limit);
    served(
        scope,
        after,
        cs,
        ahead.len() > cs.len(),
        budget,
        server_digest(v.log, scope, codec),
        codec,
        b,
    )
}

/// The batch that a pull of one scope is answered with.
pub open spec fn pull_batch<W: Codec>(
    v: ServerView,
    scope: Seq<char>,
    after: u64,
    row_limit: nat,
    budget: usize,
    codec: &W,
) -> BatchView {
    choose|b: BatchView| pull_answer(v, scope, after, row_limit, budget, codec, b)
}

/// The scopes that a pull asks for, each with the position it asks from.
pub open spec fn scope_cursors(scopes: Seq<ScopeCursor>) -> Seq<(Seq<char>, u64)> {
    scopes.map_values(|sc: ScopeCursor| (sc.scope@, sc.cursor.position))
}

/// The batches that a pull is answered with.
pub open spec fn pulled<W: Codec>(
    v: ServerView,
    scopes: Seq<(Seq<char>, u64)>,
    row_limit: nat,
    budget: usize,
    codec: &W,
) -> Seq<BatchView> {
    scopes.map_values(
        |sc: (Seq<char>, u64)| pull_batch(v, sc.0, sc.1, row_limit, budget, codec),
    )
}

/// What a scope is answered with is determined.
pub proof fn serving_is_determined<W: Codec>(
    scope: Seq<char>,
    after: u64,
    cs: Seq<ChangeView>,
    more: bool,
    budget: usize,
    digest: Seq<char>,
    codec: &W,
    a: BatchView,
    b: BatchView,
)
    requires
        served(scope, after, cs, more, budget, digest, codec, a),
        served(scope, after, cs, more, budget, digest, codec, b),
    ensures
        a == b,
{
    let (c, r) = choose|c: SimCompressor, r: Result<BatchView, ServerErrorView>|
        {
            &&& c.ratio() == 3
            &&& #[trigger] filled(scope, after, cs, more, budget, &c, digest, codec, r)
            &&& a == match r {
                Ok(x) => x,
                Err(_) => BatchView {
                    scope,
                    changes: seq![],
                    next_cursor: after,
                    has_more: more,
                    checksum: no_checksum(),
                    digest,
                },
            }
        };
    let (d, q) = choose|d: SimCompressor, q: Result<BatchView, ServerErrorView>|
        {
            &&& d.ratio() == 3
            &&& #[trigger] filled(scope, after, cs, more, budget, &d, digest, codec, q)
            &&& b == match q {
                Ok(x) => x,
                Err(_) => BatchView {
                    scope,
                    changes: seq![],
                    next_cursor: after,
                    has_more: more,
                    checksum: no_checksum(),
                    digest,
                },
            }
        };
    same_ratio_same_compressor(c, d);
    filling_is_determined(scope, after, cs, more, budget, &c, digest, codec, r, q);
}

/// Entry `i` belongs to the compacted log: it is the last change of its row up to `head`, and
/// past `after`; and a removal belongs to it only where the device can hold what was removed.
pub open spec fn is_current(entries: Seq<EntryView>, head: u64, after: u64, i: int) -> bool {
    &&& after < entries[i].change.seq <= head
    &&& entries[i].change.op == Op::Upsert || after > 0
    &&& forall|j: int|
        i < j < entries.len() && (#[trigger] entries[j]).change.seq <= head
            ==> entries[j].change.row != entries[i].change.row
}

/// The compacted log among the first `n` entries: every row's last change, once.
pub open spec fn compacted(entries: Seq<EntryView>, head: u64, after: u64, n: nat) -> Seq<
    ChangeView,
>
    decreases n,
{
    if n == 0 {
        seq![]
    } else {
        let before = compacted(entries, head, after, (n - 1) as nat);
        if is_current(entries, head, after, n - 1) {
            before.push(entries[n - 1].change)
        } else {
            before
        }
    }
}

/// What a bootstrap may send of a scope.
pub open spec fn bootstrap_changes(log: Seq<EntryView>, scope: Seq<char>, after: u64) -> Seq<
    ChangeView,
> {
    let entries = scope_log(log, scope);
    compacted(entries, visible_end(entries), after, entries.len())
}

impl Server {
    /// Every row a client at `cursor` should be holding, with the version it should be at, in the
    /// order of their keys.
    #[must_use]
    pub fn rows_at(&self, scope: &ScopeId, cursor: u64) -> (rows: Vec<RowState>)
        requires
            self.wf(),
        ensures
            is_rows_at(self@.log, scope@, cursor, row_views(rows@)),
            row_views(rows@) == rows_of(self@.log, scope@, cursor),
    {
        let ghost log = self@.log;
        let mut rows: Vec<RowState> = Vec::new();
        let history_map: &OrderedMap<RowKey, Vec<Version>> = match self.row_history.get(scope) {
            Some(m) => m,
            None => {
                proof {
                    assert forall|row: (Seq<char>, Seq<char>)| #[trigger]
                        version_at(log, scope@, row, cursor) is None by {
                        assert(history(log, scope@, row).len() == 0);
                    }
                    assert(is_rows_at(log, scope@, cursor, row_views(rows@)));
                    rows_are_determined(
                        log,
                        scope@,
                        cursor,
                        row_views(rows@),
                        rows_of(log, scope@, cursor),
                    );
                }
                return rows;
            },
        };
        let ghost entries = history_map.entries();
        let ghost mut sources: Seq<int> = Seq::empty();
        let n: usize = history_map.len();
        let mut i: usize = 0;
        while i < n
            invariant
                i <= n,
                n == entries.len(),
                entries == history_map.entries(),
                log == self@.log,
                self.wf(),
                self.row_history@.dom().contains(scope@),
                *history_map == self.row_history@[scope@],
                history_map.wf(),
                sources.len() == rows@.len(),
                forall|k: int|
                    0 <= k < sources.len() ==> 0 <= (#[trigger] sources[k]) < i && rows@[k]@.row
                        == entries[sources[k]].0.model(),
                forall|j: int, k: int|
                    0 <= j < k < sources.len() ==> (#[trigger] sources[j]) < (
                    #[trigger] sources[k]),
                forall|k: int|
                    0 <= k < rows@.len() ==> version_at(
                        log,
                        scope@,
                        (#[trigger] rows@[k])@.row,
                        cursor,
                    ) == Some(rows@[k].row_version),
                forall|j: int|
                    0 <= j < i && version_at(
                        log,
                        scope@,
                        (#[trigger] entries[j]).0.model(),
                        cursor,
                    ) is Some ==> exists|k: int|
                        0 <= k < rows@.len() && (#[trigger] rows@[k])@.row == entries[j].0.model(),
            decreases n - i,
        {
            let key: &RowKey = history_map.key_at(i);
            let versions: &Vec<Version> = history_map.value_at(i);
            proof {
                history_map.entry_in_view(i as int);
                assert(versions@ == history(log, scope@, key@));
                history_in_order(log, scope@, key@, self@.next_seq);
            }
            let upto: usize = versions_upto(versions, cursor);
            let ghost before = rows@;
            if upto > 0 && versions[upto - 1].op == Op::Upsert {
                rows.push(
                    RowState {
                        entity: key.entity.clone(),
                        entity_id: key.entity_id.clone(),
                        row_version: versions[upto - 1].row_version,
                    },
                );
                proof {
                    sources = sources.push(i as int);
                    assert(rows@[before.len() as int]@.row == entries[i as int].0.model());
                }
            }
            proof {
                assert forall|j: int| 0 <= j < i + 1 && version_at(
                    log,
                    scope@,
                    (#[trigger] entries[j]).0.model(),
                    cursor,
                ) is Some implies exists|k: int|
                    0 <= k < rows@.len() && (#[trigger] rows@[k])@.row == entries[j].0.model() by {
                    if j < i {
                        let k = choose|k: int|
                            0 <= k < before.len() && (#[trigger] before[k])@.row
                                == entries[j].0.model();
                        assert(rows@[k] == before[k]);
                    }
                }
            }
            i = i + 1;
        }
        proof {
            let views = row_views(rows@);
            assert forall|j: int, k: int| 0 <= j < k < views.len() implies RowKey::below(
                (#[trigger] views[j]).row,
                (#[trigger] views[k]).row,
            ) by {
                assert(sources[j] < sources[k]);
                assert(RowKey::below(
                    entries[sources[j]].0.model(),
                    entries[sources[k]].0.model(),
                ));
            }
            assert forall|k: int| 0 <= k < views.len() implies version_at(
                log,
                scope@,
                (#[trigger] views[k]).row,
                cursor,
            ) == Some(RowVersion { value: views[k].row_version }) by {
                assert(rows@[k]@.row == views[k].row);
            }
            assert forall|row: (Seq<char>, Seq<char>)| #[trigger]
                version_at(log, scope@, row, cursor) is Some implies exists|k: int|
                0 <= k < views.len() && (#[trigger] views[k]).row == row by {
                assert(history(log, scope@, row).len() > 0);
                let j = history_map.key_has_entry(row);
                let k = choose|k: int|
                    0 <= k < rows@.len() && (#[trigger] rows@[k])@.row == entries[j].0.model();
                assert(views[k].row == row);
            }
            assert(is_rows_at(log, scope@, cursor, views));
            rows_are_determined(log, scope@, cursor, views, rows_of(log, scope@, cursor));
        }
        rows
    }

    /// The version a row should hold on a client whose cursor is at `cursor`.
    #[must_use]
    pub fn row_version_at(
        &self,
        scope: &ScopeId,
        entity: &EntityName,
        entity_id: &EntityId,
        cursor: u64,
    ) -> (r: Option<RowVersion>)
        requires
            self.wf(),
        ensures
            r == version_at(self@.log, scope@, (entity@, entity_id@), cursor),
    {
        let ghost log = self@.log;
        let ghost row = (entity@, entity_id@);
        let rows: &OrderedMap<RowKey, Vec<Version>> = match self.row_history.get(scope) {
            Some(m) => m,
            None => {
                assert(history(log, scope@, row).len() == 0);
                return None;
            },
        };
        let key = RowKey { entity: entity.clone(), entity_id: entity_id.clone() };
        let versions: &Vec<Version> = match rows.get(&key) {
            Some(v) => v,
            None => {
                assert(history(log, scope@, row).len() == 0);
                return None;
            },
        };
        proof {
            assert(versions@ == history(log, scope@, row));
            history_in_order(log, scope@, row, self@.next_seq);
        }
        let upto: usize = versions_upto(versions, cursor);
        if upto > 0 && versions[upto - 1].op == Op::Upsert {
            Some(versions[upto - 1].row_version)
        } else {
            None
        }
    }

    /// The server's own digest for a scope, over what a reader can actually see.
    #[must_use]
    pub fn digest<W: Codec>(&self, scope: &ScopeId, codec: &W) -> (h: HexString)
        requires
            self.wf(),
            is_function(codec),
        ensures
            h@ == server_digest(self@.log, scope@, codec),
    {
        let head: u64 = self.visible_head(scope);
        let rows: Vec<RowState> = self.rows_at(scope, head);
        digest_with(codec, &rows)
    }

    fn serve<W: Codec>(
        &self,
        scope: &ScopeId,
        after: u64,
        candidates: Vec<Change>,
        more_beyond: bool,
        budget_bytes: usize,
        codec: &W,
    ) -> (b: Batch)
        requires
            self.wf(),
            is_function(codec),
        ensures
            served(
                scope@,
                after,
                change_views(candidates@),
                more_beyond,
                budget_bytes,
                server_digest(self@.log, scope@, codec),
                codec,
                b@,
            ),
    {
        let ghost cs = change_views(candidates@);
        let digest: HexString = self.digest(scope, codec);
        let spare: HexString = digest.clone();
        let compressor: SimCompressor = SimCompressor::with_ratio(3);
        let cursor = Cursor { position: after };
        let filling = fill_batch(
            scope,
            cursor,
            candidates,
            more_beyond,
            budget_bytes,
            &compressor,
            digest,
            codec,
        );
        let ghost r = batch_result(filling);
        assert(filled(
            scope@,
            after,
            cs,
            more_beyond,
            budget_bytes,
            &compressor,
            spare@,
            codec,
            r,
        ));
        match filling {
            Ok(b) => b,
            Err(_) => {
                let b = Batch {
                    scope: scope.clone(),
                    changes: Vec::new(),
                    next_cursor: cursor,
                    has_more: more_beyond,
                    checksum: hex_placeholder(),
                    digest: spare,
                };
                assert(b@.changes =~= Seq::<ChangeView>::empty());
                b
            },
        }
    }

    /// Answers a pull, one batch per requested scope.
    ///
    /// `row_limit` caps the changes read of each scope; `budget_bytes` is the compressed budget.
    #[must_use]
    pub fn pull<W: Codec>(
        &self,
        request: &PullRequest,
        row_limit: usize,
        budget_bytes: usize,
        codec: &W,
    ) -> (response: PullResponse)
        requires
            self.wf(),
            is_function(codec),
        ensures
            response.protocol == request.protocol,
            response.batches@.len() == request.scopes@.len(),
            forall|i: int|
                0 <= i < request.scopes@.len() ==> pull_answer(
                    self@,
                    request.scopes@[i].scope@,
                    request.scopes@[i].cursor.position,
                    row_limit as nat,
                    budget_bytes,
                    codec,
                    (#[trigger] response.batches@[i])@,
                ),
            batch_views(response.batches@) == pulled(
                self@,
                scope_cursors(request.scopes@),
                row_limit as nat,
                budget_bytes,
                codec,
            ),
    {
        let mut batches: Vec<Batch> = Vec::new();
        let mut i: usize = 0;
        while i < request.scopes.len()
            invariant
                i <= request.scopes@.len(),
                self.wf(),
                is_function(codec),
                batches@.len() == i,
                forall|j: int|
                    0 <= j < i ==> pull_answer(
                        self@,
                        request.scopes@[j].scope@,
                        request.scopes@[j].cursor.position,
                        row_limit as nat,
                        budget_bytes,
                        codec,
                        (#[trigger] batches@[j])@,
                    ),
            decreases request.scopes@.len() - i,
        {
            let sc: &ScopeCursor = &request.scopes[i];
            let after: u64 = sc.cursor.get();
            let (candidates, more_beyond) = self.candidates(&sc.scope, after, row_limit);
            let b: Batch = self.serve(
                &sc.scope,
                after,
                candidates,
                more_beyond,
                budget_bytes,
                codec,
            );
            batches.push(b);
            i = i + 1;
        }
        proof {
            let views = batch_views(batches@);
            let asked = scope_cursors(request.scopes@);
            let all = pulled(self@, asked, row_limit as nat, budget_bytes, codec);
            assert forall|i: int| 0 <= i < views.len() implies views[i] == all[i] by {
                let sc = request.scopes@[i];
                let ahead = past(self@.log, sc.scope@, sc.cursor.position);
                let cs = readable(ahead, self@.guard, row_limit as nat);
                assert(views[i] == batches@[i]@);
                serving_is_determined(
                    sc.scope@,
                    sc.cursor.position,
                    cs,
                    ahead.len() > cs.len(),
                    budget_bytes,
                    server_digest(self@.log, sc.scope@, codec),
                    codec,
                    views[i],
                    all[i],
                );
            }
            assert(views =~= all);
        }
        PullResponse { protocol: request.protocol, batches }
    }

    /// Whether entry `k` of a scope belongs to its compacted log.
    fn current(&self, indices: &Vec<usize>, k: usize, head: u64, after: u64) -> (r: bool)
        requires
            k < indices@.len(),
            forall|j: int| 0 <= j < indices@.len() ==> (#[trigger] indices@[j]) < self.log@.len(),
        ensures
            r == is_current(
                indices@.map_values(|i: usize| self.log@[i as int]@),
                head,
                after,
                k as int,
            ),
    {
        let ghost entries = indices@.map_values(|i: usize| self.log@[i as int]@);
        let change: &Change = &self.log[indices[k]].change;
        let seq: u64 = change.seq.get();
        assert(entries[k as int].change == change@);
        let kept: bool = match change.op {
            Op::Upsert => true,
            Op::Delete => after > 0,
        };
        if seq <= after || seq > head || !kept {
            return false;
        }
        let count: usize = indices.len();
        let mut j: usize = k + 1;
        while j < count
            invariant
                k < j <= count,
                count == indices@.len(),
                forall|j: int|
                    0 <= j < indices@.len() ==> (#[trigger] indices@[j]) < self.log@.len(),
                entries == indices@.map_values(|i: usize| self.log@[i as int]@),
                entries[k as int].change == change@,
                forall|m: int|
                    k < m < j && (#[trigger] entries[m]).change.seq <= head
                        ==> entries[m].change.row != entries[k as int].change.row,
            decreases count - j,
        {
            let later: &Change = &self.log[indices[j]].change;
            assert(entries[j as int].change == later@);
            if later.seq.get() <= head && later.entity.text == change.entity.text
                && later.entity_id.text == change.entity_id.text {
                assert(entries[j as int].change.row == entries[k as int].change.row);
                return false;
            }
            j = j + 1;
        }
        true
    }

    /// The changes that a bootstrap may send.
    fn bootstrap_candidates(&self, scope: &ScopeId, after: u64) -> (changes: Vec<Change>)
        requires
            self.wf(),
        ensures
            change_views(changes@) == bootstrap_changes(self@.log, scope@, after),
    {
        let ghost log = self@.log;
        let ghost entries = scope_log(log, scope@);
        proof {
            positions_in_order(log, scope@);
        }
        let head: u64 = self.visible_head(scope);
        let mut changes: Vec<Change> = Vec::new();
        let indices: &Vec<usize> = match self.places(scope) {
            Some(ix) => ix,
            None => {
                assert(change_views(changes@) =~= Seq::<ChangeView>::empty());
                return changes;
            },
        };
        assert(indices@.map_values(|i: usize| self.log@[i as int]@) =~= entries);
        let mut k: usize = 0;
        assert(change_views(changes@) =~= compacted(entries, head, after, 0));
        while k < indices.len()
            invariant
                k <= indices@.len(),
                entries.len() == indices@.len(),
                entries == indices@.map_values(|i: usize| self.log@[i as int]@),
                forall|j: int|
                    0 <= j < indices@.len() ==> (#[trigger] indices@[j]) < self.log@.len(),
                change_views(changes@) == compacted(entries, head, after, k as nat),
            decreases indices@.len() - k,
        {
            if self.current(indices, k, head, after) {
                let ghost before = changes@;
                let change: Change = self.log[indices[k]].change.clone();
                assert(entries[k as int].change == change@);
                changes.push(change);
                assert(change_views(changes@) =~= change_views(before).push(
                    entries[k as int].change,
                ));
            }
            k = k + 1;
        }
        changes
    }

    /// Answers a bootstrap: the compacted log of a scope past `after`, one change for each row,
    /// under the same byte budget as a pull.
    ///
    /// A removal is sent only when `after` is past the start: a device that holds nothing has
    /// nothing to correct, but one that was handed the row on an earlier page has.
    #[must_use]
    pub fn bootstrap<W: Codec>(
        &self,
        request: &BootstrapRequest,
        budget_bytes: usize,
        codec: &W,
    ) -> (b: Batch)
        requires
            self.wf(),
            is_function(codec),
        ensures
            served(
                request.scope@,
                request.after.position,
                bootstrap_changes(self@.log, request.scope@, request.after.position),
                false,
                budget_bytes,
                server_digest(self@.log, request.scope@, codec),
                codec,
                b@,
            ),
    {
        let after: u64 = request.after.get();
        let candidates: Vec<Change> = self.bootstrap_candidates(&request.scope, after);
        self.serve(&request.scope, after, candidates, false, budget_bytes, codec)
    }
}

/// The result of a command that was refused for `reason`.
pub open spec fn refused(id: u128, reason: Seq<char>) -> ResultView {
    ResultView { id, status: Status::Rejected, reason: Some(reason), server_seq: None }
}

/// The server with an outcome recorded, for the body with this checksum.
pub open spec fn recorded(
    v: ServerView,
    id: u128,
    checksum: Seq<char>,
    result: ResultView,
) -> ServerView {
    ServerView { dedupe: v.dedupe.insert(id, RecordedView { checksum, result }), ..v }
}

/// The identifier of row number `n`.
pub open spec fn row_name(n: nat) -> Seq<char> {
    "row:"@ + decimal(n)
}

/// What a command that has not been answered comes to: the result, the server with its effects
/// but without the record, and the state of the generator.
pub open spec fn performed(v: ServerView, command: Command, s: u64) -> (ResultView, ServerView, u64) {
    let id = command.id.raw;
    if !v.targets.dom().contains(command.name@) {
        (refused(id, "Unknown command."@), v, s)
    } else {
        let (entity, scope) = v.targets[command.name@];
        let (roll, t) = below_of(s, 100);
        if roll < 80 {
            let row = (entity, row_name(((id % 256) % 8) as nat));
            (
                ResultView {
                    id,
                    status: Status::Applied,
                    reason: None,
                    server_seq: Some(SeqNo { value: v.next_seq }),
                },
                appended(v, scope, row, Op::Upsert),
                t,
            )
        } else if roll < 90 {
            (
                ResultView { id, status: Status::Superseded, reason: None, server_seq: None },
                v,
                t,
            )
        } else {
            (refused(id, "Submission deadline passed."@), v, t)
        }
    }
}

/// The checksum that a record is made under.
pub open spec fn record_checksum(command: Command) -> Seq<char> {
    match body_checksum(command) {
        Some(h) => h,
        None => no_checksum(),
    }
}

/// What one command comes to: the result, the server after it, and the state of the generator.
pub open spec fn answered(v: ServerView, command: Command, s: u64) -> (ResultView, ServerView, u64) {
    let id = command.id.raw;
    let prior = if v.dedupe.dom().contains(id) {
        Some(v.dedupe[id])
    } else {
        None
    };
    match decision(body_checksum(command), prior) {
        Ok(DecisionView::Replay(result)) => (result, v, s),
        Ok(DecisionView::Mutated { .. }) => (refused(id, mutated_sentence()), v, s),
        _ => {
            let (result, w, t) = performed(v, command, s);
            (result, recorded(w, id, record_checksum(command), result), t)
        },
    }
}

/// What some commands come to, one after the other.
pub open spec fn answered_all(v: ServerView, commands: Seq<Command>, s: u64) -> (
    Seq<ResultView>,
    ServerView,
    u64,
)
    decreases commands.len(),
{
    if commands.len() == 0 {
        (seq![], v, s)
    } else {
        let (results, w, t) = answered_all(v, commands.drop_last(), s);
        let (result, w2, t2) = answered(w, commands.last(), t);
        (results.push(result), w2, t2)
    }
}

/// The command has been answered before, and its body can be compared with the one that was: it
/// writes nothing.
pub open spec fn is_settled(v: ServerView, command: Command) -> bool {
    v.dedupe.dom().contains(command.id.raw) && body_checksum(command) is Some
}

/// How many of some commands may write something.
pub open spec fn unsettled(v: ServerView, commands: Seq<Command>) -> nat
    decreases commands.len(),
{
    if commands.len() == 0 {
        0
    } else {
        unsettled(v, commands.drop_last()) + if is_settled(v, commands.last()) {
            0nat
        } else {
            1nat
        }
    }
}

/// At most all of some commands write something.
pub proof fn unsettled_is_at_most_all(v: ServerView, commands: Seq<Command>)
    ensures
        unsettled(v, commands) <= commands.len(),
    decreases commands.len(),
{
    if commands.len() > 0 {
        unsettled_is_at_most_all(v, commands.drop_last());
    }
}

proof fn unsettled_grows(v: ServerView, commands: Seq<Command>, n: int)
    requires
        0 <= n <= commands.len(),
    ensures
        unsettled(v, commands.take(n)) <= unsettled(v, commands),
    decreases commands.len(),
{
    if n < commands.len() {
        assert(commands.drop_last().take(n) =~= commands.take(n));
        unsettled_grows(v, commands.drop_last(), n);
    } else {
        assert(commands.take(n) =~= commands);
    }
}

/// Some commands take at most as many positions of the log as there are of them that have not
/// been answered, and no record is lost.
pub proof fn answering_takes_few_positions(v: ServerView, commands: Seq<Command>, s: u64)
    requires
        v.next_seq + unsettled(v, commands) <= u64::MAX,
    ensures
        v.next_seq <= answered_all(v, commands, s).1.next_seq <= v.next_seq + unsettled(
            v,
            commands,
        ),
        v.dedupe.dom().subset_of(answered_all(v, commands, s).1.dedupe.dom()),
    decreases commands.len(),
{
    if commands.len() > 0 {
        answering_takes_few_positions(v, commands.drop_last(), s);
        let (results, w, t) = answered_all(v, commands.drop_last(), s);
        let last = commands.last();
        if is_settled(v, last) {
            assert(w.dedupe.dom().contains(last.id.raw));
            assert(answered(w, last, t).1 == w);
        }
    }
}

impl Server {
    fn remember(&mut self, id: CommandId, checksum: HexString, result: &CommandResult)
        requires
            old(self).wf(),
            result.id == id,
        ensures
            final(self).wf(),
            final(self)@ == recorded(old(self)@, id.raw, checksum@, result@),
    {
        let ghost v = self@;
        let ghost sum = checksum@;
        self.dedupe.insert(id, Recorded { checksum: checksum.text, result: result.clone() });
        proof {
            assert(self@ =~= recorded(v, id.raw, sum, result@));
        }
    }

    /// Answers one command: a replay with the recorded outcome, a known id under another body
    /// with a refusal that leaves the record as it is, and anything else by performing it and
    /// recording what it came to.
    pub fn apply_command(&mut self, command: &Command, rng: &mut Rng) -> (result: CommandResult)
        requires
            old(self).wf(),
            is_settled(old(self)@, *command) || old(self)@.next_seq < u64::MAX,
        ensures
            final(self).wf(),
            (result@, final(self)@, final(rng).state()) == answered(
                old(self)@,
                *command,
                old(rng).state(),
            ),
            is_settled(old(self)@, *command) ==> final(self)@ == old(self)@ && final(rng).state()
                == old(rng).state() && result@ == if old(self)@.dedupe[command.id.raw].checksum
                == body_checksum(*command)->0 {
                old(self)@.dedupe[command.id.raw].result
            } else {
                refused(command.id.raw, mutated_sentence())
            },
            final(rng).origin() == old(rng).origin(),
    {
        let ghost v = self@;
        let checksum: HexString = match command.payload.checksum() {
            Some(h) => h.clone(),
            None => hex_placeholder(),
        };
        let decided = decide(command, self.dedupe.get(&command.id));
        match decided {
            Ok(Decision::Replay(result)) => {
                return result;
            },
            Ok(Decision::Mutated { .. }) => {
                // Same id, different body. Refused as a distinct invalid request rather than
                // deduped as a success, and not recorded: the record of the command it
                // impersonates stays as it is.
                return CommandResult {
                    id: command.id,
                    status: Status::Rejected,
                    reason: Some(mutated_reason()),
                    server_seq: None,
                };
            },
            Ok(Decision::Fresh) => {},
            Err(_) => {},
        }
        let target: Option<(EntityName, ScopeId)> = match self.command_targets.get(&command.name) {
            Some(t) => Some((t.entity.clone(), t.scope.clone())),
            None => None,
        };
        let result: CommandResult = match target {
            None => CommandResult {
                id: command.id,
                status: Status::Rejected,
                reason: Some(Reason::new("Unknown command.")),
                server_seq: None,
            },
            Some((entity, scope)) => {
                // A host would validate business rules here. The three outcomes are weighted so
                // that applied is the common case and the other two still occur.
                let roll: u32 = rng.below(100);
                if roll < 80 {
                    let seq: SeqNo = self.append(&scope, entity, command);
                    CommandResult {
                        id: command.id,
                        status: Status::Applied,
                        reason: None,
                        server_seq: Some(seq),
                    }
                } else if roll < 90 {
                    CommandResult {
                        id: command.id,
                        status: Status::Superseded,
                        reason: None,
                        server_seq: None,
                    }
                } else {
                    CommandResult {
                        id: command.id,
                        status: Status::Rejected,
                        reason: Some(Reason::new("Submission deadline passed.")),
                        server_seq: None,
                    }
                }
            },
        };
        self.remember(command.id, checksum, &result);
        result
    }

    /// Writes the change of one command. The row is derived from the command's id, so that a
    /// device's commands land on a handful of rows and collide with each other.
    fn append(&mut self, scope: &ScopeId, entity: EntityName, command: &Command) -> (seq: SeqNo)
        requires
            old(self).wf(),
            old(self)@.next_seq < u64::MAX,
        ensures
            final(self).wf(),
            final(self)@ == appended(
                old(self)@,
                scope@,
                (entity@, row_name(((command.id.raw % 256) % 8) as nat)),
                Op::Upsert,
            ),
            seq.value == old(self)@.next_seq,
    {
        let entity_id: EntityId = row_id((command.id.last_byte() % 8) as u64);
        self.push_entry(scope, RowKey { entity, entity_id }, Op::Upsert)
    }

    /// Applies a push, deduping replays and recording the outcome of every command that is new.
    #[must_use]
    pub fn push(&mut self, request: &PushRequest, rng: &mut Rng) -> (response: PushResponse)
        requires
            old(self).wf(),
            old(self)@.next_seq + unsettled(old(self)@, request.commands@) <= u64::MAX,
        ensures
            final(self).wf(),
            response.protocol == request.protocol,
            (result_views(response.results@), final(self)@, final(rng).state()) == answered_all(
                old(self)@,
                request.commands@,
                old(rng).state(),
            ),
            final(rng).origin() == old(rng).origin(),
    {
        let n: usize = request.commands.len();
        assert(request.commands@.take(n as int) =~= request.commands@);
        self.push_prefix(request, n, rng)
    }

    /// Answers a push, processing only the first `accepted` commands. The others are not answered
    /// at all: not rejected, not deferred, simply absent from the results.
    pub fn push_prefix(&mut self, request: &PushRequest, accepted: usize, rng: &mut Rng) -> (response:
        PushResponse)
        requires
            old(self).wf(),
            old(self)@.next_seq + unsettled(old(self)@, request.commands@) <= u64::MAX,
        ensures
            final(self).wf(),
            response.protocol == request.protocol,
            (result_views(response.results@), final(self)@, final(rng).state()) == answered_all(
                old(self)@,
                request.commands@.take(
                    if accepted <= request.commands@.len() {
                        accepted as int
                    } else {
                        request.commands@.len() as int
                    },
                ),
                old(rng).state(),
            ),
            final(rng).origin() == old(rng).origin(),
    {
        let ghost v = self@;
        let ghost s = rng.state();
        let ghost commands = request.commands@;
        let count: usize = if accepted <= request.commands.len() {
            accepted
        } else {
            request.commands.len()
        };
        let mut results: Vec<CommandResult> = Vec::new();
        let mut i: usize = 0;
        assert(result_views(results@) =~= Seq::<ResultView>::empty());
        while i < count
            invariant
                i <= count <= commands.len(),
                commands == request.commands@,
                v.next_seq + unsettled(v, commands) <= u64::MAX,
                self.wf(),
                rng.origin() == old(rng).origin(),
                (result_views(results@), self@, rng.state()) == answered_all(
                    v,
                    commands.take(i as int),
                    s,
                ),
            decreases count - i,
        {
            let ghost done = commands.take(i as int);
            let ghost next = commands.take(i + 1);
            let ghost before = results@;
            proof {
                assert(next.drop_last() =~= done);
                assert(next.last() == commands[i as int]);
                unsettled_grows(v, commands, i as int);
                unsettled_grows(v, commands, i + 1);
                answering_takes_few_positions(v, done, s);
            }
            let result: CommandResult = self.apply_command(&request.commands[i], rng);
            let ghost one = result@;
            results.push(result);
            assert(result_views(results@) =~= result_views(before).push(one));
            i = i + 1;
        }
        PushResponse { protocol: request.protocol, results }
    }

    /// Writes a change nobody asked for, to one of eight rows: another device's work, or a
    /// teacher grading.
    pub fn external_change(&mut self, scope: &ScopeId, entity: &EntityName, rng: &mut Rng)
        requires
            old(self).wf(),
            old(self)@.next_seq < u64::MAX,
        ensures
            final(self).wf(),
            ({
                let (n, t) = below_of(old(rng).state(), 8);
                &&& final(self)@ == appended(
                    old(self)@,
                    scope@,
                    (entity@, row_name(n as nat)),
                    Op::Upsert,
                )
                &&& final(rng).state() == t
            }),
            final(rng).origin() == old(rng).origin(),
    {
        let entity_id: EntityId = row_id(rng.below(8) as u64);
        self.push_entry(scope, RowKey { entity: entity.clone(), entity_id }, Op::Upsert);
    }

    /// Writes a change nobody asked for to one row. The row is given, so nothing is drawn.
    pub fn external_change_to(
        &mut self,
        scope: &ScopeId,
        entity: &EntityName,
        entity_id: &str,
        _rng: &mut Rng,
    )
        requires
            old(self).wf(),
            old(self)@.next_seq < u64::MAX,
        ensures
            final(self).wf(),
            final(self)@ == appended(old(self)@, scope@, (entity@, entity_id@), Op::Upsert),
            *final(_rng) == *old(_rng),
    {
        let row = RowKey { entity: entity.clone(), entity_id: EntityId::new(entity_id) };
        self.push_entry(scope, row, Op::Upsert);
    }

    /// Removes a row nobody asked to be removed.
    pub fn external_delete(&mut self, scope: &ScopeId, entity: &EntityName, entity_id: &str)
        requires
            old(self).wf(),
            old(self)@.next_seq < u64::MAX,
        ensures
            final(self).wf(),
            final(self)@ == appended(old(self)@, scope@, (entity@, entity_id@), Op::Delete),
    {
        let row = RowKey { entity: entity.clone(), entity_id: EntityId::new(entity_id) };
        self.push_entry(scope, row, Op::Delete);
    }
}

fn row_id(n: u64) -> (id: EntityId)
    ensures
        id@ == row_name(n as nat),
{
    let mut text: String = "row:".to_owned();
    push_decimal(&mut text, n);
    EntityId { text }
}

} // verus!
