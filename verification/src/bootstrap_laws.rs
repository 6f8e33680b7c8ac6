//! What a device that bootstraps ends up with, however often it is interrupted and whatever is
//! written meanwhile.
use crate::codec::Codec;
use crate::protocol::{BatchView, ChangeView, Op, RowVersion};
use crate::pull::{cursor_after, is_cut};
use crate::pull_laws::{
    in_scope, is_last_change, is_visible_head, place_in_scope, place_of_scope_entry,
    the_visible_head_is_where_reading_stops,
};
use crate::server::{
    appended, bootstrap_changes, committed, compacted, history, is_current, last_at, log_ordered,
    positions, scope_log, scope_log_is_the_scope, served, version_at, visible_end, visible_run,
    EntryView, ServerView, Version,
};
use crate::server_laws::{entries_ascend, scope_log_unfolds};
use crate::transport::SimCompressor;
use crate::walk_laws::{applied_to, encodes_everything, run_of, version_in};
use vstd::prelude::*;

verus! {

/// The version that an entry of the log is.
spec fn version_of(e: EntryView) -> Version {
    Version {
        seq: e.change.seq,
        row_version: RowVersion { value: e.change.row_version },
        op: e.change.op,
    }
}

/// Entry `i` is the last change to its row at or below `head`.
spec fn is_last_upto(entries: Seq<EntryView>, head: u64, i: int) -> bool {
    &&& 0 <= i < entries.len()
    &&& entries[i].change.seq <= head
    &&& forall|j: int|
        i < j < entries.len() && (#[trigger] entries[j]).change.seq <= head
            ==> entries[j].change.row != entries[i].change.row
}

proof fn last_entry_is_last_version(
    log: Seq<EntryView>,
    scope: Seq<char>,
    head: u64,
    i: int,
)
    requires
        is_last_upto(scope_log(log, scope), head, i),
    ensures
        last_at(history(log, scope, scope_log(log, scope)[i].change.row), head) == Some(
            version_of(scope_log(log, scope)[i]),
        ),
    decreases log.len(),
{
    let entries = scope_log(log, scope);
    let row = entries[i].change.row;
    if log.len() == 0 {
        assert(entries.len() == 0);
    } else {
        let rest = log.drop_last();
        let e = log.last();
        scope_log_unfolds(log, scope);
        let before = scope_log(rest, scope);
        let h = history(rest, scope, row);
        if e.scope == scope && i == before.len() {
            assert(history(log, scope, row).last() == version_of(e));
        } else {
            assert(entries[i] == before[i]);
            assert(is_last_upto(before, head, i)) by {
                assert forall|j: int|
                    i < j < before.len() && (#[trigger] before[j]).change.seq
                        <= head implies before[j].change.row != before[i].change.row by {
                    assert(entries[j] == before[j]);
                }
            }
            last_entry_is_last_version(rest, scope, head, i);
            if e.scope == scope && e.change.row == row {
                assert(entries[before.len() as int] == e);
                assert(e.change.seq > head);
                assert(history(log, scope, row).drop_last() =~= h);
            }
        }
    }
}

proof fn last_version_has_entry(
    log: Seq<EntryView>,
    scope: Seq<char>,
    row: (Seq<char>, Seq<char>),
    head: u64,
) -> (i: int)
    requires
        last_at(history(log, scope, row), head) is Some,
    ensures
        is_last_upto(scope_log(log, scope), head, i),
        scope_log(log, scope)[i].change.row == row,
    decreases log.len(),
{
    if log.len() == 0 {
        assert(history(log, scope, row).len() == 0);
        0
    } else {
        let rest = log.drop_last();
        let e = log.last();
        scope_log_unfolds(log, scope);
        let before = scope_log(rest, scope);
        let entries = scope_log(log, scope);
        let h = history(rest, scope, row);
        if e.scope == scope && e.change.row == row && e.change.seq <= head {
            assert(entries[before.len() as int] == e);
            before.len() as int
        } else {
            if e.scope == scope && e.change.row == row {
                assert(history(log, scope, row).drop_last() =~= h);
            }
            let i = last_version_has_entry(rest, scope, row, head);
            assert(entries[i] == before[i]);
            assert(is_last_upto(entries, head, i)) by {
                assert forall|j: int|
                    i < j < entries.len() && (#[trigger] entries[j]).change.seq
                        <= head implies entries[j].change.row != entries[i].change.row by {
                    if j < before.len() {
                        assert(entries[j] == before[j]);
                    } else {
                        assert(entries[j] == e);
                    }
                }
            }
            i
        }
    }
}

proof fn compacted_holds(entries: Seq<EntryView>, head: u64, after: u64, n: nat, i: int)
    requires
        n <= entries.len(),
        0 <= i < n,
        is_current(entries, head, after, i),
    ensures
        compacted(entries, head, after, n).contains(entries[i].change),
    decreases n,
{
    let before = compacted(entries, head, after, (n - 1) as nat);
    let all = compacted(entries, head, after, n);
    if i == n - 1 {
        assert(all[before.len() as int] == entries[i].change);
    } else {
        compacted_holds(entries, head, after, (n - 1) as nat, i);
        let k = choose|k: int| 0 <= k < before.len() && before[k] == entries[i].change;
        assert(all[k] == entries[i].change);
    }
}

proof fn compacted_comes_from(entries: Seq<EntryView>, head: u64, after: u64, n: nat)
    requires
        n <= entries.len(),
    ensures
        forall|k: int|
            0 <= k < compacted(entries, head, after, n).len() ==> exists|i: int|
                0 <= i < n && #[trigger] is_current(entries, head, after, i) && entries[i].change
                    == (#[trigger] compacted(entries, head, after, n)[k]),
        forall|j: int, k: int|
            0 <= j < k < compacted(entries, head, after, n).len() ==> (#[trigger] compacted(
                entries,
                head,
                after,
                n,
            )[j]).row != (#[trigger] compacted(entries, head, after, n)[k]).row,
    decreases n,
{
    if n > 0 {
        let m = (n - 1) as nat;
        compacted_comes_from(entries, head, after, m);
        let before = compacted(entries, head, after, m);
        let all = compacted(entries, head, after, n);
        assert forall|k: int| 0 <= k < all.len() implies exists|i: int|
            0 <= i < n && #[trigger] is_current(entries, head, after, i) && entries[i].change == (
            #[trigger] all[k]) by {
            if k < before.len() {
                let i = choose|i: int|
                    0 <= i < m && #[trigger] is_current(entries, head, after, i)
                        && entries[i].change == before[k];
                assert(is_current(entries, head, after, i));
            } else {
                assert(is_current(entries, head, after, n - 1));
            }
        }
        assert forall|j: int, k: int| 0 <= j < k < all.len() implies (#[trigger] all[j]).row != (
        #[trigger] all[k]).row by {
            if k == before.len() {
                let i = choose|i: int|
                    0 <= i < m && #[trigger] is_current(entries, head, after, i)
                        && entries[i].change == before[j];
                assert(is_current(entries, head, after, n - 1));
                assert(entries[n - 1].change.row != entries[i].change.row);
            }
        }
    }
}

/// A bootstrap sends one change for each row, not one for each edit, and a fresh one sends no
/// removals.
pub proof fn a_bootstrap_sends_each_row_once(log: Seq<EntryView>, scope: Seq<char>, after: u64)
    ensures
        forall|j: int, k: int|
            0 <= j < k < bootstrap_changes(log, scope, after).len() ==> (
            #[trigger] bootstrap_changes(log, scope, after)[j]).row != (
            #[trigger] bootstrap_changes(log, scope, after)[k]).row,
        after == 0 ==> forall|k: int|
            0 <= k < bootstrap_changes(log, scope, after).len() ==> (#[trigger] bootstrap_changes(
                log,
                scope,
                after,
            )[k]).op == Op::Upsert,
{
    let entries = scope_log(log, scope);
    compacted_comes_from(entries, visible_end(entries), after, entries.len());
}

/// A fresh bootstrap is the state of the scope: it sends a row at a version exactly when a client
/// at the visible head should hold the row at that version.
pub proof fn a_fresh_bootstrap_is_the_state(
    log: Seq<EntryView>,
    scope: Seq<char>,
    next_seq: u64,
    row: (Seq<char>, Seq<char>),
    version: RowVersion,
)
    requires
        log_ordered(log, next_seq),
    ensures
        version_at(log, scope, row, visible_end(scope_log(log, scope))) == Some(version)
            <==> exists|k: int|
            0 <= k < bootstrap_changes(log, scope, 0).len() && (#[trigger] bootstrap_changes(
                log,
                scope,
                0,
            )[k]).row == row && bootstrap_changes(log, scope, 0)[k].row_version == version.value,
{
    let entries = scope_log(log, scope);
    let head = visible_end(entries);
    let cs = bootstrap_changes(log, scope, 0);
    scope_log_is_the_scope(log, scope, next_seq);
    compacted_comes_from(entries, head, 0, entries.len());
    if version_at(log, scope, row, head) == Some(version) {
        let i = last_version_has_entry(log, scope, row, head);
        last_entry_is_last_version(log, scope, head, i);
        assert(log.contains(entries[i]));
        assert(is_current(entries, head, 0, i));
        compacted_holds(entries, head, 0, entries.len(), i);
        let k = choose|k: int| 0 <= k < cs.len() && cs[k] == entries[i].change;
        assert(cs[k].row == row);
    }
    if exists|k: int|
        0 <= k < cs.len() && (#[trigger] cs[k]).row == row && cs[k].row_version == version.value {
        let k = choose|k: int|
            0 <= k < cs.len() && (#[trigger] cs[k]).row == row && cs[k].row_version
                == version.value;
        let i = choose|i: int|
            0 <= i < entries.len() && #[trigger] is_current(entries, head, 0, i)
                && entries[i].change == cs[k];
        assert(is_last_upto(entries, head, i));
        last_entry_is_last_version(log, scope, head, i);
    }
}

/// A bootstrap that resumes corrects what changed: for every row whose last visible change lies
/// past the resume point, that change is sent, a removal too.
pub proof fn a_resumed_bootstrap_corrects_what_changed(
    log: Seq<EntryView>,
    scope: Seq<char>,
    after: u64,
    row: (Seq<char>, Seq<char>),
)
    requires
        after > 0,
        last_at(history(log, scope, row), visible_end(scope_log(log, scope))) is Some,
        last_at(history(log, scope, row), visible_end(scope_log(log, scope)))->0.seq > after,
    ensures
        exists|k: int|
            {
                let last = last_at(history(log, scope, row), visible_end(scope_log(log, scope)))->0;
                &&& 0 <= k < bootstrap_changes(log, scope, after).len()
                &&& (#[trigger] bootstrap_changes(log, scope, after)[k]).row == row
                &&& bootstrap_changes(log, scope, after)[k].seq == last.seq
                &&& bootstrap_changes(log, scope, after)[k].op == last.op
            },
{
    let entries = scope_log(log, scope);
    let head = visible_end(entries);
    let cs = bootstrap_changes(log, scope, after);
    let i = last_version_has_entry(log, scope, row, head);
    last_entry_is_last_version(log, scope, head, i);
    assert(is_current(entries, head, after, i));
    compacted_holds(entries, head, after, entries.len(), i);
    let k = choose|k: int| 0 <= k < cs.len() && cs[k] == entries[i].change;
    assert(cs[k].row == row);
}

proof fn compacted_ascends(entries: Seq<EntryView>, head: u64, after: u64, n: nat)
    requires
        n <= entries.len(),
        entries_ascend(entries),
    ensures
        forall|j: int, k: int|
            0 <= j < k < compacted(entries, head, after, n).len() ==> (#[trigger] compacted(
                entries,
                head,
                after,
                n,
            )[j]).seq < (#[trigger] compacted(entries, head, after, n)[k]).seq,
    decreases n,
{
    if n > 0 {
        let m = (n - 1) as nat;
        compacted_ascends(entries, head, after, m);
        compacted_comes_from(entries, head, after, m);
        let before = compacted(entries, head, after, m);
        let all = compacted(entries, head, after, n);
        assert forall|j: int, k: int| 0 <= j < k < all.len() implies (#[trigger] all[j]).seq < (
        #[trigger] all[k]).seq by {
            if k == before.len() {
                let i = choose|i: int|
                    0 <= i < m && #[trigger] is_current(entries, head, after, i)
                        && entries[i].change == before[j];
                assert(entries[i].change.seq < entries[m as int].change.seq);
            } else {
                assert(all[j] == before[j] && all[k] == before[k]);
            }
        }
    }
}

/// The changes are to different rows.
spec fn rows_differ(changes: Seq<ChangeView>) -> bool {
    forall|j: int, k: int|
        0 <= j < k < changes.len() ==> (#[trigger] changes[j]).row != (#[trigger] changes[k]).row
}

/// What one change leaves of its row.
spec fn left_by(c: ChangeView) -> Option<RowVersion> {
    match c.op {
        Op::Upsert => Some(RowVersion { value: c.row_version }),
        Op::Delete => None,
    }
}

proof fn applying_rows_once(
    rows: Map<(Seq<char>, Seq<char>), u64>,
    changes: Seq<ChangeView>,
    row: (Seq<char>, Seq<char>),
)
    requires
        rows_differ(changes),
    ensures
        forall|k: int|
            0 <= k < changes.len() && (#[trigger] changes[k]).row == row ==> version_in(
                applied_to(rows, changes),
                row,
            ) == left_by(changes[k]),
        (forall|k: int| 0 <= k < changes.len() ==> (#[trigger] changes[k]).row != row)
            ==> version_in(applied_to(rows, changes), row) == version_in(rows, row),
    decreases changes.len(),
{
    if changes.len() > 0 {
        let rest = changes.drop_last();
        assert(rows_differ(rest)) by {
            assert forall|j: int, k: int| 0 <= j < k < rest.len() implies (
            #[trigger] rest[j]).row != (#[trigger] rest[k]).row by {
                assert(changes[j].row != changes[k].row);
            }
        }
        applying_rows_once(rows, rest, row);
        let last = changes.len() - 1;
        assert forall|k: int|
            0 <= k < changes.len() && (#[trigger] changes[k]).row == row implies version_in(
            applied_to(rows, changes),
            row,
        ) == left_by(changes[k]) by {
            if k < last {
                assert(rest[k] == changes[k]);
                assert(changes[last].row != row);
            }
        }
        if forall|k: int| 0 <= k < changes.len() ==> (#[trigger] changes[k]).row != row {
            assert forall|k: int| 0 <= k < rest.len() implies (#[trigger] rest[k]).row != row by {
                assert(changes[k].row != row);
            }
            assert(changes[last].row != row);
        }
    }
}

/// What a device has of a row is right as far as its cursor goes: a row that the server has never
/// had visible it does not hold, and a row whose last visible change is at or below the cursor it
/// holds as that change left it.
pub open spec fn row_keeps_up(
    rows: Map<(Seq<char>, Seq<char>), u64>,
    log: Seq<EntryView>,
    scope: Seq<char>,
    cursor: u64,
    row: (Seq<char>, Seq<char>),
) -> bool {
    let head = visible_end(scope_log(log, scope));
    match last_at(history(log, scope, row), head) {
        None => version_in(rows, row) is None,
        Some(v) => v.seq <= cursor ==> version_in(rows, row) == version_at(log, scope, row, head),
    }
}

/// What a device has is right as far as its cursor goes, and at the start it has nothing.
pub open spec fn keeps_up(
    rows: Map<(Seq<char>, Seq<char>), u64>,
    log: Seq<EntryView>,
    scope: Seq<char>,
    cursor: u64,
) -> bool {
    &&& cursor == 0 ==> forall|row: (Seq<char>, Seq<char>)| #[trigger]
        version_in(rows, row) is None
    &&& forall|row: (Seq<char>, Seq<char>)| #[trigger] row_keeps_up(rows, log, scope, cursor, row)
}

/// A device with nothing keeps up with anything, from the start.
pub proof fn nothing_keeps_up(log: Seq<EntryView>, scope: Seq<char>, next_seq: u64)
    requires
        log_ordered(log, next_seq),
    ensures
        keeps_up(Map::empty(), log, scope, 0),
{
    scope_log_is_the_scope(log, scope, next_seq);
    let rows = Map::<(Seq<char>, Seq<char>), u64>::empty();
    assert forall|row: (Seq<char>, Seq<char>)| #[trigger] row_keeps_up(
        rows,
        log,
        scope,
        0,
        row,
    ) by {
        let head = visible_end(scope_log(log, scope));
        if last_at(history(log, scope, row), head) is Some {
            let v = last_at(history(log, scope, row), head)->0;
            if v.seq <= 0 {
                let i = last_version_has_entry(log, scope, row, head);
                last_entry_is_last_version(log, scope, head, i);
                assert(log.contains(scope_log(log, scope)[i]));
            }
        }
    }
}

/// The first `m` of the changes that a bootstrap may send bring a device's row as far as the
/// cursor behind them goes.
proof fn a_page_brings_a_row(
    rows: Map<(Seq<char>, Seq<char>), u64>,
    log: Seq<EntryView>,
    scope: Seq<char>,
    cursor: u64,
    next_seq: u64,
    m: int,
    row: (Seq<char>, Seq<char>),
)
    requires
        log_ordered(log, next_seq),
        keeps_up(rows, log, scope, cursor),
        0 <= m <= bootstrap_changes(log, scope, cursor).len(),
    ensures
        ({
            let cs = bootstrap_changes(log, scope, cursor);
            let head = visible_end(scope_log(log, scope));
            &&& row_keeps_up(
                applied_to(rows, cs.take(m)),
                log,
                scope,
                cursor_after(cursor, cs, m),
                row,
            )
            &&& m == cs.len() ==> version_in(applied_to(rows, cs.take(m)), row) == version_at(
                log,
                scope,
                row,
                head,
            )
        }),
{
    let entries = scope_log(log, scope);
    let head = visible_end(entries);
    let cs = bootstrap_changes(log, scope, cursor);
    let page = cs.take(m);
    let stands = cursor_after(cursor, cs, m);
    let last = last_at(history(log, scope, row), head);
    scope_log_is_the_scope(log, scope, next_seq);
    compacted_comes_from(entries, head, cursor, entries.len());
    compacted_ascends(entries, head, cursor, entries.len());
    assert(rows_differ(page)) by {
        assert forall|j: int, k: int| 0 <= j < k < page.len() implies (#[trigger] page[j]).row != (
        #[trigger] page[k]).row by {
            assert(cs[j].row != cs[k].row);
        }
    }
    applying_rows_once(rows, page, row);
    assert(row_keeps_up(rows, log, scope, cursor, row));
    assert(cursor == 0 ==> version_in(rows, row) is None);
    // A change to the row that is sent is its last visible one.
    assert forall|k: int| 0 <= k < cs.len() && (#[trigger] cs[k]).row == row implies last is Some
        && last->0.seq == cs[k].seq && last->0.op == cs[k].op && last->0.row_version.value
        == cs[k].row_version && cs[k].seq > cursor && (cs[k].op == Op::Upsert || cursor > 0) by {
        let i = choose|i: int|
            0 <= i < entries.len() && #[trigger] is_current(entries, head, cursor, i)
                && entries[i].change == cs[k];
        assert(is_last_upto(entries, head, i));
        last_entry_is_last_version(log, scope, head, i);
    }
    if last is Some && last->0.seq > cursor && (last->0.op == Op::Upsert || cursor > 0) {
        let i = last_version_has_entry(log, scope, row, head);
        last_entry_is_last_version(log, scope, head, i);
        assert(is_current(entries, head, cursor, i));
        compacted_holds(entries, head, cursor, entries.len(), i);
        let k = choose|k: int| 0 <= k < cs.len() && cs[k] == entries[i].change;
        assert(cs[k].row == row);
        if k >= m && m > 0 {
            if k > m - 1 {
                assert(cs[m - 1].seq < cs[k].seq);
            }
        }
        if k < m {
            assert(page[k] == cs[k]);
            assert(version_in(applied_to(rows, page), row) == left_by(page[k]));
        }
    } else {
        assert forall|k: int| 0 <= k < page.len() implies (#[trigger] page[k]).row != row by {
            assert(page[k] == cs[k]);
        }
    }
}

/// A page of a bootstrap keeps a device up with the server: whatever was right before it, and
/// however much of it there was, what the device has is right as far as the new cursor goes. A
/// device that is interrupted resumes from there.
pub proof fn a_page_keeps_up<W: Codec>(
    rows: Map<(Seq<char>, Seq<char>), u64>,
    log: Seq<EntryView>,
    scope: Seq<char>,
    cursor: u64,
    next_seq: u64,
    budget: usize,
    digest: Seq<char>,
    codec: &W,
    b: BatchView,
)
    requires
        log_ordered(log, next_seq),
        keeps_up(rows, log, scope, cursor),
        served(
            scope,
            cursor,
            bootstrap_changes(log, scope, cursor),
            false,
            budget,
            digest,
            codec,
            b,
        ),
    ensures
        keeps_up(applied_to(rows, b.changes), log, scope, b.next_cursor),
        cursor <= visible_end(scope_log(log, scope)) ==> b.next_cursor <= visible_end(
            scope_log(log, scope),
        ),
        encodes_everything(codec) && !b.has_more ==> forall|row: (Seq<char>, Seq<char>)|
            version_in(applied_to(rows, b.changes), row) == #[trigger] version_at(
                log,
                scope,
                row,
                visible_end(scope_log(log, scope)),
            ),
{
    let cs = bootstrap_changes(log, scope, cursor);
    let m = page_length(scope, cursor, cs, budget, digest, codec, b);
    let after = applied_to(rows, cs.take(m));
    let head = visible_end(scope_log(log, scope));
    assert forall|row: (Seq<char>, Seq<char>)| #[trigger] row_keeps_up(
        after,
        log,
        scope,
        b.next_cursor,
        row,
    ) by {
        a_page_brings_a_row(rows, log, scope, cursor, next_seq, m, row);
    }
    if m == cs.len() {
        assert forall|row: (Seq<char>, Seq<char>)|
            version_in(after, row) == #[trigger] version_at(log, scope, row, head) by {
            a_page_brings_a_row(rows, log, scope, cursor, next_seq, m, row);
        }
    }
    if m > 0 {
        let entries = scope_log(log, scope);
        compacted_comes_from(entries, head, cursor, entries.len());
        let i = choose|i: int|
            0 <= i < entries.len() && #[trigger] is_current(entries, head, cursor, i)
                && entries[i].change == cs[m - 1];
        assert(cursor < cs[m - 1].seq <= head);
    }
}

proof fn page_length<W: Codec>(
    scope: Seq<char>,
    cursor: u64,
    cs: Seq<ChangeView>,
    budget: usize,
    digest: Seq<char>,
    codec: &W,
    b: BatchView,
) -> (m: int)
    requires
        served(scope, cursor, cs, false, budget, digest, codec, b),
    ensures
        0 <= m <= cs.len(),
        b.changes == cs.take(m),
        b.next_cursor == cursor_after(cursor, cs, m),
        encodes_everything(codec) && !b.has_more ==> m == cs.len(),
{
    if exists|c: SimCompressor, n: int|
        #[trigger] is_cut(&c, codec, cs, budget, n) && b.changes == cs.take(n) && b.next_cursor
            == cursor_after(cursor, cs, n) && b.has_more == (n < cs.len()) {
        let (c, n) = choose|c: SimCompressor, n: int|
            #[trigger] is_cut(&c, codec, cs, budget, n) && b.changes == cs.take(n) && b.next_cursor
                == cursor_after(cursor, cs, n) && b.has_more == (n < cs.len());
        n
    } else {
        assert(cs.take(0) =~= seq![]);
        0
    }
}

/// The second log is the first with more behind it: what there was is there, and what was visible
/// is visible.
pub open spec fn log_grew(a: Seq<EntryView>, b: Seq<EntryView>) -> bool {
    &&& a.len() <= b.len()
    &&& forall|i: int|
        0 <= i < a.len() ==> (#[trigger] b[i]).scope == a[i].scope && b[i].change == a[i].change
            && (a[i].visible ==> b[i].visible)
}

/// Writes and commits make the log grow.
pub proof fn writes_and_commits_grow(
    v: ServerView,
    scope: Seq<char>,
    row: (Seq<char>, Seq<char>),
    op: Op,
)
    ensures
        log_grew(v.log, appended(v, scope, row, op).log),
        log_grew(v.log, committed(v).log),
{
}

/// The entry is in the log, not before place `n`.
spec fn stands_from(log: Seq<EntryView>, n: int, e: EntryView) -> bool {
    exists|i: int| n <= i < log.len() && #[trigger] log[i] == e
}

proof fn scope_log_grew(a: Seq<EntryView>, b: Seq<EntryView>, scope: Seq<char>)
    requires
        log_grew(a, b),
    ensures
        log_grew(scope_log(a, scope), scope_log(b, scope)),
        forall|k: int|
            scope_log(a, scope).len() <= k < scope_log(b, scope).len() ==> stands_from(
                b,
                a.len() as int,
                #[trigger] scope_log(b, scope)[k],
            ),
    decreases b.len(),
{
    let x = scope_log(a, scope);
    let y = scope_log(b, scope);
    if b.len() == 0 {
        assert(positions(a, scope) =~= positions(b, scope));
    } else {
        let rest = b.drop_last();
        scope_log_unfolds(b, scope);
        let z = scope_log(rest, scope);
        if a.len() < b.len() {
            assert(log_grew(a, rest)) by {
                assert forall|i: int| 0 <= i < a.len() implies (#[trigger] rest[i]).scope
                    == a[i].scope && rest[i].change == a[i].change && (a[i].visible
                    ==> rest[i].visible) by {
                    assert(rest[i] == b[i]);
                }
            }
            scope_log_grew(a, rest, scope);
            assert forall|k: int| 0 <= k < x.len() implies (#[trigger] y[k]).scope == x[k].scope
                && y[k].change == x[k].change && (x[k].visible ==> y[k].visible) by {
                assert(y[k] == z[k]);
            }
            assert forall|k: int| x.len() <= k < y.len() implies stands_from(
                b,
                a.len() as int,
                #[trigger] y[k],
            ) by {
                if k < z.len() {
                    assert(y[k] == z[k]);
                    assert(stands_from(rest, a.len() as int, z[k]));
                    let i = choose|i: int|
                        a.len() <= i < rest.len() && #[trigger] rest[i] == z[k];
                    assert(b[i] == y[k]);
                } else {
                    assert(b[b.len() - 1] == y[k]);
                }
            }
        } else {
            let front = a.drop_last();
            scope_log_unfolds(a, scope);
            assert(log_grew(front, rest)) by {
                assert forall|i: int| 0 <= i < front.len() implies (#[trigger] rest[i]).scope
                    == front[i].scope && rest[i].change == front[i].change && (front[i].visible
                    ==> rest[i].visible) by {
                    assert(rest[i] == b[i] && front[i] == a[i]);
                }
            }
            scope_log_grew(front, rest, scope);
            let w = scope_log(front, scope);
            assert(b[b.len() - 1].scope == a[a.len() - 1].scope);
            assert(z.len() == w.len()) by {
                if w.len() < z.len() {
                    let k = w.len() as int;
                    assert(stands_from(rest, front.len() as int, z[k]));
                }
            }
            assert forall|k: int| 0 <= k < x.len() implies (#[trigger] y[k]).scope == x[k].scope
                && y[k].change == x[k].change && (x[k].visible ==> y[k].visible) by {
                if k < w.len() {
                    assert(y[k] == z[k] && x[k] == w[k]);
                }
            }
        }
    }
}

/// What is written while a device bootstraps is neither lost nor taken for done: a device that
/// kept up with a log keeps up with what the log grows into. What changed past its cursor is what
/// its next page or its next pull sends.
pub proof fn a_growing_log_is_kept_up_with(
    rows: Map<(Seq<char>, Seq<char>), u64>,
    a: Seq<EntryView>,
    b: Seq<EntryView>,
    scope: Seq<char>,
    cursor: u64,
    next_seq: u64,
)
    requires
        log_ordered(b, next_seq),
        log_grew(a, b),
        keeps_up(rows, a, scope, cursor),
        cursor <= visible_end(scope_log(a, scope)),
    ensures
        keeps_up(rows, b, scope, cursor),
        cursor <= visible_end(scope_log(b, scope)),
{
    let x = scope_log(a, scope);
    let y = scope_log(b, scope);
    let h = visible_end(x);
    let g = visible_end(y);
    scope_log_grew(a, b, scope);
    scope_log_is_the_scope(b, scope, next_seq);
    run_of(x);
    run_of(y);
    let m = visible_run(x) as int;
    let n = visible_run(y) as int;
    if n < m {
        assert(x[n].visible);
        assert(y[n].visible);
    }
    if m > 0 {
        assert(y[m - 1].change == x[m - 1].change);
        if m < n {
            assert(y[m - 1].change.seq < y[n - 1].change.seq);
        }
    }
    assert(h <= g);
    assert forall|row: (Seq<char>, Seq<char>)| #[trigger] row_keeps_up(
        rows,
        b,
        scope,
        cursor,
        row,
    ) by {
        assert(row_keeps_up(rows, a, scope, cursor, row));
        let old_last = last_at(history(a, scope, row), h);
        let new_last = last_at(history(b, scope, row), g);
        if old_last is Some {
            let i = last_version_has_entry(a, scope, row, h);
            assert(y[i].change == x[i].change);
            let j = last_of_row(y, g, i);
            last_entry_is_last_version(b, scope, g, j);
        }
        if new_last is Some && new_last->0.seq <= cursor {
            let j = last_version_has_entry(b, scope, row, g);
            last_entry_is_last_version(b, scope, g, j);
            // At or below the old head, so it was there already.
            if j >= x.len() {
                assert(y[m - 1].change.seq < y[j].change.seq);
            }
            assert(is_last_upto(x, h, j)) by {
                assert forall|k: int| j < k < x.len() && (#[trigger] x[k]).change.seq
                    <= h implies x[k].change.row != x[j].change.row by {
                    assert(y[k].change == x[k].change);
                    assert(y[j].change == x[j].change);
                }
            }
            last_entry_is_last_version(a, scope, h, j);
            assert(y[j].change == x[j].change);
        }
    }
}

/// The last change to a row of which there is one.
proof fn last_of_row(entries: Seq<EntryView>, head: u64, i: int) -> (j: int)
    requires
        0 <= i < entries.len(),
        entries[i].change.seq <= head,
    ensures
        is_last_upto(entries, head, j),
        entries[j].change.row == entries[i].change.row,
    decreases entries.len() - i,
{
    if exists|k: int|
        i < k < entries.len() && (#[trigger] entries[k]).change.seq <= head && entries[k].change.row
            == entries[i].change.row {
        let k = choose|k: int|
            i < k < entries.len() && (#[trigger] entries[k]).change.seq <= head
                && entries[k].change.row == entries[i].change.row;
        last_of_row(entries, head, k)
    } else {
        i
    }
}

/// What a bootstrap may send, said of the log: the last change of each row up to the visible head,
/// where that lies past the cursor; and of removals those only that a device which holds something
/// can need. Every such change is among what may be sent, nothing else is, all of it is visible, and
/// it comes in the order of the log.
pub proof fn a_bootstrap_is_the_last_changes(
    log: Seq<EntryView>,
    scope: Seq<char>,
    after: u64,
    next_seq: u64,
    head: u64,
)
    requires
        log_ordered(log, next_seq),
        is_visible_head(log, scope, head),
    ensures
        forall|k: int|
            0 <= k < bootstrap_changes(log, scope, after).len() ==> is_sent(
                log,
                scope,
                after,
                head,
                #[trigger] bootstrap_changes(log, scope, after)[k],
            ),
        forall|i: int, row: (Seq<char>, Seq<char>)| #[trigger]
            is_last_change(log, scope, row, head, i) && log[i].change.seq > after && (
            log[i].change.op == Op::Upsert || after > 0) ==> bootstrap_changes(
                log,
                scope,
                after,
            ).contains(log[i].change),
        forall|j: int, k: int|
            0 <= j < k < bootstrap_changes(log, scope, after).len() ==> (#[trigger]
            bootstrap_changes(log, scope, after)[j]).seq < (#[trigger] bootstrap_changes(
                log,
                scope,
                after,
            )[k]).seq,
{
    let entries = scope_log(log, scope);
    let cs = bootstrap_changes(log, scope, after);
    the_visible_head_is_where_reading_stops(log, scope, next_seq, head);
    scope_log_is_the_scope(log, scope, next_seq);
    compacted_comes_from(entries, head, after, entries.len());
    compacted_ascends(entries, head, after, entries.len());
    assert forall|k: int| 0 <= k < cs.len() implies is_sent(
        log,
        scope,
        after,
        head,
        #[trigger] cs[k],
    ) by {
        let a = choose|a: int|
            0 <= a < entries.len() && #[trigger] is_current(entries, head, after, a)
                && entries[a].change == cs[k];
        let i = place_of_scope_entry(log, scope, next_seq, a);
        assert forall|j: int|
            i < j < log.len() && (#[trigger] log[j]).scope == scope && log[j].change.row
                == cs[k].row implies log[j].change.seq > head by {
            let b = place_in_scope(log, scope, next_seq, j);
            assert(log[i].change.seq < log[j].change.seq);
            if b <= a {
                if b < a {
                    assert(entries[b].change.seq < entries[a].change.seq);
                }
            }
        }
        assert(is_last_change(log, scope, cs[k].row, head, i));
        assert(in_scope(log, scope, i));
    }
    assert forall|i: int, row: (Seq<char>, Seq<char>)| #[trigger]
        is_last_change(log, scope, row, head, i) && log[i].change.seq > after && (log[i].change.op
            == Op::Upsert || after > 0) implies cs.contains(log[i].change) by {
        assert(in_scope(log, scope, i));
        let a = place_in_scope(log, scope, next_seq, i);
        assert forall|b: int|
            a < b < entries.len() && (#[trigger] entries[b]).change.seq
                <= head implies entries[b].change.row != entries[a].change.row by {
            let j = place_of_scope_entry(log, scope, next_seq, b);
            assert(entries[a].change.seq < entries[b].change.seq);
            if j < i {
                assert(log[j].change.seq < log[i].change.seq);
            }
        }
        assert(is_current(entries, head, after, a));
        compacted_holds(entries, head, after, entries.len(), a);
    }
}

/// The change is a visible one that a bootstrap has to send: the last of its row up to the head,
/// past the cursor, and no removal where the device holds nothing.
pub open spec fn is_sent(
    log: Seq<EntryView>,
    scope: Seq<char>,
    after: u64,
    head: u64,
    c: ChangeView,
) -> bool {
    exists|i: int|
        {
            &&& #[trigger] is_last_change(log, scope, c.row, head, i)
            &&& log[i].change == c
            &&& log[i].visible
            &&& c.seq > after
            &&& c.op == Op::Upsert || after > 0
        }
}

} // verus!
