//! What a batch, a pull and a digest come to, said of the log itself.
use crate::codec::{checksum_of, digest_of, encoding, Codec, RowStateView};
use crate::db::{page, page_size, Page};
use crate::error::ServerError;
use crate::ordered::Key;
use crate::protocol::{
    BatchView, Change, ChangeView, Command, Op, PullRequest, PullResponse, RowKey, RowVersion,
    Status,
};
use crate::pull::{batch_bytes, filled, is_cut, listed, ChangeRow, Compressor};
use crate::server::{
    answered, history, is_rows_at, last_at, log_ordered, past, pull_answer, readable,
    rows_are_determined, rows_of, scope_log, scope_log_is_the_scope, served, server_digest,
    server_sound, version_at, visible_end, visible_run, EntryView, Server, ServerView, Version,
};
use crate::server_laws::{
    an_applied_command_is_in_the_log, answers_keep_the_server_sound, guarded_reading, past_is_past,
};
use crate::transport::SimCompressor;
use crate::walk_laws::{encodes_everything, run_of};
use vstd::prelude::*;

verus! {

/// What a filled batch is. It holds the first of the changes there were, of the scope that was
/// asked for; its cursor is the position of the last of them, or the old one where it is empty; it
/// says that there is more exactly when a change was left behind or more was not read; and the
/// checksum is over the changes it holds. More than one change go only within the budget, a change
/// is left behind only where it would not have fitted, and as long as there is one, one goes.
pub proof fn a_batch_is_the_beginning<C: Compressor, W: Codec>(
    scope: Seq<char>,
    cursor: u64,
    cs: Seq<ChangeView>,
    more_beyond: bool,
    budget: usize,
    compressor: &C,
    digest: Seq<char>,
    codec: &W,
    b: BatchView,
)
    requires
        filled(scope, cursor, cs, more_beyond, budget, compressor, digest, codec, Ok(b)),
    ensures
        b.scope == scope,
        b.digest == digest,
        b.changes.len() <= cs.len(),
        forall|i: int| 0 <= i < b.changes.len() ==> #[trigger] b.changes[i] == cs[i],
        b.next_cursor == if b.changes.len() == 0 {
            cursor
        } else {
            b.changes.last().seq
        },
        b.has_more <==> b.changes.len() < cs.len() || more_beyond,
        checksum_of(codec, b.changes) == Some(b.checksum),
        cs.len() > 0 ==> b.changes.len() > 0,
        b.changes.len() > 1 ==> compressor.measure(batch_bytes(codec, b.changes)) <= budget,
        b.changes.len() < cs.len() ==> compressor.measure(
            batch_bytes(codec, cs.take(b.changes.len() as int + 1)),
        ) > budget,
{
    let n = choose|n: int|
        #[trigger] is_cut(compressor, codec, cs, budget, n) && b.changes == cs.take(n)
            && checksum_of(codec, cs.take(n)) == Some(b.checksum);
    assert(b.changes.len() == n);
    if n > 1 {
        assert(crate::pull::fits(compressor, codec, cs, budget, n));
    }
}

/// A batch is refused only where something cannot be encoded.
pub proof fn a_batch_is_filled_if_it_can_be<C: Compressor, W: Codec>(
    scope: Seq<char>,
    cursor: u64,
    cs: Seq<ChangeView>,
    more_beyond: bool,
    budget: usize,
    compressor: &C,
    digest: Seq<char>,
    codec: &W,
    r: Result<BatchView, crate::error::ServerErrorView>,
)
    requires
        filled(scope, cursor, cs, more_beyond, budget, compressor, digest, codec, r),
    ensures
        r is Err ==> (exists|i: int|
            0 <= i < cs.len() && encoding(codec, #[trigger] cs[i]) is None) || exists|i: int|
            0 <= i <= cs.len() && checksum_of(codec, #[trigger] cs.take(i)) is None,
        r matches Err(e) ==> e is Corrupt,
{
    if r is Err {
        if exists|n: int| #[trigger] crate::pull::is_stuck(compressor, codec, cs, budget, n) {
            let n = choose|n: int| #[trigger]
                crate::pull::is_stuck(compressor, codec, cs, budget, n);
            assert(encoding(codec, cs[n]) is None);
        } else {
            let n = choose|n: int| #[trigger]
                is_cut(compressor, codec, cs, budget, n) && checksum_of(codec, cs.take(n)) is None;
            assert(checksum_of(codec, cs.take(n)) is None);
        }
    }
}

/// What is measured of a batch is the encoding of all of its changes: each in its place, with a
/// comma between any two and brackets around the whole.
pub proof fn a_batch_is_measured_whole<W: Codec>(
    codec: &W,
    a: Seq<ChangeView>,
    c: ChangeView,
    b: Seq<ChangeView>,
)
    ensures
        batch_bytes(codec, Seq::empty()) == seq![91u8, 93u8],
        batch_bytes(codec, seq![c]) == seq![91u8] + encoding(codec, c)->0 + seq![93u8],
        a.len() > 0 && b.len() > 0 ==> {
            let x = batch_bytes(codec, a);
            let y = batch_bytes(codec, b);
            batch_bytes(codec, a + b) == x.drop_last() + seq![44u8] + y.drop_first()
        },
{
    assert(batch_bytes(codec, Seq::empty()) =~= seq![91u8, 93u8]);
    assert(seq![c].last() == c);
    if a.len() > 0 && b.len() > 0 {
        lists_join(codec, a, b);
        let x = batch_bytes(codec, a);
        let y = batch_bytes(codec, b);
        assert(batch_bytes(codec, a + b) =~= x.drop_last() + seq![44u8] + y.drop_first());
    }
}

proof fn lists_join<W: Codec>(codec: &W, a: Seq<ChangeView>, b: Seq<ChangeView>)
    requires
        a.len() > 0,
        b.len() > 0,
    ensures
        listed(codec, a + b) == listed(codec, a) + seq![44u8] + listed(codec, b),
    decreases b.len(),
{
    let all = a + b;
    assert(all.last() == b.last());
    assert(all.drop_last() =~= a + b.drop_last());
    if b.len() == 1 {
        assert(all.drop_last() =~= a);
    } else {
        lists_join(codec, a, b.drop_last());
    }
    assert(listed(codec, all) =~= listed(codec, a) + seq![44u8] + listed(codec, b));
}

/// Entry `i` is the last change of a row of a scope at or below a cursor.
pub open spec fn is_last_change(
    log: Seq<EntryView>,
    scope: Seq<char>,
    row: (Seq<char>, Seq<char>),
    cursor: u64,
    i: int,
) -> bool {
    &&& 0 <= i < log.len()
    &&& log[i].scope == scope && log[i].change.row == row && log[i].change.seq <= cursor
    &&& forall|j: int|
        i < j < log.len() && (#[trigger] log[j]).scope == scope && log[j].change.row == row
            ==> log[j].change.seq > cursor
}

proof fn last_version_is_last_change(
    log: Seq<EntryView>,
    scope: Seq<char>,
    row: (Seq<char>, Seq<char>),
    cursor: u64,
)
    ensures
        forall|i: int| #[trigger]
            is_last_change(log, scope, row, cursor, i) ==> last_at(
                history(log, scope, row),
                cursor,
            ) == Some(
                Version {
                    seq: log[i].change.seq,
                    row_version: RowVersion { value: log[i].change.row_version },
                    op: log[i].change.op,
                },
            ),
        last_at(history(log, scope, row), cursor) is Some ==> exists|i: int| #[trigger]
            is_last_change(log, scope, row, cursor, i),
    decreases log.len(),
{
    if log.len() > 0 {
        let rest = log.drop_last();
        let last = log.len() - 1;
        last_version_is_last_change(rest, scope, row, cursor);
        let e = log.last();
        let here = e.scope == scope && e.change.row == row;
        let h = history(log, scope, row);
        if here {
            assert(h.drop_last() =~= history(rest, scope, row));
        }
        assert forall|i: int| #[trigger] is_last_change(log, scope, row, cursor, i) implies last_at(
            h,
            cursor,
        ) == Some(
            Version {
                seq: log[i].change.seq,
                row_version: RowVersion { value: log[i].change.row_version },
                op: log[i].change.op,
            },
        ) by {
            if i < last {
                assert(log[last] == e);
                assert forall|j: int|
                    i < j < rest.len() && (#[trigger] rest[j]).scope == scope
                        && rest[j].change.row == row implies rest[j].change.seq > cursor by {
                    assert(rest[j] == log[j]);
                }
                assert(is_last_change(rest, scope, row, cursor, i));
            }
        }
        if last_at(h, cursor) is Some {
            if here && e.change.seq <= cursor {
                assert(is_last_change(log, scope, row, cursor, last));
            } else {
                let i = choose|i: int| #[trigger] is_last_change(rest, scope, row, cursor, i);
                assert(log[i] == rest[i]);
                assert forall|j: int|
                    i < j < log.len() && (#[trigger] log[j]).scope == scope && log[j].change.row
                        == row implies log[j].change.seq > cursor by {
                    if j < last {
                        assert(rest[j] == log[j]);
                    }
                }
                assert(is_last_change(log, scope, row, cursor, i));
            }
        }
    }
}

/// A row is as its last change left it: a client at a cursor should hold a row at a version exactly
/// when the last change of that row at or below the cursor wrote it at that version; it should not
/// hold one whose last change removed it, nor one that has no change there.
pub proof fn a_row_is_as_its_last_change_left_it(
    log: Seq<EntryView>,
    scope: Seq<char>,
    row: (Seq<char>, Seq<char>),
    cursor: u64,
)
    ensures
        forall|i: int| #[trigger]
            is_last_change(log, scope, row, cursor, i) ==> version_at(log, scope, row, cursor) == (
            if log[i].change.op == Op::Upsert {
                Some(RowVersion { value: log[i].change.row_version })
            } else {
                None
            }),
        version_at(log, scope, row, cursor) matches Some(v) ==> exists|i: int| #[trigger]
            is_last_change(log, scope, row, cursor, i) && log[i].change.op == Op::Upsert
                && log[i].change.row_version == v.value,
{
    last_version_is_last_change(log, scope, row, cursor);
}

/// Entry `i` of the log is one of the scope.
pub open spec fn in_scope(log: Seq<EntryView>, scope: Seq<char>, i: int) -> bool {
    0 <= i < log.len() && log[i].scope == scope
}

/// Entry `i` is the first of the scope past a position.
pub open spec fn is_first_past(log: Seq<EntryView>, scope: Seq<char>, head: u64, i: int) -> bool {
    &&& in_scope(log, scope, i)
    &&& log[i].change.seq > head
    &&& forall|j: int| #[trigger] in_scope(log, scope, j) && log[j].change.seq > head ==> i <= j
}

/// A position up to which a reader sees a scope: every entry of the scope up to it is visible, it is
/// the position of one of them or the start, and if there are entries past it, the first of them is
/// not visible.
pub open spec fn is_visible_head(log: Seq<EntryView>, scope: Seq<char>, head: u64) -> bool {
    &&& forall|i: int| #[trigger]
        in_scope(log, scope, i) && log[i].change.seq <= head ==> log[i].visible
    &&& head == 0 || exists|i: int| #[trigger]
        in_scope(log, scope, i) && log[i].change.seq == head
    &&& forall|i: int| #[trigger] is_first_past(log, scope, head, i) ==> !log[i].visible
}

/// An entry of a scope stands among the scope's entries.
pub proof fn place_in_scope(log: Seq<EntryView>, scope: Seq<char>, next_seq: u64, i: int) -> (k: int)
    requires
        log_ordered(log, next_seq),
        in_scope(log, scope, i),
    ensures
        0 <= k < scope_log(log, scope).len(),
        scope_log(log, scope)[k] == log[i],
{
    scope_log_is_the_scope(log, scope, next_seq);
    assert(log.contains(log[i]));
    assert(scope_log(log, scope).contains(log[i]));
    choose|k: int| 0 <= k < scope_log(log, scope).len() && scope_log(log, scope)[k] == log[i]
}

/// What stands among a scope's entries is an entry of the scope.
pub proof fn place_of_scope_entry(
    log: Seq<EntryView>,
    scope: Seq<char>,
    next_seq: u64,
    k: int,
) -> (i: int)
    requires
        log_ordered(log, next_seq),
        0 <= k < scope_log(log, scope).len(),
    ensures
        in_scope(log, scope, i),
        scope_log(log, scope)[k] == log[i],
{
    scope_log_is_the_scope(log, scope, next_seq);
    assert(log.contains(scope_log(log, scope)[k]));
    choose|i: int| 0 <= i < log.len() && log[i] == scope_log(log, scope)[k]
}

proof fn first_past_exists(log: Seq<EntryView>, scope: Seq<char>, head: u64, i: int) -> (f: int)
    requires
        in_scope(log, scope, i),
        log[i].change.seq > head,
    ensures
        is_first_past(log, scope, head, f),
        f <= i,
    decreases i,
{
    if exists|j: int| #[trigger] in_scope(log, scope, j) && log[j].change.seq > head && j < i {
        let j = choose|j: int| #[trigger]
            in_scope(log, scope, j) && log[j].change.seq > head && j < i;
        first_past_exists(log, scope, head, j)
    } else {
        i
    }
}

proof fn the_end_is_a_visible_head(log: Seq<EntryView>, scope: Seq<char>, next_seq: u64)
    requires
        log_ordered(log, next_seq),
    ensures
        is_visible_head(log, scope, visible_end(scope_log(log, scope))),
{
    let entries = scope_log(log, scope);
    let head = visible_end(entries);
    scope_log_is_the_scope(log, scope, next_seq);
    run_of(entries);
    let n = visible_run(entries) as int;
    if n > 0 {
        let i = place_of_scope_entry(log, scope, next_seq, n - 1);
        assert(in_scope(log, scope, i) && log[i].change.seq == head);
    }
    assert forall|i: int| #[trigger]
        in_scope(log, scope, i) && log[i].change.seq <= head implies log[i].visible by {
        let k = place_in_scope(log, scope, next_seq, i);
        if k >= n && n > 0 {
            assert(entries[n - 1].change.seq < entries[k].change.seq);
        }
        assert(entries[k].change.seq >= 1);
    }
    assert forall|i: int| #[trigger] is_first_past(log, scope, head, i) implies !log[i].visible by {
        let k = place_in_scope(log, scope, next_seq, i);
        if k < n - 1 {
            assert(entries[k].change.seq < entries[n - 1].change.seq);
        }
        assert(k >= n);
        assert(!entries[n].visible);
        if k > n {
            let j = place_of_scope_entry(log, scope, next_seq, n);
            assert(entries[n].change.seq < entries[k].change.seq);
            if n > 0 {
                assert(entries[n - 1].change.seq < entries[n].change.seq);
            }
            assert(entries[n].change.seq >= 1);
            assert(in_scope(log, scope, j) && log[j].change.seq > head);
            if i < j {
                assert(log[i].change.seq < log[j].change.seq);
            }
        }
    }
}

/// The visible head of a scope is such a position, and there is only one.
pub proof fn the_visible_head_is_where_reading_stops(
    log: Seq<EntryView>,
    scope: Seq<char>,
    next_seq: u64,
    other: u64,
)
    requires
        log_ordered(log, next_seq),
    ensures
        is_visible_head(log, scope, visible_end(scope_log(log, scope))),
        is_visible_head(log, scope, other) ==> other == visible_end(scope_log(log, scope)),
{
    let head = visible_end(scope_log(log, scope));
    the_end_is_a_visible_head(log, scope, next_seq);
    if is_visible_head(log, scope, other) && other < head {
        visible_heads_agree(log, scope, next_seq, other, head);
    }
    if is_visible_head(log, scope, other) && head < other {
        visible_heads_agree(log, scope, next_seq, head, other);
    }
}

proof fn visible_heads_agree(
    log: Seq<EntryView>,
    scope: Seq<char>,
    next_seq: u64,
    lower: u64,
    upper: u64,
)
    requires
        log_ordered(log, next_seq),
        is_visible_head(log, scope, lower),
        is_visible_head(log, scope, upper),
    ensures
        !(lower < upper),
{
    if lower < upper {
        let i = choose|i: int| #[trigger] in_scope(log, scope, i) && log[i].change.seq == upper;
        let f = first_past_exists(log, scope, lower, i);
        if f < i {
            assert(log[f].change.seq < log[i].change.seq);
        }
        assert(log[f].visible);
    }
}

/// The last change of the row up to the cursor wrote it at this version.
pub open spec fn stands_written(
    log: Seq<EntryView>,
    scope: Seq<char>,
    cursor: u64,
    r: RowStateView,
) -> bool {
    exists|i: int| #[trigger]
        is_last_change(log, scope, r.row, cursor, i) && log[i].change.op == Op::Upsert
            && log[i].change.row_version == r.row_version
}

/// The rows are those that a client at `cursor` should hold: in the order of their keys, each at the
/// version that its last change up to the cursor wrote, and none left out.
pub open spec fn are_the_rows(
    log: Seq<EntryView>,
    scope: Seq<char>,
    cursor: u64,
    rows: Seq<RowStateView>,
) -> bool {
    &&& forall|j: int, k: int|
        0 <= j < k < rows.len() ==> RowKey::below((#[trigger] rows[j]).row, (#[trigger] rows[k]).row)
    &&& forall|k: int| 0 <= k < rows.len() ==> stands_written(log, scope, cursor, #[trigger] rows[k])
    &&& forall|r: RowStateView| #[trigger] stands_written(log, scope, cursor, r) ==> rows.contains(r)
}

proof fn written_is_at(log: Seq<EntryView>, scope: Seq<char>, cursor: u64, r: RowStateView)
    ensures
        stands_written(log, scope, cursor, r) <==> version_at(log, scope, r.row, cursor) == Some(
            RowVersion { value: r.row_version },
        ),
{
    a_row_is_as_its_last_change_left_it(log, scope, r.row, cursor);
}

/// The server's digest of a scope is over exactly the rows that a client at the visible head should
/// hold.
pub proof fn the_digest_is_over_what_readers_see<W: Codec>(
    log: Seq<EntryView>,
    scope: Seq<char>,
    next_seq: u64,
    codec: &W,
    head: u64,
    rows: Seq<RowStateView>,
)
    requires
        log_ordered(log, next_seq),
        is_visible_head(log, scope, head),
        are_the_rows(log, scope, head, rows),
    ensures
        server_digest(log, scope, codec) == digest_of(codec, rows),
        rows_of(log, scope, head) == rows,
{
    the_visible_head_is_where_reading_stops(log, scope, next_seq, head);
    the_rows_are_listed(log, scope, head, rows);
}

/// What is listed as the rows at a cursor is exactly the rows there.
pub proof fn the_rows_are_listed(
    log: Seq<EntryView>,
    scope: Seq<char>,
    cursor: u64,
    rows: Seq<RowStateView>,
)
    ensures
        is_rows_at(log, scope, cursor, rows) <==> are_the_rows(log, scope, cursor, rows),
        are_the_rows(log, scope, cursor, rows) ==> rows_of(log, scope, cursor) == rows,
{
    if are_the_rows(log, scope, cursor, rows) {
        assert forall|k: int| 0 <= k < rows.len() implies version_at(
            log,
            scope,
            (#[trigger] rows[k]).row,
            cursor,
        ) == Some(RowVersion { value: rows[k].row_version }) by {
            written_is_at(log, scope, cursor, rows[k]);
        }
        assert forall|row: (Seq<char>, Seq<char>)| #[trigger]
            version_at(log, scope, row, cursor) is Some implies exists|k: int|
            0 <= k < rows.len() && (#[trigger] rows[k]).row == row by {
            let r = RowStateView {
                row,
                row_version: version_at(log, scope, row, cursor)->0.value,
            };
            written_is_at(log, scope, cursor, r);
            assert(rows.contains(r));
            let k = choose|k: int| 0 <= k < rows.len() && rows[k] == r;
            assert(rows[k].row == row);
        }
        assert(is_rows_at(log, scope, cursor, rows));
        rows_are_determined(log, scope, cursor, rows, rows_of(log, scope, cursor));
    }
    if is_rows_at(log, scope, cursor, rows) {
        assert forall|k: int| 0 <= k < rows.len() implies stands_written(
            log,
            scope,
            cursor,
            #[trigger] rows[k],
        ) by {
            written_is_at(log, scope, cursor, rows[k]);
        }
        assert forall|r: RowStateView| #[trigger]
            stands_written(log, scope, cursor, r) implies rows.contains(r) by {
            written_is_at(log, scope, cursor, r);
            let k = choose|k: int| 0 <= k < rows.len() && (#[trigger] rows[k]).row == r.row;
            assert(rows[k].row_version == r.row_version);
            assert(rows[k] == r);
        }
    }
}

/// A scope is answered with the beginning of what may be sent of it: the batch is of that scope and
/// carries its digest, its cursor is the position of its last change or the old one where it is
/// empty, and where everything can be encoded it is empty only if there is nothing to send, says
/// that there is more exactly when something was left behind or more was not read, and carries the
/// checksum of what it holds.
pub proof fn a_served_batch_is_the_beginning<W: Codec>(
    scope: Seq<char>,
    after: u64,
    cs: Seq<ChangeView>,
    more: bool,
    budget: usize,
    digest: Seq<char>,
    codec: &W,
    b: BatchView,
)
    requires
        served(scope, after, cs, more, budget, digest, codec, b),
    ensures
        b.scope == scope,
        b.digest == digest,
        b.changes.len() <= cs.len(),
        forall|i: int| 0 <= i < b.changes.len() ==> #[trigger] b.changes[i] == cs[i],
        b.next_cursor == if b.changes.len() == 0 {
            after
        } else {
            b.changes.last().seq
        },
        encodes_everything(codec) ==> {
            &&& cs.len() > 0 ==> b.changes.len() > 0
            &&& b.has_more <==> b.changes.len() < cs.len() || more
            &&& checksum_of(codec, b.changes) == Some(b.checksum)
        },
{
    let (c, r) = choose|c: SimCompressor, r: Result<BatchView, crate::error::ServerErrorView>|
        {
            &&& c.ratio() == 3
            &&& #[trigger] filled(scope, after, cs, more, budget, &c, digest, codec, r)
            &&& b == match r {
                Ok(x) => x,
                Err(_) => BatchView {
                    scope,
                    changes: seq![],
                    next_cursor: after,
                    has_more: more,
                    checksum: crate::server::no_checksum(),
                    digest,
                },
            }
        };
    match r {
        Ok(x) => a_batch_is_the_beginning(scope, after, cs, more, budget, &c, digest, codec, x),
        Err(e) => a_batch_is_filled_if_it_can_be(
            scope,
            after,
            cs,
            more,
            budget,
            &c,
            digest,
            codec,
            r,
        ),
    }
}

proof fn an_answer_is_the_beginning<W: Codec>(
    v: ServerView,
    scope: Seq<char>,
    after: u64,
    row_limit: nat,
    budget: usize,
    codec: &W,
    b: BatchView,
)
    requires
        pull_answer(v, scope, after, row_limit, budget, codec, b),
    ensures
        ({
            let ahead = past(v.log, scope, after);
            let cs = readable(ahead, v.guard, row_limit);
            &&& b.scope == scope
            &&& b.digest == server_digest(v.log, scope, codec)
            &&& b.changes.len() <= cs.len()
            &&& forall|i: int| 0 <= i < b.changes.len() ==> #[trigger] b.changes[i] == cs[i]
            &&& b.next_cursor == if b.changes.len() == 0 {
                after
            } else {
                b.changes.last().seq
            }
            &&& encodes_everything(codec) ==> {
                &&& cs.len() > 0 ==> b.changes.len() > 0
                &&& b.has_more <==> b.changes.len() < cs.len() || ahead.len() > cs.len()
                &&& checksum_of(codec, b.changes) == Some(b.checksum)
            }
        }),
{
    let ahead = past(v.log, scope, after);
    let cs = readable(ahead, v.guard, row_limit);
    let more = ahead.len() > cs.len();
    let digest = server_digest(v.log, scope, codec);
    a_served_batch_is_the_beginning(scope, after, cs, more, budget, digest, codec, b);
}

/// A write that was acknowledged to its author is delivered to everybody else: where it was not
/// held open, a device that stands right before it is handed it with its next pull, first of all.
pub proof fn an_acknowledged_write_is_pulled<W: Codec>(
    v: ServerView,
    command: Command,
    s: u64,
    row_limit: nat,
    budget: usize,
    codec: &W,
    b: BatchView,
)
    requires
        server_sound(v),
        v.guard,
        v.hold_next == 0,
        v.next_seq < u64::MAX,
        encodes_everything(codec),
        row_limit > 0,
        !v.dedupe.dom().contains(command.id.raw),
        answered(v, command, s).0.status == Status::Applied,
        pull_answer(
            answered(v, command, s).1,
            v.targets[command.name@].1,
            (v.next_seq - 1) as u64,
            row_limit,
            budget,
            codec,
            b,
        ),
    ensures
        b.changes.len() == 1,
        Some(b.changes[0].seq) == (match answered(v, command, s).0.server_seq {
            Some(q) => Some(q.value),
            None => None,
        }),
        b.changes[0].row.0 == v.targets[command.name@].0,
        b.changes[0].op == Op::Upsert,
        b.next_cursor == b.changes[0].seq,
        !b.has_more,
{
    let (result, w, t) = answered(v, command, s);
    let scope = v.targets[command.name@].1;
    let before = (v.next_seq - 1) as u64;
    let at = v.log.len() as int;
    an_applied_command_is_in_the_log(v, command, s);
    answers_keep_the_server_sound(v, command, s);
    a_pull_delivers_the_log(w, scope, before, row_limit, budget, codec, b);
    assert(w.log[at] == w.log.last());
    assert forall|k: int| #[trigger] in_scope(w.log, scope, k) && w.log[k].change.seq > before
        implies k == at by {
        if k < at {
            assert(w.log.drop_last()[k] == w.log[k]);
            assert(v.log[k].change.seq < v.next_seq);
        }
    }
    assert(in_scope(w.log, scope, at));
    assert(is_first_past(w.log, scope, before, at));
    assert forall|i: int| 0 <= i < b.changes.len() implies #[trigger] b.changes[i]
        == w.log[at].change by {
        assert(is_committed_past(w.log, scope, before, b.changes[i]));
    }
    if b.changes.len() > 1 {
        assert(b.changes[0].seq < b.changes[1].seq);
    }
}

proof fn place_past(
    log: Seq<EntryView>,
    scope: Seq<char>,
    after: u64,
    next_seq: u64,
    k: int,
) -> (a: int)
    requires
        log_ordered(log, next_seq),
        in_scope(log, scope, k),
        log[k].change.seq > after,
    ensures
        0 <= a < past(log, scope, after).len(),
        past(log, scope, after)[a] == log[k],
{
    past_is_past(log, scope, after, next_seq);
    assert(log.contains(log[k]));
    assert(past(log, scope, after).contains(log[k]));
    choose|a: int| 0 <= a < past(log, scope, after).len() && past(log, scope, after)[a] == log[k]
}

proof fn place_of_past(
    log: Seq<EntryView>,
    scope: Seq<char>,
    after: u64,
    next_seq: u64,
    a: int,
) -> (k: int)
    requires
        log_ordered(log, next_seq),
        0 <= a < past(log, scope, after).len(),
    ensures
        in_scope(log, scope, k),
        past(log, scope, after)[a] == log[k],
        log[k].change.seq > after,
{
    past_is_past(log, scope, after, next_seq);
    crate::server_laws::past_is_in_the_log(log, scope, after, next_seq);
    assert(log.contains(past(log, scope, after)[a]));
    choose|k: int| 0 <= k < log.len() && log[k] == past(log, scope, after)[a]
}

/// The change stands in the log as a visible entry of the scope past the cursor.
pub open spec fn is_committed_past(
    log: Seq<EntryView>,
    scope: Seq<char>,
    after: u64,
    c: ChangeView,
) -> bool {
    exists|k: int| #[trigger]
        in_scope(log, scope, k) && log[k].visible && log[k].change == c && log[k].change.seq > after
}

/// What a pull delivers, said of the log. Every change it brings is a visible entry of the scope
/// past the cursor, and they come in the order of their positions. Nothing is skipped: every entry
/// of the scope between the old cursor and the new one is visible and among them. It says that
/// there is more exactly when the scope has an entry past the new cursor. And something comes
/// whenever the next entry of the scope is visible.
pub proof fn a_pull_delivers_the_log<W: Codec>(
    v: ServerView,
    scope: Seq<char>,
    after: u64,
    row_limit: nat,
    budget: usize,
    codec: &W,
    b: BatchView,
)
    requires
        server_sound(v),
        v.guard,
        encodes_everything(codec),
        pull_answer(v, scope, after, row_limit, budget, codec, b),
    ensures
        b.scope == scope,
        b.changes.len() <= row_limit,
        b.next_cursor == if b.changes.len() == 0 {
            after
        } else {
            b.changes.last().seq
        },
        checksum_of(codec, b.changes) == Some(b.checksum),
        forall|i: int|
            0 <= i < b.changes.len() ==> is_committed_past(
                v.log,
                scope,
                after,
                #[trigger] b.changes[i],
            ),
        forall|i: int, j: int|
            0 <= i < j < b.changes.len() ==> (#[trigger] b.changes[i]).seq < (
            #[trigger] b.changes[j]).seq,
        forall|k: int| #[trigger]
            in_scope(v.log, scope, k) && after < v.log[k].change.seq <= b.next_cursor
                ==> v.log[k].visible && b.changes.contains(v.log[k].change),
        b.has_more <==> exists|k: int| #[trigger]
            in_scope(v.log, scope, k) && v.log[k].change.seq > b.next_cursor,
        forall|k: int| #[trigger]
            is_first_past(v.log, scope, after, k) && v.log[k].visible && row_limit > 0
                ==> b.changes.len() > 0,
{
    let ahead = past(v.log, scope, after);
    let cs = readable(ahead, true, row_limit);
    let n = b.changes.len() as int;
    an_answer_is_the_beginning(v, scope, after, row_limit, budget, codec, b);
    past_is_past(v.log, scope, after, v.next_seq);
    guarded_reading(ahead, row_limit);
    assert forall|i: int| 0 <= i < n implies #[trigger] b.changes[i] == ahead[i].change
        && ahead[i].visible by {
        assert(b.changes[i] == cs[i]);
    }
    assert forall|i: int| 0 <= i < n implies is_committed_past(
        v.log,
        scope,
        after,
        #[trigger] b.changes[i],
    ) by {
        let k = place_of_past(v.log, scope, after, v.next_seq, i);
        assert(b.changes[i] == ahead[i].change);
    }
    assert forall|i: int, j: int| 0 <= i < j < n implies (#[trigger] b.changes[i]).seq < (
    #[trigger] b.changes[j]).seq by {
        assert(b.changes[i] == ahead[i].change && b.changes[j] == ahead[j].change);
    }
    assert forall|k: int| #[trigger]
        in_scope(v.log, scope, k) && after < v.log[k].change.seq <= b.next_cursor implies
        v.log[k].visible && b.changes.contains(v.log[k].change) by {
        let a = place_past(v.log, scope, after, v.next_seq, k);
        assert(b.changes[n - 1] == ahead[n - 1].change);
        if a >= n {
            assert(ahead[n - 1].change.seq < ahead[a].change.seq);
        }
        assert(b.changes[a] == ahead[a].change);
    }
    if n < ahead.len() {
        let k = place_of_past(v.log, scope, after, v.next_seq, n);
        if n > 0 {
            assert(b.changes[n - 1] == ahead[n - 1].change);
            assert(ahead[n - 1].change.seq < ahead[n].change.seq);
        }
        assert(in_scope(v.log, scope, k) && v.log[k].change.seq > b.next_cursor);
    }
    assert forall|k: int| #[trigger]
        in_scope(v.log, scope, k) && v.log[k].change.seq > b.next_cursor implies n
        < ahead.len() by {
        if n > 0 {
            assert(b.changes[n - 1] == ahead[n - 1].change);
        }
        let a = place_past(v.log, scope, after, v.next_seq, k);
        if a < n - 1 {
            assert(ahead[a].change.seq < ahead[n - 1].change.seq);
        }
    }
    assert forall|k: int| #[trigger]
        is_first_past(v.log, scope, after, k) && v.log[k].visible && row_limit > 0 implies n
        > 0 by {
        let a = place_past(v.log, scope, after, v.next_seq, k);
        let j = place_of_past(v.log, scope, after, v.next_seq, 0);
        if a > 0 {
            assert(ahead[0].change.seq < ahead[a].change.seq);
            if k < j {
                assert(v.log[k].change.seq < v.log[j].change.seq);
            }
        }
        assert(ahead[0].visible);
    }
}

/// A pull answers each scope that it was asked for, in the order of the request, and nothing else,
/// each with the server's digest of that scope, and speaks the protocol that it was asked in.
pub proof fn a_pull_answers_each_scope<W: Codec>(
    server: &Server,
    request: &PullRequest,
    row_limit: usize,
    budget: usize,
    codec: &W,
    response: PullResponse,
)
    requires
        call_ensures(Server::pull::<W>, (server, request, row_limit, budget, codec), response),
    ensures
        response.protocol == request.protocol,
        response.batches@.len() == request.scopes@.len(),
        forall|i: int|
            0 <= i < request.scopes@.len() ==> {
                let b = #[trigger] response.batches@[i]@;
                let asked = request.scopes@[i];
                &&& b.scope == asked.scope@
                &&& b.digest == server_digest(server@.log, asked.scope@, codec)
                &&& pull_answer(
                    server@,
                    asked.scope@,
                    asked.cursor.position,
                    row_limit as nat,
                    budget,
                    codec,
                    b,
                )
            },
{
    assert forall|i: int| 0 <= i < request.scopes@.len() implies {
        let b = #[trigger] response.batches@[i]@;
        let asked = request.scopes@[i];
        &&& b.scope == asked.scope@
        &&& b.digest == server_digest(server@.log, asked.scope@, codec)
        &&& pull_answer(
            server@,
            asked.scope@,
            asked.cursor.position,
            row_limit as nat,
            budget,
            codec,
            b,
        )
    } by {
        let asked = request.scopes@[i];
        an_answer_is_the_beginning(
            server@,
            asked.scope@,
            asked.cursor.position,
            row_limit as nat,
            budget,
            codec,
            response.batches@[i]@,
        );
    }
}

/// A row of the table is a change exactly when its operation is one of the two, a write carries a
/// snapshot and a removal none, the texts are ones that the protocol takes, and the numbers are in
/// the range of the wire; and then the change says what the row says.
pub proof fn a_row_becomes_the_change_it_holds(row: ChangeRow, r: Result<Change, ServerError>)
    requires
        call_ensures(ChangeRow::into_change, (row,), r),
    ensures
        r is Ok <==> {
            &&& row.op@ == "upsert"@ || row.op@ == "delete"@
            &&& row.op@ == "upsert"@ ==> (row.snapshot matches Some(s) && s is Ok)
            &&& row.op@ == "delete"@ ==> row.snapshot is None
            &&& row.entity is Ok
            &&& row.entity_id is Ok
            &&& row.seq >= 1
            &&& row.row_version >= 1
            &&& 1 <= row.schema_version <= u16::MAX
        },
        r matches Ok(c) ==> {
            &&& c.seq.value == row.seq
            &&& row.entity == Ok::<_, crate::protocol::ProtocolError>(c.entity)
            &&& row.entity_id == Ok::<_, crate::protocol::ProtocolError>(c.entity_id)
            &&& c.op == Op::Upsert <==> row.op@ == "upsert"@
            &&& c.op == Op::Delete <==> row.op@ == "delete"@
            &&& c.snapshot is Some <==> c.op == Op::Upsert
            &&& c.snapshot matches Some(s) ==> row.snapshot == Some(
                Ok::<_, crate::protocol::ProtocolError>(s),
            )
            &&& c.row_version.value == row.row_version
            &&& c.schema_version.value == row.schema_version
        },
        r matches Err(e) ==> e@ is Corrupt,
{
    reveal_strlit("upsert");
    reveal_strlit("delete");
    assert("upsert"@[0] == 'u');
    assert("delete"@[0] == 'd');
}

/// A page holds the change of every row handed to it, in their order, and says that there is more
/// exactly when the read brought more rows than the limit.
pub proof fn a_page_is_its_rows(
    rows: Vec<ChangeRow>,
    read: usize,
    limit: i64,
    r: Result<Page, ServerError>,
    n: usize,
)
    requires
        call_ensures(page, (rows, read, limit), r),
        call_ensures(page_size, (read, limit), n),
    ensures
        n <= read,
        limit >= 0 ==> n <= limit,
        limit >= 0 && n < limit ==> n == read,
        r matches Ok(p) ==> {
            &&& p.more_beyond <==> read > limit
            &&& p.changes@.len() == rows@.len()
            &&& forall|i: int|
                0 <= i < rows@.len() ==> {
                    let change = #[trigger] p.changes@[i];
                    let row = rows@[i];
                    &&& change.seq.value == row.seq
                    &&& row.entity matches Ok(name) && change.entity@ == name@
                    &&& row.entity_id matches Ok(name) && change.entity_id@ == name@
                    &&& change.op == Op::Upsert <==> row.op@ == "upsert"@
                    &&& change.row_version.value == row.row_version
                    &&& change.schema_version.value == row.schema_version
                    &&& change.snapshot is Some <==> row.snapshot is Some
                    &&& change.snapshot matches Some(s) ==> row.snapshot->0->Ok_0@ == s@
                }
        },
        r is Err <==> exists|i: int|
            0 <= i < rows@.len() && crate::pull::row_fault(#[trigger] rows@[i]) is Some,
{
    rows_at_fault(rows@);
    if let Ok(p) = r {
        assert forall|i: int| 0 <= i < rows@.len() implies {
            let change = #[trigger] p.changes@[i];
            let row = rows@[i];
            &&& change.seq.value == row.seq
            &&& row.entity matches Ok(name) && change.entity@ == name@
            &&& row.entity_id matches Ok(name) && change.entity_id@ == name@
            &&& change.op == Op::Upsert <==> row.op@ == "upsert"@
            &&& change.row_version.value == row.row_version
            &&& change.schema_version.value == row.schema_version
            &&& change.snapshot is Some <==> row.snapshot is Some
            &&& change.snapshot matches Some(s) ==> row.snapshot->0->Ok_0@ == s@
        } by {
            let row = rows@[i];
            assert(crate::pull::row_fault(row) is None);
        }
    }
}

proof fn rows_at_fault(rows: Seq<ChangeRow>)
    ensures
        crate::db::first_row_fault(rows) is Some <==> exists|i: int|
            0 <= i < rows.len() && crate::pull::row_fault(#[trigger] rows[i]) is Some,
    decreases rows.len(),
{
    if rows.len() > 0 {
        let rest = rows.drop_first();
        rows_at_fault(rest);
        if crate::pull::row_fault(rows[0]) is None {
            if exists|i: int|
                0 <= i < rows.len() && crate::pull::row_fault(#[trigger] rows[i]) is Some {
                let i = choose|i: int|
                    0 <= i < rows.len() && crate::pull::row_fault(#[trigger] rows[i]) is Some;
                assert(rest[i - 1] == rows[i]);
            }
            if exists|i: int|
                0 <= i < rest.len() && crate::pull::row_fault(#[trigger] rest[i]) is Some {
                let i = choose|i: int|
                    0 <= i < rest.len() && crate::pull::row_fault(#[trigger] rest[i]) is Some;
                assert(rows[i + 1] == rest[i]);
            }
        } else {
            assert(crate::pull::row_fault(rows[0]) is Some);
        }
    }
}

} // verus!
