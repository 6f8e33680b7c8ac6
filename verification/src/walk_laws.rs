//! What a device meets that walks the log of a scope, pull after pull, and what it then holds.
use crate::codec::{checksum_of, encoding, Codec};
use crate::protocol::{ChangeView, Op, RowVersion};
use crate::pull::{cursor_after, filling_is_possible, is_cut};
use crate::server::{
    history, log_ordered, past, pull_answer, pull_batch, readable, scope_log,
    scope_log_is_the_scope, server_digest, server_sound, upto, version_at, visible_end, visible_run,
    EntryView, ServerView,
};
use crate::server_laws::{guarded_reading, scope_log_unfolds, upto_splits};
use crate::transport::a_compressor_of;
use vstd::prelude::*;

verus! {

/// The changes of some entries up to the first that is not visible.
pub open spec fn seen(entries: Seq<EntryView>) -> Seq<ChangeView> {
    entries.take(visible_run(entries) as int).map_values(|e: EntryView| e.change)
}

/// What `n` pulls, one after the other, hand over, and where the device then stands.
pub open spec fn walked<W: Codec>(
    v: ServerView,
    scope: Seq<char>,
    cursor: u64,
    row_limit: nat,
    budget: usize,
    codec: &W,
    n: nat,
) -> (Seq<ChangeView>, u64)
    decreases n,
{
    if n == 0 {
        (seq![], cursor)
    } else {
        let (before, stands) = walked(v, scope, cursor, row_limit, budget, codec, (n - 1) as nat);
        let b = pull_batch(v, scope, stands, row_limit, budget, codec);
        (before + b.changes, b.next_cursor)
    }
}

/// The codec can encode every change and checksum every run of them.
pub open spec fn encodes_everything<W: Codec>(codec: &W) -> bool {
    &&& forall|c: ChangeView| #[trigger] encoding(codec, c) is Some
    &&& forall|cs: Seq<ChangeView>| #[trigger] checksum_of(codec, cs) is Some
}

/// The entries up to the first that is not visible are visible.
pub proof fn run_of(entries: Seq<EntryView>)
    ensures
        visible_run(entries) <= entries.len(),
        forall|i: int| 0 <= i < visible_run(entries) ==> (#[trigger] entries[i]).visible,
        visible_run(entries) < entries.len() ==> !entries[visible_run(entries) as int].visible,
    decreases entries.len(),
{
    if entries.len() > 0 && entries[0].visible {
        let rest = entries.drop_first();
        run_of(rest);
        assert forall|i: int| 0 <= i < visible_run(entries) implies (
        #[trigger] entries[i]).visible by {
            if i > 0 {
                assert(rest[i - 1].visible);
            }
        }
    }
}

proof fn run_after(entries: Seq<EntryView>, m: int)
    requires
        0 <= m <= visible_run(entries),
    ensures
        visible_run(entries.skip(m)) == visible_run(entries) - m,
    decreases m,
{
    run_of(entries);
    if m == 0 {
        assert(entries.skip(0) =~= entries);
    } else {
        let rest = entries.drop_first();
        run_after(rest, m - 1);
        assert(rest.skip(m - 1) =~= entries.skip(m));
    }
}

proof fn reading_is_seeing(entries: Seq<EntryView>, limit: nat)
    ensures
        readable(entries, true, limit) == seen(entries).take(
            if limit <= seen(entries).len() {
                limit as int
            } else {
                seen(entries).len() as int
            },
        ),
{
    run_of(entries);
    guarded_reading(entries, limit);
    let cs = readable(entries, true, limit);
    let run = visible_run(entries);
    if cs.len() < run {
        assert(entries[cs.len() as int].visible);
    } else if cs.len() > run {
        assert(cs[run as int] == entries[run as int].change);
    }
    assert(cs =~= seen(entries).take(
        if limit <= run {
            limit as int
        } else {
            run as int
        },
    ));
}

/// A pull is always answered.
pub proof fn a_pull_is_answered<W: Codec>(
    v: ServerView,
    scope: Seq<char>,
    cursor: u64,
    row_limit: nat,
    budget: usize,
    codec: &W,
)
    ensures
        pull_answer(
            v,
            scope,
            cursor,
            row_limit,
            budget,
            codec,
            pull_batch(v, scope, cursor, row_limit, budget, codec),
        ),
{
    let ahead = past(v.log, scope, cursor);
    let cs = readable(ahead, v.guard, row_limit);
    let digest = server_digest(v.log, scope, codec);
    let c = a_compressor_of(3);
    let r = filling_is_possible(
        scope,
        cursor,
        cs,
        ahead.len() > cs.len(),
        budget,
        &c,
        digest,
        codec,
    );
    let b = match r {
        Ok(x) => x,
        Err(_) => crate::protocol::BatchView {
            scope,
            changes: seq![],
            next_cursor: cursor,
            has_more: ahead.len() > cs.len(),
            checksum: crate::server::no_checksum(),
            digest,
        },
    };
    assert(pull_answer(v, scope, cursor, row_limit, budget, codec, b));
}

/// What one pull hands over: the first `m` of what the device has not seen.
proof fn one_pull<W: Codec>(
    v: ServerView,
    scope: Seq<char>,
    cursor: u64,
    row_limit: nat,
    budget: usize,
    codec: &W,
) -> (m: int)
    requires
        server_sound(v),
        v.guard,
    ensures
        ({
            let ahead = seen(past(v.log, scope, cursor));
            let b = pull_batch(v, scope, cursor, row_limit, budget, codec);
            &&& 0 <= m <= ahead.len()
            &&& b.changes == ahead.take(m)
            &&& b.next_cursor == cursor_after(cursor, ahead, m)
            &&& encodes_everything(codec) && row_limit > 0 && ahead.len() > 0 ==> m > 0
        }),
{
    a_pull_is_answered(v, scope, cursor, row_limit, budget, codec);
    let entries = past(v.log, scope, cursor);
    let ahead = seen(entries);
    reading_is_seeing(entries, row_limit);
    let cs = readable(entries, true, row_limit);
    let b = pull_batch(v, scope, cursor, row_limit, budget, codec);
    if exists|c: crate::transport::SimCompressor, n: int|
        #[trigger] is_cut(&c, codec, cs, budget, n) && b.changes == cs.take(n) && b.next_cursor
            == cursor_after(cursor, cs, n) {
        let (c, n) = choose|c: crate::transport::SimCompressor, n: int|
            #[trigger] is_cut(&c, codec, cs, budget, n) && b.changes == cs.take(n) && b.next_cursor
                == cursor_after(cursor, cs, n);
        assert(cs.take(n) =~= ahead.take(n));
        n
    } else {
        assert(ahead.take(0) =~= seq![]);
        0
    }
}

/// Moving the cursor over the first `m` entries past it leaves the others.
proof fn past_moves_on(log: Seq<EntryView>, scope: Seq<char>, cursor: u64, next_seq: u64, m: int)
    requires
        log_ordered(log, next_seq),
        0 <= m <= past(log, scope, cursor).len(),
    ensures
        ({
            let stands = if m == 0 {
                cursor
            } else {
                past(log, scope, cursor)[m - 1].change.seq
            };
            past(log, scope, stands) == past(log, scope, cursor).skip(m)
        }),
{
    scope_log_is_the_scope(log, scope, next_seq);
    let entries = scope_log(log, scope);
    let ahead = past(log, scope, cursor);
    upto_splits(entries, cursor);
    let k = upto(entries, cursor) as int;
    if m == 0 {
        assert(ahead.skip(0) =~= ahead);
    } else {
        assert(ahead[m - 1] == entries[k + m - 1]);
        let stands = entries[k + m - 1].change.seq;
        upto_splits(entries, stands);
        let j = upto(entries, stands) as int;
        if j < k + m {
            assert(entries[k + m - 1].change.seq <= stands);
        } else if j > k + m {
            assert(entries[k + m].change.seq <= stands);
            assert(entries[k + m - 1].change.seq < entries[k + m].change.seq);
        }
        assert(past(log, scope, stands) =~= ahead.skip(m));
    }
}

/// A device that walks the log meets the committed changes of its scope in order, each once and
/// none left out, up to the first that has not committed: what any number of pulls have handed
/// over is the beginning of that, and the device stands at the end of it.
pub proof fn a_walk_skips_nothing<W: Codec>(
    v: ServerView,
    scope: Seq<char>,
    cursor: u64,
    row_limit: nat,
    budget: usize,
    codec: &W,
    n: nat,
)
    requires
        server_sound(v),
        v.guard,
    ensures
        ({
            let ahead = seen(past(v.log, scope, cursor));
            let (met, stands) = walked(v, scope, cursor, row_limit, budget, codec, n);
            &&& met.len() <= ahead.len()
            &&& met == ahead.take(met.len() as int)
            &&& stands == cursor_after(cursor, ahead, met.len() as int)
            &&& encodes_everything(codec) && row_limit > 0 ==> met.len() >= n || met == ahead
        }),
    decreases n,
{
    let entries = past(v.log, scope, cursor);
    let ahead = seen(entries);
    run_of(entries);
    if n == 0 {
        assert(ahead.take(0) =~= seq![]);
    } else {
        a_walk_skips_nothing(v, scope, cursor, row_limit, budget, codec, (n - 1) as nat);
        let (before, stands) = walked(v, scope, cursor, row_limit, budget, codec, (n - 1) as nat);
        let k = before.len() as int;
        if k > 0 {
            assert(ahead[k - 1] == entries[k - 1].change);
        }
        past_moves_on(v.log, scope, cursor, v.next_seq, k);
        let rest = past(v.log, scope, stands);
        assert(rest == entries.skip(k));
        run_after(entries, k);
        run_of(rest);
        assert(seen(rest) =~= ahead.skip(k));
        let m = one_pull(v, scope, stands, row_limit, budget, codec);
        let b = pull_batch(v, scope, stands, row_limit, budget, codec);
        assert(before + b.changes =~= ahead.take(k + m));
        if m > 0 {
            assert(seen(rest)[m - 1] == ahead[k + m - 1]);
        }
        if before == ahead {
            assert(k == ahead.len());
        }
        assert(ahead.take(ahead.len() as int) =~= ahead);
    }
}

/// A walk arrives: as many pulls as there are changes to meet are enough to meet them all, if the
/// codec can encode them.
pub proof fn a_walk_arrives<W: Codec>(
    v: ServerView,
    scope: Seq<char>,
    cursor: u64,
    row_limit: nat,
    budget: usize,
    codec: &W,
)
    requires
        server_sound(v),
        v.guard,
        encodes_everything(codec),
        row_limit > 0,
    ensures
        ({
            let ahead = seen(past(v.log, scope, cursor));
            walked(v, scope, cursor, row_limit, budget, codec, ahead.len()).0 == ahead
        }),
{
    let ahead = seen(past(v.log, scope, cursor));
    a_walk_skips_nothing(v, scope, cursor, row_limit, budget, codec, ahead.len());
    assert(ahead.take(ahead.len() as int) =~= ahead);
}

/// The rows of a device, and the version each is at, after it has applied some changes.
pub open spec fn applied_to(
    rows: Map<(Seq<char>, Seq<char>), u64>,
    changes: Seq<ChangeView>,
) -> Map<(Seq<char>, Seq<char>), u64>
    decreases changes.len(),
{
    if changes.len() == 0 {
        rows
    } else {
        let before = applied_to(rows, changes.drop_last());
        let c = changes.last();
        match c.op {
            Op::Upsert => before.insert(c.row, c.row_version),
            Op::Delete => before.remove(c.row),
        }
    }
}

/// The rows of a device that has applied some changes to nothing.
pub open spec fn held(changes: Seq<ChangeView>) -> Map<(Seq<char>, Seq<char>), u64> {
    applied_to(Map::empty(), changes)
}

/// The version of a row in what a device holds.
pub open spec fn version_in(
    rows: Map<(Seq<char>, Seq<char>), u64>,
    row: (Seq<char>, Seq<char>),
) -> Option<RowVersion> {
    if rows.dom().contains(row) {
        Some(RowVersion { value: rows[row] })
    } else {
        None
    }
}

/// The changes of a scope up to a cursor.
pub open spec fn changes_upto(log: Seq<EntryView>, scope: Seq<char>, cursor: u64) -> Seq<ChangeView> {
    scope_log(log, scope).take(upto(scope_log(log, scope), cursor) as int).map_values(
        |e: EntryView| e.change,
    )
}

/// Whoever applies the changes of a scope up to a cursor, in order, holds each row at the version
/// that the server says a client at that cursor should hold, and no other row.
pub proof fn applying_the_log_gives_the_rows(
    log: Seq<EntryView>,
    scope: Seq<char>,
    cursor: u64,
    next_seq: u64,
    row: (Seq<char>, Seq<char>),
)
    requires
        log_ordered(log, next_seq),
    ensures
        version_in(held(changes_upto(log, scope, cursor)), row) == version_at(
            log,
            scope,
            row,
            cursor,
        ),
    decreases log.len(),
{
    let changes = changes_upto(log, scope, cursor);
    if log.len() == 0 {
        assert(changes.len() == 0);
    } else {
        let rest = log.drop_last();
        let e = log.last();
        applying_the_log_gives_the_rows(rest, scope, cursor, next_seq, row);
        scope_log_unfolds(log, scope);
        let before = scope_log(rest, scope);
        let entries = scope_log(log, scope);
        let earlier = changes_upto(rest, scope, cursor);
        scope_log_is_the_scope(log, scope, next_seq);
        scope_log_is_the_scope(rest, scope, next_seq);
        upto_splits(before, cursor);
        upto_splits(entries, cursor);
        if e.scope == scope {
            let last = entries.len() - 1;
            assert(entries[last] == e);
            assert(entries.drop_last() =~= before);
            let h = history(rest, scope, row);
            if e.change.row == row {
                assert(history(log, scope, row).drop_last() =~= h);
            }
            if e.change.seq <= cursor {
                if before.len() > 0 {
                    assert(entries[last - 1] == before[last - 1]);
                    assert(entries[last - 1].change.seq < entries[last].change.seq);
                }
                assert(changes.drop_last() =~= earlier);
                assert(changes.last() == e.change);
            } else {
                assert(changes =~= earlier);
            }
        } else {
            assert(changes =~= earlier);
        }
    }
}

/// A device that starts with nothing and walks the log holds, after any number of pulls, exactly
/// the rows that the server says a client should hold where it stands.
pub proof fn a_walk_holds_the_rows<W: Codec>(
    v: ServerView,
    scope: Seq<char>,
    row_limit: nat,
    budget: usize,
    codec: &W,
    n: nat,
    row: (Seq<char>, Seq<char>),
)
    requires
        server_sound(v),
        v.guard,
    ensures
        ({
            let (met, stands) = walked(v, scope, 0, row_limit, budget, codec, n);
            version_in(held(met), row) == version_at(v.log, scope, row, stands)
        }),
{
    let (met, stands) = walked(v, scope, 0, row_limit, budget, codec, n);
    a_walk_skips_nothing(v, scope, 0, row_limit, budget, codec, n);
    walking_from_the_start(v, scope, met.len() as int);
    applying_the_log_gives_the_rows(v.log, scope, stands, v.next_seq, row);
}

proof fn walking_from_the_start(v: ServerView, scope: Seq<char>, k: int)
    requires
        server_sound(v),
        0 <= k <= seen(past(v.log, scope, 0)).len(),
    ensures
        ({
            let ahead = seen(past(v.log, scope, 0));
            &&& past(v.log, scope, 0) == scope_log(v.log, scope)
            &&& changes_upto(v.log, scope, cursor_after(0, ahead, k)) == ahead.take(k)
        }),
{
    let entries = scope_log(v.log, scope);
    scope_log_is_the_scope(v.log, scope, v.next_seq);
    upto_splits(entries, 0);
    if upto(entries, 0) > 0 {
        assert(entries[0].change.seq <= 0);
        assert(v.log.contains(entries[0]));
    }
    assert(past(v.log, scope, 0) =~= entries);
    run_of(entries);
    let ahead = seen(entries);
    let stands = cursor_after(0, ahead, k);
    upto_splits(entries, stands);
    let j = upto(entries, stands) as int;
    if k > 0 {
        assert(ahead[k - 1] == entries[k - 1].change);
        if j < k {
            assert(entries[k - 1].change.seq <= stands);
        } else if j > k {
            assert(entries[k].change.seq <= stands);
            assert(entries[k - 1].change.seq < entries[k].change.seq);
        }
    }
    assert(changes_upto(v.log, scope, stands) =~= ahead.take(k));
}

/// A device that starts with nothing converges: with as many pulls as there are changes to meet it
/// stands where the server's own digest is taken, and holds the rows that the digest is over.
pub proof fn a_walk_converges<W: Codec>(
    v: ServerView,
    scope: Seq<char>,
    row_limit: nat,
    budget: usize,
    codec: &W,
    row: (Seq<char>, Seq<char>),
)
    requires
        server_sound(v),
        v.guard,
        encodes_everything(codec),
        row_limit > 0,
    ensures
        ({
            let n = seen(scope_log(v.log, scope)).len();
            let (met, stands) = walked(v, scope, 0, row_limit, budget, codec, n);
            &&& stands == visible_end(scope_log(v.log, scope))
            &&& version_in(held(met), row) == version_at(
                v.log,
                scope,
                row,
                visible_end(scope_log(v.log, scope)),
            )
        }),
{
    let entries = scope_log(v.log, scope);
    walking_from_the_start(v, scope, 0);
    run_of(entries);
    let ahead = seen(entries);
    a_walk_skips_nothing(v, scope, 0, row_limit, budget, codec, ahead.len());
    a_walk_arrives(v, scope, 0, row_limit, budget, codec);
    a_walk_holds_the_rows(v, scope, row_limit, budget, codec, ahead.len(), row);
    if ahead.len() > 0 {
        assert(ahead[ahead.len() - 1] == entries[ahead.len() - 1].change);
    }
}

} // verus!
