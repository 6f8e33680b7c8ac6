//! Pull pagination over the change log.
//!
//! The budget of a batch is compressed bytes, never a row count, so a batch is filled by
//! measuring. One change always goes, even alone over budget: refusing it would leave the cursor
//! where it is for ever.
use crate::codec::{checksum_of, checksum_with, encode_with, encoding, is_function, Codec};
use crate::error::{corrupt, corruption, ServerError, ServerErrorView};
use crate::protocol::{
    change_views, Batch, BatchView, Change, ChangeView, Cursor, EntityId, EntityName, HexString, Op,
    ProtocolError, RowVersion, SchemaVersion, ScopeId, SeqNo, Snapshot,
};
use crate::text::{push_signed_padded, signed_padded};
use vstd::prelude::*;
use vstd::string::*;

verus! {

/// Measures how large a batch will be on the wire.
///
/// The algorithm is negotiated, so neither side can know it in advance. It is pure: the same
/// bytes always have the same compressed length.
pub trait Compressor {
    /// The length `bytes` would occupy compressed.
    spec fn measure(&self, bytes: Seq<u8>) -> nat;

    /// The length `bytes` would occupy compressed.
    fn compressed_len(&self, bytes: &[u8]) -> (n: usize)
        ensures
            n == self.measure(bytes@),
    ;
}

/// The default budget.
pub const DEFAULT_BUDGET_BYTES: usize = 100_000;

/// One row of `sync_changes`, as read from the database.
///
/// Deliberately not [`Change`]: the database row is untrusted until validated. The texts have
/// been put through the protocol's constructors, and what those answered is kept as it came.
#[derive(Debug)]
pub struct ChangeRow {
    /// Position in the log.
    pub seq: i64,
    /// Which entity the row belongs to.
    pub entity: Result<EntityName, ProtocolError>,
    /// The row's identifier.
    pub entity_id: Result<EntityId, ProtocolError>,
    /// `upsert` or `delete`.
    pub op: String,
    /// The full row, absent for a tombstone.
    pub snapshot: Option<Result<Snapshot, ProtocolError>>,
    /// Server-assigned row version.
    pub row_version: i64,
    /// The schema this snapshot was written under.
    pub schema_version: i32,
}

/// A complaint about one column of one row.
pub open spec fn about(before: Seq<char>, n: int, after: Seq<char>) -> Seq<char> {
    before + signed_padded(n, 0) + after
}

/// What is wrong with a row before its numbers are looked at: the operation is unknown, or it
/// and the snapshot do not belong together.
pub open spec fn op_fault(row: ChangeRow) -> Option<ServerErrorView> {
    if row.op@ != "upsert"@ && row.op@ != "delete"@ {
        Some(
            ServerErrorView::Corrupt {
                detail: "sync_changes.op is '"@ + row.op@ + "', which is not a valid op"@,
            },
        )
    } else if row.op@ == "upsert"@ {
        match row.snapshot {
            None => Some(
                ServerErrorView::Corrupt {
                    detail: about(
                        "sync_changes.seq "@,
                        row.seq as int,
                        " is an upsert with no snapshot"@,
                    ),
                },
            ),
            Some(Err(e)) => Some(corruption(e)),
            Some(Ok(_)) => None,
        }
    } else {
        match row.snapshot {
            None => None,
            Some(_) => Some(
                ServerErrorView::Corrupt {
                    detail: about(
                        "sync_changes.seq "@,
                        row.seq as int,
                        " is a delete carrying a snapshot"@,
                    ),
                },
            ),
        }
    }
}

/// What is wrong with a row's numbers: one is out of the range that the wire has for it.
pub open spec fn range_fault(row: ChangeRow) -> Option<ServerErrorView> {
    if row.seq < 0 {
        Some(
            ServerErrorView::Corrupt {
                detail: about("sync_changes.seq "@, row.seq as int, " is negative"@),
            },
        )
    } else if row.row_version < 0 {
        Some(
            ServerErrorView::Corrupt {
                detail: about(
                    "sync_changes.row_version "@,
                    row.row_version as int,
                    " is negative"@,
                ),
            },
        )
    } else if !(0 <= row.schema_version <= u16::MAX) {
        Some(
            ServerErrorView::Corrupt {
                detail: about(
                    "sync_changes.schema_version "@,
                    row.schema_version as int,
                    " does not fit the wire's range"@,
                ),
            },
        )
    } else {
        None
    }
}

/// The first field, in the order of the wire value, that the protocol refuses.
pub open spec fn field_fault(row: ChangeRow) -> Option<ServerErrorView> {
    if row.seq == 0 {
        Some(corruption(ProtocolError::Zero))
    } else if row.entity is Err {
        Some(corruption(row.entity->Err_0))
    } else if row.entity_id is Err {
        Some(corruption(row.entity_id->Err_0))
    } else if row.row_version == 0 || row.schema_version == 0 {
        Some(corruption(ProtocolError::Zero))
    } else {
        None
    }
}

/// The first thing that is wrong with a row.
pub open spec fn row_fault(row: ChangeRow) -> Option<ServerErrorView> {
    match op_fault(row) {
        Some(e) => Some(e),
        None => match range_fault(row) {
            Some(e) => Some(e),
            None => field_fault(row),
        },
    }
}

fn complaint(before: &str, n: i64, after: &str) -> (e: ServerError)
    ensures
        e@ == (ServerErrorView::Corrupt { detail: about(before@, n as int, after@) }),
{
    let mut detail: String = before.to_owned();
    push_signed_padded(&mut detail, n, 0);
    detail.append(after);
    ServerError::Corrupt { detail }
}

impl ChangeRow {
    /// Converts a database row into a validated wire value.
    ///
    /// # Errors
    /// [`ServerError::Corrupt`] for the first thing wrong with the row, if any field fails the
    /// protocol's own validation: a database holding something the protocol says cannot exist.
    pub fn into_change(self) -> (r: Result<Change, ServerError>)
        ensures
            match row_fault(self) {
                Some(fault) => r matches Err(e) && e@ == fault,
                None => {
                    &&& r matches Ok(c)
                    &&& c.seq.value == self.seq
                    &&& self.entity == Ok::<EntityName, ProtocolError>(c.entity)
                    &&& self.entity_id == Ok::<EntityId, ProtocolError>(c.entity_id)
                    &&& c.op == if self.op@ == "upsert"@ {
                        Op::Upsert
                    } else {
                        Op::Delete
                    }
                    &&& match c.snapshot {
                        Some(s) => self.snapshot == Some(Ok::<Snapshot, ProtocolError>(s)),
                        None => self.snapshot is None,
                    }
                    &&& c.row_version.value == self.row_version
                    &&& c.schema_version.value == self.schema_version
                },
            },
    {
        proof {
            reveal_strlit("upsert");
            reveal_strlit("delete");
        }
        let upsert: bool = self.op == "upsert".to_owned();
        if !upsert && !(self.op == "delete".to_owned()) {
            let mut detail: String = "sync_changes.op is '".to_owned();
            detail.append(self.op.as_str());
            detail.append("', which is not a valid op");
            return Err(ServerError::Corrupt { detail });
        }
        assert(upsert ==> self.op@[0] == 'u');
        assert(!upsert ==> self.op@[0] == 'd');
        let snapshot: Option<Snapshot> = match self.snapshot {
            Some(given) => {
                if !upsert {
                    return Err(
                        complaint("sync_changes.seq ", self.seq, " is a delete carrying a snapshot"),
                    );
                }
                match given {
                    Ok(s) => Some(s),
                    Err(e) => return Err(corrupt(e)),
                }
            },
            None => {
                if upsert {
                    return Err(
                        complaint("sync_changes.seq ", self.seq, " is an upsert with no snapshot"),
                    );
                }
                None
            },
        };
        if self.seq < 0 {
            return Err(complaint("sync_changes.seq ", self.seq, " is negative"));
        }
        if self.row_version < 0 {
            return Err(complaint("sync_changes.row_version ", self.row_version, " is negative"));
        }
        if self.schema_version < 0 || self.schema_version > 65535 {
            return Err(
                complaint(
                    "sync_changes.schema_version ",
                    self.schema_version as i64,
                    " does not fit the wire's range",
                ),
            );
        }
        let seq: SeqNo = match SeqNo::new(self.seq as u64) {
            Ok(v) => v,
            Err(e) => return Err(corrupt(e)),
        };
        let entity: EntityName = match self.entity {
            Ok(v) => v,
            Err(e) => return Err(corrupt(e)),
        };
        let entity_id: EntityId = match self.entity_id {
            Ok(v) => v,
            Err(e) => return Err(corrupt(e)),
        };
        let row_version: RowVersion = match RowVersion::new(self.row_version as u64) {
            Ok(v) => v,
            Err(e) => return Err(corrupt(e)),
        };
        let schema_version: SchemaVersion = match SchemaVersion::new(self.schema_version as u16) {
            Ok(v) => v,
            Err(e) => return Err(corrupt(e)),
        };
        Ok(
            Change {
                seq,
                entity,
                entity_id,
                op: if upsert {
                    Op::Upsert
                } else {
                    Op::Delete
                },
                snapshot,
                row_version,
                schema_version,
            },
        )
    }
}

/// The canonical bytes of some changes, with commas between them.
pub open spec fn listed<W: Codec>(codec: &W, cs: Seq<ChangeView>) -> Seq<u8>
    decreases cs.len(),
{
    if cs.len() == 0 {
        seq![]
    } else {
        let last = encoding(codec, cs.last())->0;
        if cs.len() == 1 {
            last
        } else {
            listed(codec, cs.drop_last()).push(44) + last
        }
    }
}

/// The canonical bytes of a batch of changes: the changes in brackets.
pub open spec fn batch_bytes<W: Codec>(codec: &W, cs: Seq<ChangeView>) -> Seq<u8> {
    seq![91u8] + listed(codec, cs) + seq![93u8]
}

/// The first `n` changes stay within the budget.
pub open spec fn fits<C: Compressor, W: Codec>(
    compressor: &C,
    codec: &W,
    cs: Seq<ChangeView>,
    budget: usize,
    n: int,
) -> bool {
    compressor.measure(batch_bytes(codec, cs.take(n))) <= budget
}

/// Filling a batch gets as far as looking at change `n`: each change before it can be encoded,
/// and from the second on each of them fitted.
pub open spec fn reaches<C: Compressor, W: Codec>(
    compressor: &C,
    codec: &W,
    cs: Seq<ChangeView>,
    budget: usize,
    n: int,
) -> bool {
    &&& 0 <= n <= cs.len()
    &&& forall|i: int| 0 <= i < n ==> encoding(codec, #[trigger] cs[i]) is Some
    &&& forall|j: int| 1 < j <= n ==> #[trigger] fits(compressor, codec, cs, budget, j)
}

/// The batch is the first `n` changes: they were reached, and there is no next change or it
/// would not fit behind at least one.
pub open spec fn is_cut<C: Compressor, W: Codec>(
    compressor: &C,
    codec: &W,
    cs: Seq<ChangeView>,
    budget: usize,
    n: int,
) -> bool {
    &&& reaches(compressor, codec, cs, budget, n)
    &&& n < cs.len() ==> {
        &&& n > 0
        &&& encoding(codec, cs[n]) is Some
        &&& !fits(compressor, codec, cs, budget, n + 1)
    }
}

/// Filling the batch meets a change that cannot be encoded.
pub open spec fn is_stuck<C: Compressor, W: Codec>(
    compressor: &C,
    codec: &W,
    cs: Seq<ChangeView>,
    budget: usize,
    n: int,
) -> bool {
    &&& reaches(compressor, codec, cs, budget, n)
    &&& n < cs.len()
    &&& encoding(codec, cs[n]) is None
}

/// Where a device stands after the first `n` changes.
pub open spec fn cursor_after(cursor: u64, cs: Seq<ChangeView>, n: int) -> u64 {
    if n == 0 {
        cursor
    } else {
        cs[n - 1].seq
    }
}

/// What filling a batch comes to.
pub open spec fn filled<C: Compressor, W: Codec>(
    scope: Seq<char>,
    cursor: u64,
    cs: Seq<ChangeView>,
    more_beyond: bool,
    budget: usize,
    compressor: &C,
    digest: Seq<char>,
    codec: &W,
    r: Result<BatchView, ServerErrorView>,
) -> bool {
    match r {
        Ok(b) => exists|n: int|
            {
                &&& #[trigger] is_cut(compressor, codec, cs, budget, n)
                &&& checksum_of(codec, cs.take(n)) == Some(b.checksum)
                &&& b.scope == scope
                &&& b.changes == cs.take(n)
                &&& b.next_cursor == cursor_after(cursor, cs, n)
                &&& b.has_more == (n < cs.len() || more_beyond)
                &&& b.digest == digest
            },
        Err(e) => {
            ||| e == (ServerErrorView::Corrupt {
                detail: "a change in the log could not be encoded"@,
            }) && exists|n: int| #[trigger] is_stuck(compressor, codec, cs, budget, n)
            ||| e == (ServerErrorView::Corrupt {
                detail: "a batch could not be encoded for checksumming"@,
            }) && exists|n: int| #[trigger]
                is_cut(compressor, codec, cs, budget, n) && checksum_of(codec, cs.take(n)) is None
        },
    }
}

/// A result of [`fill_batch`], with its texts as sequences of characters.
pub open spec fn batch_result(r: Result<Batch, ServerError>) -> Result<BatchView, ServerErrorView> {
    match r {
        Ok(b) => Ok(b@),
        Err(e) => Err(e@),
    }
}

/// Fills one batch from changes already read in `seq` order.
///
/// `candidates` are the changes of `scope` after the client's cursor, and may be more than one
/// batch will hold. Whatever does not fit sets `has_more`, and so does `more_beyond`: that there
/// were more changes than the caller read.
///
/// # Errors
/// [`ServerError::Corrupt`] if a change cannot be encoded.
pub fn fill_batch<C: Compressor, W: Codec>(
    scope: &ScopeId,
    cursor: Cursor,
    candidates: Vec<Change>,
    more_beyond: bool,
    budget_bytes: usize,
    compressor: &C,
    digest: HexString,
    codec: &W,
) -> (r: Result<Batch, ServerError>)
    requires
        is_function(codec),
    ensures
        filled(
            scope@,
            cursor.position,
            change_views(candidates@),
            more_beyond,
            budget_bytes,
            compressor,
            digest@,
            codec,
            batch_result(r),
        ),
{
    let ghost cs = change_views(candidates@);
    let mut chosen: Vec<Change> = Vec::new();
    // The batch's canonical bytes, grown in place: each change is encoded once and spliced in
    // before the closing bracket.
    let mut buf: Vec<u8> = vec![91u8, 93u8];
    let mut i: usize = 0;
    assert(cs.take(0) == Seq::<ChangeView>::empty());
    assert(buf@ == batch_bytes(codec, cs.take(0)));
    while i < candidates.len()
        invariant_except_break
            chosen@ == candidates@.take(i as int),
            buf@ == batch_bytes(codec, cs.take(i as int)),
        invariant
            is_function(codec),
            cs == change_views(candidates@),
            i <= candidates@.len(),
            reaches(compressor, codec, cs, budget_bytes, i as int),
        ensures
            chosen@ == candidates@.take(i as int),
            is_cut(compressor, codec, cs, budget_bytes, i as int),
        decreases candidates@.len() - i,
    {
        let change: &Change = &candidates[i];
        let one: Vec<u8> = match encode_with(codec, change) {
            Some(b) => b,
            None => {
                assert(is_stuck(compressor, codec, cs, budget_bytes, i as int));
                return Err(
                    ServerError::Corrupt {
                        detail: "a change in the log could not be encoded".to_owned(),
                    },
                );
            },
        };
        let ghost next = cs.take(i + 1);
        proof {
            assert(next.drop_last() == cs.take(i as int));
            assert(next.last() == cs[i as int]);
        }
        let ghost opened = seq![91u8] + listed(codec, cs.take(i as int));
        buf.pop();
        assert(buf@ == opened);
        if chosen.len() > 0 {
            buf.push(44u8);
        }
        buf.extend_from_slice(one.as_slice());
        buf.push(93u8);
        assert(buf@ == batch_bytes(codec, next)) by {
            if i == 0 {
                assert(listed(codec, next) == one@);
                assert(buf@ == seq![91u8] + one@ + seq![93u8]);
            } else {
                assert(listed(codec, next) == listed(codec, cs.take(i as int)).push(44) + one@);
                assert(buf@ == opened.push(44) + one@ + seq![93u8]);
                assert(opened.push(44) + one@ == seq![91u8] + listed(codec, next));
            }
        }
        if compressor.compressed_len(buf.as_slice()) > budget_bytes && chosen.len() > 0 {
            break;
        }
        assert(reaches(compressor, codec, cs, budget_bytes, i + 1)) by {
            assert forall|j: int| 1 < j <= i + 1 implies #[trigger] fits(
                compressor,
                codec,
                cs,
                budget_bytes,
                j,
            ) by {}
        }
        chosen.push(change.clone());
        i = i + 1;
        assert(chosen@ == candidates@.take(i as int));
    }
    assert(change_views(chosen@) == cs.take(i as int));
    let next_cursor: Cursor = if chosen.len() == 0 {
        cursor
    } else {
        Cursor { position: chosen[chosen.len() - 1].seq.get() }
    };
    let checksum: HexString = match checksum_with(codec, &chosen) {
        Some(h) => h,
        None => return Err(
            ServerError::Corrupt {
                detail: "a batch could not be encoded for checksumming".to_owned(),
            },
        ),
    };
    let has_more: bool = chosen.len() < candidates.len() || more_beyond;
    Ok(Batch { scope: scope.clone(), next_cursor, has_more, checksum, digest, changes: chosen })
}

/// The candidates are what a log holds past a cursor, in order.
pub open spec fn ascending_past(cursor: u64, cs: Seq<ChangeView>) -> bool {
    &&& forall|i: int| 0 <= i < cs.len() ==> cursor < (#[trigger] cs[i]).seq
    &&& forall|i: int, j: int| 0 <= i < j < cs.len() ==> (#[trigger] cs[i]).seq < (
    #[trigger] cs[j]).seq
}

/// Two ways of filling the same batch come to the same thing.
pub proof fn filling_is_determined<C: Compressor, W: Codec>(
    scope: Seq<char>,
    cursor: u64,
    cs: Seq<ChangeView>,
    more_beyond: bool,
    budget: usize,
    compressor: &C,
    digest: Seq<char>,
    codec: &W,
    a: Result<BatchView, ServerErrorView>,
    b: Result<BatchView, ServerErrorView>,
)
    requires
        filled(scope, cursor, cs, more_beyond, budget, compressor, digest, codec, a),
        filled(scope, cursor, cs, more_beyond, budget, compressor, digest, codec, b),
    ensures
        a == b,
{
    assert forall|m: int, n: int|
        (is_cut(compressor, codec, cs, budget, m) || is_stuck(compressor, codec, cs, budget, m))
            && (is_cut(compressor, codec, cs, budget, n) || is_stuck(
            compressor,
            codec,
            cs,
            budget,
            n,
        )) implies m >= n by {
        if m < n {
            assert(encoding(codec, cs[m]) is Some);
            assert(fits(compressor, codec, cs, budget, m + 1));
        }
    }
    assert forall|m: int, n: int|
        is_cut(compressor, codec, cs, budget, m) && is_cut(
            compressor,
            codec,
            cs,
            budget,
            n,
        ) implies m == n by {
        assert(m >= n && n >= m);
    }
    assert forall|m: int, n: int|
        is_stuck(compressor, codec, cs, budget, m) && is_cut(
            compressor,
            codec,
            cs,
            budget,
            n,
        ) implies false by {
        assert(m >= n && n >= m);
    }
}

proof fn filling_stops<C: Compressor, W: Codec>(
    cs: Seq<ChangeView>,
    budget: usize,
    compressor: &C,
    codec: &W,
    n: int,
) -> (m: int)
    requires
        reaches(compressor, codec, cs, budget, n),
    ensures
        is_cut(compressor, codec, cs, budget, m) || is_stuck(compressor, codec, cs, budget, m),
    decreases cs.len() - n,
{
    if n == cs.len() || encoding(codec, cs[n]) is None || n > 0 && !fits(
        compressor,
        codec,
        cs,
        budget,
        n + 1,
    ) {
        n
    } else {
        filling_stops(cs, budget, compressor, codec, n + 1)
    }
}

/// There is always something that filling a batch comes to.
pub proof fn filling_is_possible<C: Compressor, W: Codec>(
    scope: Seq<char>,
    cursor: u64,
    cs: Seq<ChangeView>,
    more_beyond: bool,
    budget: usize,
    compressor: &C,
    digest: Seq<char>,
    codec: &W,
) -> (r: Result<BatchView, ServerErrorView>)
    ensures
        filled(scope, cursor, cs, more_beyond, budget, compressor, digest, codec, r),
{
    let n = filling_stops(cs, budget, compressor, codec, 0);
    if is_stuck(compressor, codec, cs, budget, n) {
        Err(ServerErrorView::Corrupt { detail: "a change in the log could not be encoded"@ })
    } else {
        match checksum_of(codec, cs.take(n)) {
            None => Err(
                ServerErrorView::Corrupt {
                    detail: "a batch could not be encoded for checksumming"@,
                },
            ),
            Some(checksum) => Ok(
                BatchView {
                    scope,
                    changes: cs.take(n),
                    next_cursor: cursor_after(cursor, cs, n),
                    has_more: n < cs.len() || more_beyond,
                    checksum,
                    digest,
                },
            ),
        }
    }
}

/// A batch is never empty while there is something to send: one change always goes.
pub proof fn one_change_always_goes<C: Compressor, W: Codec>(
    cs: Seq<ChangeView>,
    budget: usize,
    compressor: &C,
    codec: &W,
    n: int,
)
    requires
        is_cut(compressor, codec, cs, budget, n),
        cs.len() > 0,
    ensures
        n > 0,
{
}

/// The cursor of a batch covers exactly what was sent: it is past the old cursor as soon as
/// anything went, and what still lies past it is what was left behind. So a device that pulls on
/// meets every change once.
pub proof fn cursor_covers_what_was_sent<C: Compressor, W: Codec>(
    cursor: u64,
    cs: Seq<ChangeView>,
    budget: usize,
    compressor: &C,
    codec: &W,
    n: int,
)
    requires
        ascending_past(cursor, cs),
        is_cut(compressor, codec, cs, budget, n),
    ensures
        cs.len() > 0 ==> cursor < cursor_after(cursor, cs, n),
        forall|i: int|
            0 <= i < cs.len() ==> ((#[trigger] cs[i]).seq > cursor_after(cursor, cs, n) <==> i >= n),
        ascending_past(cursor_after(cursor, cs, n), cs.skip(n)),
{
    assert forall|i: int| 0 <= i < cs.len() implies ((#[trigger] cs[i]).seq > cursor_after(
        cursor,
        cs,
        n,
    ) <==> i >= n) by {
        if n > 0 {
            let last = cs[n - 1];
            if i < n - 1 {
                assert(cs[i].seq < last.seq);
            } else if i >= n {
                assert(last.seq < cs[i].seq);
            }
        }
    }
    let rest = cs.skip(n);
    assert forall|i: int| 0 <= i < rest.len() implies cursor_after(cursor, cs, n) < (
    #[trigger] rest[i]).seq by {
        assert(rest[i] == cs[i + n]);
    }
}

} // verus!
